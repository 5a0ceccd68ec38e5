use legion::api_codegen::{load_generator_for_language, Generator, Language, RustGenerator, TypeScriptGenerator};
use legion::async_spans::{AsyncSpanMatcher, SpanError, StatsProcessor};
use legion::buffer_view::ShaderResourceType;
use legion::data_codegen::{
    compile_resource_plan, extract_dependencies_plan, get_data_container_info, get_member_info, AttrToken,
    CompileConversion, DependencyUse, FieldAttribute, FieldDesc,
};
use legion::diff::{diff_tool, external_diff_command, file_patch, reference_version, DiffTool, ReferenceVersion};
use legion::encoding::Error;
use legion::event_sink::{EventSink, Level, NullEventSink};
use legion::shader_resources::{
    extract_resources, tmp_extract_root_signature_def, verify_resources_can_overlap, GfxError, PipelineType,
    PushConstant, ShaderReflection, ShaderResource, STAGE_COMPUTE, STAGE_FRAGMENT, STAGE_VERTEX,
};
use legion::source_control::{
    get_pending_changes, pending_changes_from_diff, IndexingError, RawDiffLeaf, TreeLeafNode, ChangeType, Commit, CommitMode, CommitPlan, DiffLeaf, PendingChange, Staging,
    TreeDiffSide, Workspace, WorkspaceError, Branch,
};
use legion::telemetry_sink::{
    http_sink_log_enabled, keep_connection, plan_step, push_allowed, QueueCounter, SinkAction, SinkMessage,
};
use legion::pipeline_states::Format;
use legion::yuv::{converter_config, yuv_texture_defs, MemoryUsage, PlaneSlice, TextureTiling, converter_set_layouts, copy_yuv_planes, dispatch_size, needs_resize, plane_extents, MappedPlane, Resolution};

fn ident(s: &str) -> AttrToken {
    AttrToken::Ident(s.to_string())
}

fn lit(s: &str) -> AttrToken {
    AttrToken::Literal(s.to_string())
}

fn legion_attr(tokens: Vec<AttrToken>) -> FieldAttribute {
    FieldAttribute { is_legion: true, arguments: Some(tokens) }
}

#[test]
fn member_attributes_are_read() {
    let attrs = vec![
        legion_attr(vec![
            ident("readonly"),
            AttrToken::Punct(','),
            ident("tooltip"),
            AttrToken::Punct('='),
            lit("\"The speed\""),
            AttrToken::Punct(','),
            ident("group"),
            AttrToken::Punct('='),
            lit("\"Motion\""),
        ]),
        FieldAttribute { is_legion: false, arguments: Some(vec![ident("hidden")]) },
        legion_attr(vec![ident("offline"), AttrToken::Punct(','), ident("default"), AttrToken::Punct('='), lit("2.5")]),
    ];
    let m = get_member_info("speed".to_string(), "f32".to_string(), vec!["f32".to_string()], &attrs);
    assert_eq!(m.name, "speed");
    assert!(m.readonly && m.offline && !m.hidden && !m.transient);
    assert_eq!(m.tooltip, "The speed");
    assert_eq!(m.group, "Motion");
    assert_eq!(m.default_literal, Some("2.5".to_string()));
    assert_eq!(m.get_type_name(), "f32");
    assert!(!m.is_option() && !m.is_vec());
    assert_eq!(m.get_runtime_type(), Some("f32".to_string()));
}

#[test]
fn default_values_of_every_form() {
    let attrs = vec![legion_attr(vec![
        ident("default"),
        AttrToken::Punct('='),
        ident("Vec3"),
        AttrToken::Punct(':'),
        AttrToken::Punct(':'),
        ident("ZERO"),
    ])];
    let m = get_member_info("p".to_string(), "Vec3".to_string(), vec!["Vec3".to_string()], &attrs);
    assert_eq!(m.default_literal, Some("Vec3::ZERO".to_string()));

    let attrs = vec![legion_attr(vec![ident("default"), AttrToken::Punct('='), AttrToken::Group("(1, 2)".to_string())])];
    let m = get_member_info("t".to_string(), "Pair".to_string(), vec!["Pair".to_string()], &attrs);
    assert_eq!(m.default_literal, Some("(1, 2).into()".to_string()));

    let attrs = vec![legion_attr(vec![
        ident("default"),
        AttrToken::Punct('='),
        ident("Quat"),
        AttrToken::Punct(':'),
        AttrToken::Punct(':'),
        ident("from_xyzw"),
        AttrToken::Group("(0.0, 0.0, 0.0, 1.0)".to_string()),
        AttrToken::Punct(','),
        ident("transient"),
    ])];
    let m = get_member_info("r".to_string(), "Quat".to_string(), vec!["Quat".to_string()], &attrs);
    assert_eq!(m.default_literal, Some("Quat::from_xyzw(0.0, 0.0, 0.0, 1.0)".to_string()));
    assert!(m.transient);
}

#[test]
fn resource_type_argument_adds_import() {
    let attrs = vec![legion_attr(vec![
        ident("resource_type"),
        AttrToken::Punct('='),
        ident("crate"),
        AttrToken::Punct(':'),
        AttrToken::Punct(':'),
        ident("Mesh"),
    ])];
    let m = get_member_info(
        "mesh".to_string(),
        "Option < ResourcePathId >".to_string(),
        vec!["Option".to_string()],
        &attrs,
    );
    assert_eq!(m.resource_type, Some("crate :: Mesh".to_string()));
    assert_eq!(m.imports, vec!["lgn_data_offline::ResourcePathId".to_string()]);
    assert!(m.is_option());
    assert_eq!(
        m.get_runtime_type(),
        Some("Option < lgn_data_runtime :: Reference < crate :: Mesh > >".to_string())
    );
}

#[test]
fn container_info_reads_fields_in_order() {
    let fields = vec![
        FieldDesc {
            name: "a".to_string(),
            type_path: Some(("Vec < u8 >".to_string(), vec!["Vec".to_string()])),
            attrs: vec![legion_attr(vec![ident("resource_type"), AttrToken::Punct('='), ident("X")])],
        },
        FieldDesc {
            name: "b".to_string(),
            type_path: Some(("u32".to_string(), vec!["u32".to_string()])),
            attrs: vec![legion_attr(vec![ident("resource_type"), AttrToken::Punct('='), ident("Y")])],
        },
    ];
    let info = match get_data_container_info("Thing".to_string(), &vec![vec!["resource".to_string()]], &fields) {
        Ok(i) => i,
        Err(e) => panic!("{}", e),
    };
    assert_eq!(info.name, "Thing");
    assert!(info.is_resource && !info.is_component && !info.need_life_time());
    assert_eq!(info.members.len(), 2);
    assert!(info.members[0].is_vec());
    assert_eq!(info.imports(), vec!["lgn_data_offline::ResourcePathId".to_string()]);

    let bad = vec![FieldDesc { name: "f".to_string(), type_path: None, attrs: vec![] }];
    match get_data_container_info("T".to_string(), &vec![], &bad) {
        Ok(_) => panic!("refusal expected"),
        Err(msg) => assert_eq!(msg, "Legion: unsupported field type: f"),
    }
}

#[test]
fn compile_and_dependency_plans_follow_member_types() {
    let field = |name: &str, path: &str, first: &str, attrs: Vec<FieldAttribute>| FieldDesc {
        name: name.to_string(),
        type_path: Some((path.to_string(), vec![first.to_string()])),
        attrs,
    };
    let fields = vec![
        field("parent", "Option < ResourcePathId >", "Option", vec![]),
        field("notes", "String", "String", vec![legion_attr(vec![ident("offline")])]),
        field("deps", "Vec < ResourcePathId >", "Vec", vec![]),
        field("count", "u32", "u32", vec![]),
    ];
    let info = get_data_container_info("Thing".to_string(), &vec![], &fields).unwrap();
    let plan = compile_resource_plan(&info);
    assert_eq!(
        plan,
        vec![
            ("parent".to_string(), CompileConversion::PassiveReference),
            ("deps".to_string(), CompileConversion::PassiveReferences),
            ("count".to_string(), CompileConversion::Cloned),
        ]
    );
    let (returns_none, uses) = extract_dependencies_plan(&info);
    assert!(returns_none);
    assert_eq!(uses, vec![DependencyUse::Optional, DependencyUse::Ignored, DependencyUse::All, DependencyUse::Ignored]);
    let empty = get_data_container_info("Empty".to_string(), &vec![], &vec![]).unwrap();
    assert_eq!(extract_dependencies_plan(&empty), (false, vec![]));
    assert!(compile_resource_plan(&empty).is_empty());
}

#[test]
fn diff_reference_and_external_command() {
    assert_eq!(reference_version(&"base".to_string()), ReferenceVersion::Base);
    assert_eq!(reference_version(&"latest".to_string()), ReferenceVersion::Latest);
    assert_eq!(reference_version(&"abc123".to_string()), ReferenceVersion::Commit("abc123".to_string()));
    let cmd = vec!["tool".to_string(), "%ref".to_string(), "--local=%local%local".to_string(), "%re".to_string()];
    assert_eq!(
        external_diff_command(&cmd, &"/tmp/r".to_string(), &"/w/f".to_string()),
        vec!["tool", "/tmp/r", "--local=/w/f/w/f", "%re"]
    );
    assert_eq!(diff_tool(true, true), DiffTool::External);
    assert_eq!(diff_tool(true, false), DiffTool::Builtin);
    assert_eq!(diff_tool(false, true), DiffTool::Builtin);
}

#[test]
fn builtin_patch_is_diffy_patch() {
    let patch = file_patch(&"a\nb\n".to_string(), &"a\nc\n".to_string());
    assert_eq!(patch, diffy::create_patch("a\nb\n", "a\nc\n").to_string());
    assert!(patch.contains("-b") && patch.contains("+c"));
}

#[test]
fn encoding_errors() {
    let e = Error::unsupported(vec![1, 2]);
    assert_eq!(e.message(), "complex type `[1, 2]` cannot be percent encoded");
    assert_eq!(Error::custom("bad".to_string()).message(), "bad");
}

#[test]
fn generator_per_language() {
    assert_eq!(load_generator_for_language(Language::Rust), Generator::Rust(RustGenerator {}));
    assert_eq!(load_generator_for_language(Language::TypeScript), Generator::TypeScript(TypeScriptGenerator {}));
}

#[test]
fn null_sink_wants_no_log() {
    let sink = NullEventSink {};
    assert!(!sink.on_log_enabled(Level::Error, "any"));
    assert!(http_sink_log_enabled());
}

#[test]
fn telemetry_sink_decisions() {
    assert!(push_allowed(3, 4));
    assert!(!push_allowed(4, 4));
    assert!(keep_connection(2));
    assert!(!keep_connection(1));
    let step = plan_step(false, SinkMessage::LogBlock, 10, 1, 5);
    assert!(step.connect);
    assert_eq!(step.action, SinkAction::SkipBlock);
    assert!(!step.keep_connection);
    let step = plan_step(true, SinkMessage::Startup, 10, 3, 5);
    assert!(!step.connect);
    assert_eq!(step.action, SinkAction::InsertProcess);
    assert!(step.keep_connection);
    assert_eq!(plan_step(true, SinkMessage::ThreadBlock, 1, 1, 5).action, SinkAction::InsertBlock);
    let mut q = QueueCounter::new();
    assert!(!q.is_busy());
    q.on_send();
    q.on_send();
    assert!(q.is_busy());
    q.on_send_failed();
    q.on_handled();
    assert_eq!(q.value(), 0);
}

#[test]
fn async_spans_match_in_either_order() {
    let mut m = AsyncSpanMatcher::new();
    assert_eq!(m.on_begin_async_scope(1), Ok(false));
    assert_eq!(m.on_end_async_scope(2), Ok(false));
    assert!(m.is_unmatched(1) && m.is_unmatched(2));
    assert_eq!(m.on_end_async_scope(1), Ok(true));
    assert_eq!(m.on_begin_async_scope(2), Ok(true));
    assert!(!m.is_unmatched(1) && !m.is_unmatched(2));
    assert_eq!(m.on_begin_async_scope(3), Ok(false));
    assert_eq!(m.on_begin_async_scope(3), Err(SpanError::DuplicateBegin(3)));
    assert!(!m.is_unmatched(3));
    assert_eq!(m.on_end_async_scope(4), Ok(false));
    assert_eq!(m.on_end_async_scope(4), Err(SpanError::DuplicateEnd(4)));
}

#[test]
fn stats_track_relative_extent() {
    let mut s = StatsProcessor::new(1000);
    assert_eq!((s.min_ts, s.max_ts, s.nb_events), (i64::MAX, i64::MIN, 0));
    s.on_begin_async_scope(1500);
    s.on_end_async_scope(1200);
    s.on_end_async_scope(1700);
    assert_eq!((s.min_ts, s.max_ts, s.nb_events), (200, 700, 3));
}

#[test]
fn yuv_layout_and_copy() {
    let res = Resolution { width: 4, height: 2 };
    assert_eq!(plane_extents(res), ((4, 2), (2, 1)));
    assert_eq!(dispatch_size(Resolution { width: 1920, height: 1080 }), (240, 135, 1));
    assert_eq!(dispatch_size(Resolution { width: 1, height: 9 }), (1, 2, 1));
    assert!(needs_resize(res, Resolution { width: 4, height: 4 }));
    assert!(!needs_resize(res, res));
    let luma = MappedPlane { data: vec![1, 2, 3, 4, 0, 0, 5, 6, 7, 8], row_pitch: 6 };
    let u = MappedPlane { data: vec![9, 10], row_pitch: 8 };
    let v = MappedPlane { data: vec![11, 12, 99], row_pitch: 3 };
    let mut yuv = vec![0u8; 12];
    copy_yuv_planes(&mut yuv, &luma, &u, &v, 4, 2);
    assert_eq!(yuv, vec![1, 2, 3, 4, 5, 6, 7, 8, 9, 10, 11, 12]);
}

fn resource(name: &str, set: u32, binding: u32, stages: u32) -> ShaderResource {
    ShaderResource {
        name: name.to_string(),
        set_index: set,
        binding,
        shader_resource_type: ShaderResourceType::ConstantBuffer,
        element_count: 0,
        used_in_shader_stages: stages,
    }
}

#[test]
fn shader_resources_merge() {
    let shaders = vec![
        ShaderReflection {
            shader_stages: STAGE_VERTEX,
            shader_resources: vec![resource("view", 0, 0, STAGE_VERTEX), resource("light", 1, 2, STAGE_VERTEX)],
            push_constant: Some(PushConstant { used_in_shader_stages: STAGE_VERTEX, size: 16 }),
        },
        ShaderReflection {
            shader_stages: STAGE_FRAGMENT,
            shader_resources: vec![resource("view", 0, 0, STAGE_FRAGMENT), resource("mat", 1, 0, STAGE_FRAGMENT)],
            push_constant: Some(PushConstant { used_in_shader_stages: STAGE_FRAGMENT, size: 16 }),
        },
    ];
    let (t, rs, pc) = extract_resources(&shaders).unwrap();
    assert_eq!(t, PipelineType::Graphics);
    assert_eq!(rs.len(), 3);
    assert_eq!(rs[0].used_in_shader_stages, STAGE_VERTEX | STAGE_FRAGMENT);
    assert_eq!(pc, Some(PushConstant { used_in_shader_stages: STAGE_VERTEX | STAGE_FRAGMENT, size: 16 }));
    let layout = tmp_extract_root_signature_def(&shaders).unwrap();
    let set1 = layout.descriptor_set_layouts[1].as_ref().unwrap();
    assert_eq!(set1.iter().map(|d| d.binding).collect::<Vec<_>>(), vec![0, 2]);
    assert!(layout.descriptor_set_layouts[2].is_none());
}

#[test]
fn converter_layouts_skip_unused_sets() {
    let resources = vec![
        resource("output_y", 2, 3, STAGE_COMPUTE),
        resource("input", 0, 1, STAGE_COMPUTE),
        resource("output_u", 2, 1, STAGE_COMPUTE),
    ];
    let layouts = converter_set_layouts(&resources);
    assert_eq!(layouts.len(), 2);
    assert_eq!(layouts[0].frequency, 0);
    assert_eq!(layouts[0].descriptor_defs.len(), 1);
    assert_eq!(layouts[0].descriptor_defs[0].name, "input");
    assert_eq!(layouts[1].frequency, 2);
    let names: Vec<&str> = layouts[1].descriptor_defs.iter().map(|d| d.name.as_str()).collect();
    assert_eq!(names, vec!["output_y", "output_u"]);
    assert!(converter_set_layouts(&Vec::new()).is_empty());
}

#[test]
fn shader_resource_conflicts() {
    let a = resource("a", 0, 0, STAGE_VERTEX);
    let mut b = resource("b", 0, 0, STAGE_VERTEX);
    b.element_count = 2;
    assert!(matches!(verify_resources_can_overlap(&b, &a), Err(GfxError::MismatchedElementCount { .. })));
    let mixed = vec![
        ShaderReflection { shader_stages: STAGE_VERTEX, shader_resources: vec![], push_constant: None },
        ShaderReflection { shader_stages: STAGE_COMPUTE, shader_resources: vec![], push_constant: None },
    ];
    assert_eq!(extract_resources(&mixed).err(), Some(GfxError::MixedPipelineTypes));
    let moved = vec![
        ShaderReflection { shader_stages: STAGE_VERTEX, shader_resources: vec![resource("x", 0, 0, STAGE_VERTEX)], push_constant: None },
        ShaderReflection { shader_stages: STAGE_FRAGMENT, shader_resources: vec![resource("x", 1, 0, STAGE_FRAGMENT)], push_constant: None },
    ];
    assert_eq!(
        extract_resources(&moved).err(),
        Some(GfxError::MismatchedSetIndex { set_index: 1, binding: 0, existing_set_index: 0 })
    );
}

#[test]
fn pending_changes_pair_edits() {
    let leaves = vec![
        DiffLeaf { key: 5, side: TreeDiffSide::Right, resource_id: 50 },
        DiffLeaf { key: 2, side: TreeDiffSide::Right, resource_id: 21 },
        DiffLeaf { key: 2, side: TreeDiffSide::Left, resource_id: 20 },
        DiffLeaf { key: 1, side: TreeDiffSide::Left, resource_id: 10 },
    ];
    assert_eq!(
        get_pending_changes(&leaves),
        vec![
            PendingChange { key: 1, change: ChangeType::Delete { old_id: 10 } },
            PendingChange { key: 2, change: ChangeType::Edit { old_id: 20, new_id: 21 } },
            PendingChange { key: 5, change: ChangeType::Add { new_id: 50 } },
        ]
    );
}

#[test]
fn workspace_commit_plans() {
    let head = Commit { id: 7, main_index_tree_id: 1, path_index_tree_id: 2 };
    let ws = Workspace::new("repo".to_string(), "main", &head);
    assert_eq!(ws.repository_name(), "repo");
    assert_eq!(ws.branch_name(), "main");
    assert_eq!(ws.indices(), (1, 2));
    assert_eq!(ws.clone_main_index_id(), 1);
    let branch = Branch { name: "main".to_string(), head: 7, parent: None, lock_domain_id: "d1".to_string() };
    assert_eq!(ws.plan_commit(&branch, &branch, &head, CommitMode::Strict), CommitPlan::EmptyNotAllowed);
    assert_eq!(ws.plan_commit(&branch, &branch, &head, CommitMode::Lenient), CommitPlan::KeepHead);
    let moved = Branch { name: "main".to_string(), head: 8, parent: None, lock_domain_id: "d1".to_string() };
    assert_eq!(ws.plan_commit(&moved, &branch, &head, CommitMode::Strict), CommitPlan::Stale);
    let old = Commit { id: 7, main_index_tree_id: 3, path_index_tree_id: 2 };
    assert_eq!(
        ws.plan_commit(&branch, &branch, &old, CommitMode::Strict),
        CommitPlan::CreateCommit { parent: 7, main_index_tree_id: 1, path_index_tree_id: 2 }
    );
    assert_eq!(Workspace::check_resource_path("/"), Err(WorkspaceError::InvalidPath("/".to_string())));
    assert_eq!(Workspace::check_resource_path("/a"), Ok(()));
    assert_eq!(
        Workspace::plan_create_branch(&branch, "main"),
        Err(WorkspaceError::AlreadyOnBranch("main".to_string()))
    );
    assert_eq!(
        Workspace::plan_create_branch(&branch, "dev"),
        Ok(Branch { name: "dev".to_string(), head: 7, parent: Some("main".to_string()), lock_domain_id: "d1".to_string() })
    );
    assert_eq!(Staging::from_bool(true, false), Staging::StagedOnly);
    assert_eq!(Staging::from_bool(false, true), Staging::UnstagedOnly);
    assert_eq!(Staging::from_bool(false, false), Staging::StagedAndUnstaged);
}

#[test]
fn yuv_frame_textures_for_resolution() {
    let defs = yuv_texture_defs(Resolution { width: 1280, height: 721 });
    assert_eq!((defs.luma.extents.width, defs.luma.extents.height, defs.luma.extents.depth), (1280, 721, 1));
    assert_eq!((defs.chroma.extents.width, defs.chroma.extents.height), (640, 360));
    assert_eq!(defs.luma.format, Format::R8Unorm);
    assert_eq!(defs.chroma.mem_usage, MemoryUsage::GpuOnly);
    assert!(defs.luma.usage_flags.as_unordered_access && defs.luma.usage_flags.as_transferable);
    assert_eq!(defs.luma.tiling, TextureTiling::Optimal);
    assert_eq!(defs.plane_view.plane_slice, PlaneSlice::Default);
    assert_eq!(defs.copy_image.format, Format::G8B8R8ThreePlane420Unorm);
    assert_eq!(defs.copy_image.mem_usage, MemoryUsage::GpuToCpu);
    assert_eq!(defs.copy_image.tiling, TextureTiling::Linear);
    assert!(!defs.copy_image.usage_flags.as_unordered_access && defs.copy_image.usage_flags.as_transferable);
}

#[test]
fn converter_renders_one_frame_without_push_constant() {
    let resources = vec![resource("input", 0, 0, STAGE_COMPUTE), resource("out", 1, 0, STAGE_COMPUTE)];
    let config = converter_config(&resources, Resolution { width: 64, height: 32 });
    assert_eq!(config.render_frame_count, 1);
    assert!(config.push_constant.is_none());
    assert_eq!(config.set_layouts.len(), 2);
    assert_eq!(config.resources.frames.len(), 1);
    assert_eq!(config.shader.entry_point, "cs_main");
    assert_eq!(config.resources.frames[0], yuv_texture_defs(Resolution { width: 64, height: 32 }));
}

#[test]
fn created_branch_becomes_active() {
    let head = Commit { id: 7, main_index_tree_id: 1, path_index_tree_id: 2 };
    let mut ws = Workspace::new("repo".to_string(), "main", &head);
    let main = Branch { name: "main".to_string(), head: 7, parent: None, lock_domain_id: "d1".to_string() };
    assert_eq!(ws.create_branch(&main, "main"), Err(WorkspaceError::AlreadyOnBranch("main".to_string())));
    assert_eq!(ws.branch_name(), "main");
    let dev = ws.create_branch(&main, "dev").unwrap();
    assert_eq!(ws.branch_name(), "dev");
    assert_eq!(dev.parent, Some("main".to_string()));
    assert_eq!(dev.lock_domain_id, "d1");
    let feature = ws.create_branch(&dev, "feature").unwrap();
    assert_eq!(ws.branch_name(), "feature");
    assert_eq!(feature.head, 7);
}

#[test]
fn tree_root_leaf_corrupts_pending_changes() {
    let raw = vec![
        RawDiffLeaf { key: 2, side: TreeDiffSide::Right, leaf: Ok(TreeLeafNode::Resource(20)) },
        RawDiffLeaf { key: 1, side: TreeDiffSide::Left, leaf: Ok(TreeLeafNode::Resource(10)) },
    ];
    assert_eq!(
        pending_changes_from_diff(&raw),
        Ok(vec![
            PendingChange { key: 1, change: ChangeType::Delete { old_id: 10 } },
            PendingChange { key: 2, change: ChangeType::Add { new_id: 20 } },
        ])
    );
    let bad = vec![
        RawDiffLeaf { key: 1, side: TreeDiffSide::Left, leaf: Ok(TreeLeafNode::Resource(10)) },
        RawDiffLeaf { key: 2, side: TreeDiffSide::Right, leaf: Ok(TreeLeafNode::TreeRoot(5)) },
        RawDiffLeaf { key: 3, side: TreeDiffSide::Right, leaf: Err(IndexingError::Other("lost".to_string())) },
    ];
    assert_eq!(
        pending_changes_from_diff(&bad),
        Err(IndexingError::CorruptedTree("found unexpected tree-root node".to_string()))
    );
    let failed = vec![RawDiffLeaf { key: 3, side: TreeDiffSide::Right, leaf: Err(IndexingError::Other("lost".to_string())) }];
    assert_eq!(pending_changes_from_diff(&failed), Err(IndexingError::Other("lost".to_string())));
}
