use legion::buffer_view::{BufferViewDef, GPUViewType, ShaderResourceType, VulkanBufferView, VulkanDescriptor};
use legion::instance_table::{GpuInstanceData, InstanceTable};
use legion::pipeline_states::{
    BlendState, PipelineLayout, PrimitiveTopology, build_depth_pso, build_picking_pso, build_temp_pso, initialize_psos, CompareOp, CullMode, Format,
    PipelineShader, StencilOp, VertexAttributeRate,
};
use legion::static_buffer::{
    static_buffer_usage, BufferUsage, StaticBufferAllocation, round_size_up_to_alignment, static_allocation_size, static_buffer_layout, UniformGpuPages,
    UpdateUnifiedStaticBufferCommand,
};

#[test]
fn instance_slots_follow_registration() {
    let mut t = InstanceTable::new();
    t.register_element(5);
    t.register_element(2);
    t.register_element(9);
    assert_eq!(t.len(), 3);
    assert_eq!(t.slot_of(5), Some(0));
    assert_eq!(t.slot_of(2), Some(1));
    assert_eq!(t.slot_of(9), Some(2));
    assert_eq!(t.slot_of(3), None);
    assert_eq!(t.slot_of(100), None);
    assert_eq!(t.data_at(1), GpuInstanceData { gpu_instance_id: 2, state_id: 0 });
}

#[test]
fn unregister_moves_last_slot_into_hole() {
    let mut t = InstanceTable::new();
    t.register_element(5);
    t.register_element(2);
    t.register_element(9);
    let removed = t.unregister_element(5);
    assert_eq!(removed.gpu_instance_id, 5);
    assert_eq!(t.len(), 2);
    assert_eq!(t.slot_of(5), None);
    assert_eq!(t.slot_of(9), Some(0));
    assert_eq!(t.slot_of(2), Some(1));
    assert_eq!(t.data_at(0).gpu_instance_id, 9);
}

#[test]
fn register_then_unregister_restores_table() {
    let mut t = InstanceTable::new();
    t.register_element(1);
    t.register_element(3);
    t.register_element(7);
    t.unregister_element(7);
    assert_eq!(t.len(), 2);
    assert_eq!(t.slot_of(1), Some(0));
    assert_eq!(t.slot_of(3), Some(1));
    assert_eq!(t.slot_of(7), None);
    t.register_element(7);
    assert_eq!(t.slot_of(7), Some(2));
}

#[test]
fn depth_pso_states() {
    let p = build_depth_pso();
    assert_eq!(p.shader, PipelineShader::Depth);
    assert!(p.depth_state.depth_test_enable && p.depth_state.depth_write_enable);
    assert_eq!(p.depth_state.depth_compare_op, CompareOp::GreaterOrEqual);
    assert_eq!(p.depth_state.stencil_read_mask, 0xff);
    assert_eq!(p.depth_state.front_stencil_compare_op, CompareOp::Always);
    assert_eq!(p.depth_state.back_stencil_pass_op, StencilOp::Keep);
    assert_eq!(p.cull_mode, CullMode::Back);
    assert!(p.color_formats.is_empty());
    assert_eq!(p.depth_stencil_format, Some(Format::D32Sfloat));
    assert_eq!(p.vertex_buffer.stride, 4);
    assert_eq!(p.vertex_buffer.rate, VertexAttributeRate::Instance);
    assert_eq!(p.vertex_attribute.format, Format::R32Uint);
}

#[test]
fn temp_pso_depends_on_depth_write() {
    let writing = build_temp_pso(true);
    assert!(writing.depth_state.depth_write_enable);
    assert_eq!(writing.depth_state.depth_compare_op, CompareOp::GreaterOrEqual);
    let reading = build_temp_pso(false);
    assert!(!reading.depth_state.depth_write_enable);
    assert_eq!(reading.depth_state.depth_compare_op, CompareOp::Equal);
    assert_eq!(reading.color_formats, vec![Format::R16G16B16A16Sfloat]);
    assert_eq!(reading.shader, PipelineShader::Default);
}

#[test]
fn picking_pso_has_no_depth() {
    let p = build_picking_pso();
    assert!(!p.depth_state.depth_test_enable);
    assert!(!p.depth_state.depth_write_enable);
    assert_eq!(p.depth_state.depth_compare_op, CompareOp::Never);
    assert_eq!(p.cull_mode, CullMode::Disabled);
    assert_eq!(p.depth_stencil_format, None);
    let (d, t, k) = initialize_psos(false);
    assert_eq!(d.shader, PipelineShader::Depth);
    assert!(t.depth_state.depth_write_enable);
    assert_eq!(k.shader, PipelineShader::Picking);
}

#[test]
fn allocations_round_up_to_256() {
    assert_eq!(static_allocation_size(0), 0);
    assert_eq!(static_allocation_size(1), 256);
    assert_eq!(static_allocation_size(256), 256);
    assert_eq!(static_allocation_size(257), 512);
    assert_eq!(round_size_up_to_alignment(10, 4), 12);
    assert_eq!(static_buffer_layout(1027), (1024, 256));
}

#[test]
fn uniform_pages_are_allocated_on_demand() {
    let mut pages = UniformGpuPages::new(4, 16);
    assert_eq!(pages.segment_size(), 64);
    assert_eq!(pages.pages_missing(9), 3);
    let offset = pages.ensure_index_allocated(9, &vec![0, 256, 512]);
    assert_eq!(offset, 512 + 16);
    assert_eq!(pages.pages_missing(9), 0);
    assert_eq!(pages.pages_missing(3), 0);
    assert_eq!(pages.ensure_index_allocated(3, &vec![]), 48);
    assert_eq!(pages.ensure_index_allocated(9, &vec![]), 528);
    let command = UpdateUnifiedStaticBufferCommand { src_buffer: vec![1, 2], dst_offset: offset };
    assert_eq!(command.dst_offset, 528);
}

#[test]
fn buffer_view_sizes() {
    let def = BufferViewDef {
        gpu_view_type: GPUViewType::ShaderResourceView,
        byte_offset: 64,
        element_count: 10,
        element_size: 4,
    };
    let view = VulkanBufferView::from_buffer(7, &def);
    assert_eq!(view.vk_offset(), 64);
    assert_eq!(view.vk_size(), 40);
    assert_eq!(view.buffer(), 7);
    assert!(view.is_compatible_with_descriptor(&VulkanDescriptor {
        shader_resource_type: ShaderResourceType::StructuredBuffer
    }));
    assert!(!view.is_compatible_with_descriptor(&VulkanDescriptor {
        shader_resource_type: ShaderResourceType::RWStructuredBuffer
    }));
    assert!(!view.is_compatible_with_descriptor(&VulkanDescriptor {
        shader_resource_type: ShaderResourceType::Texture2D
    }));
}

#[test]
fn static_allocation_takes_default_usage() {
    let none = BufferUsage {
        as_shader_resource: false,
        as_unordered_access: false,
        as_const_buffer: false,
        as_vertex_buffer: false,
        as_index_buffer: false,
        as_transferable: false,
        as_other: false,
    };
    let a = StaticBufferAllocation::allocate(100, none, 512);
    assert_eq!(a.byte_offset(), 512);
    assert_eq!(a.vertex_buffer_binding(), 512);
    let srv_only = BufferUsage { as_shader_resource: true, ..none };
    let b = StaticBufferAllocation::allocate(300, srv_only, 1024);
    let def = BufferViewDef {
        gpu_view_type: GPUViewType::ShaderResourceView,
        byte_offset: 0,
        element_count: 4,
        element_size: 16,
    };
    let view = b.create_view(def);
    assert_eq!(view.byte_offset, 1024);
    assert_eq!(view.element_count, 4);
    assert!(static_buffer_usage().as_const_buffer);
}

#[test]
fn pipelines_share_raster_state_and_use_their_layouts() {
    let (depth, opaque, picking) = initialize_psos(false);
    assert_eq!(depth.root_signature, PipelineLayout::Depth);
    assert_eq!(opaque.root_signature, PipelineLayout::Shader);
    assert_eq!(picking.root_signature, PipelineLayout::Picking);
    for p in [&depth, &opaque, &picking] {
        assert_eq!(p.blend_state, BlendState::DefaultAlphaDisabled);
        assert_eq!(p.sample_count, 1);
        assert_eq!(p.primitive_topology, PrimitiveTopology::TriangleList);
    }
}
