//! Merging the resources that several shaders declare into the resources of
//! one root signature, and grouping them into descriptor set layouts.

use vstd::prelude::*;
use crate::buffer_view::ShaderResourceType;

verus! {

broadcast use vstd::seq_lib::group_seq_properties;

/// Shader stage bits: vertex.
pub const STAGE_VERTEX: u32 = 1;
/// Shader stage bits: fragment.
pub const STAGE_FRAGMENT: u32 = 2;
/// Shader stage bits: compute.
pub const STAGE_COMPUTE: u32 = 4;

/// Maximum number of descriptor set layouts of a root signature.
pub const MAX_DESCRIPTOR_SET_LAYOUTS: usize = 4;

/// Kind of pipeline a set of shaders builds.
#[derive(Debug, Clone, Copy, PartialEq, Eq, Structural)]
pub enum PipelineType {
    Graphics,
    Compute,
}

/// A resource a shader declares: its name, where it is bound, its type,
/// its array size (0 for a single element) and the stages that use it.
#[derive(Debug)]
pub struct ShaderResource {
    pub name: String,
    pub set_index: u32,
    pub binding: u32,
    pub shader_resource_type: ShaderResourceType,
    pub element_count: u32,
    pub used_in_shader_stages: u32,
}

/// A push constant: the stages that use it and its size in bytes.
#[derive(Debug, Clone, Copy, PartialEq, Eq, Structural)]
pub struct PushConstant {
    pub used_in_shader_stages: u32,
    pub size: u32,
}

/// What reflection reports of one shader.
#[derive(Debug)]
pub struct ShaderReflection {
    pub shader_stages: u32,
    pub shader_resources: Vec<ShaderResource>,
    pub push_constant: Option<PushConstant>,
}

/// Why shaders cannot share a root signature.
#[derive(Debug, Clone, Copy, PartialEq, Eq, Structural)]
pub enum GfxError {
    MixedPipelineTypes,
    MismatchedSetIndex { set_index: u32, binding: u32, existing_set_index: u32 },
    MismatchedBinding { set_index: u32, binding: u32, existing_binding: u32 },
    MismatchedElementCount { set_index: u32, binding: u32, element_count: u32, existing_element_count: u32 },
    MismatchedResourceType {
        set_index: u32,
        binding: u32,
        resource_type: ShaderResourceType,
        existing_resource_type: ShaderResourceType,
    },
    PushConstantMismatch { size: u32, existing_size: u32 },
    ZeroSizedPushConstant,
}

/// An entry of the name map: a resource name and the merged resource it
/// designates.
#[derive(Debug)]
pub struct NameSlot {
    pub name: String,
    pub index: usize,
}

/// Resources merged so far, and the map from names to them.
pub struct MergedResources {
    pub resources: Seq<ShaderResource>,
    pub names: Seq<NameSlot>,
}

/// The state of a merge across shaders.
pub struct MergeState {
    pub pipeline_type: Option<PipelineType>,
    pub merged: MergedResources,
    pub push_constant: Option<PushConstant>,
}

impl ShaderResource {
    /// The array size, where 0 stands for a single element.
    pub open spec fn spec_element_count_normalized(&self) -> u32 {
        if self.element_count == 0 {
            1
        } else {
            self.element_count
        }
    }

    /// The array size, where 0 stands for a single element.
    pub fn element_count_normalized(&self) -> (r: u32)
        ensures
            r == self.spec_element_count_normalized(),
    {
        if self.element_count == 0 {
            1
        } else {
            self.element_count
        }
    }

    /// A copy of the resource.
    pub fn duplicate(&self) -> (r: ShaderResource)
        ensures
            r == *self,
    {
        ShaderResource {
            name: self.name.clone(),
            set_index: self.set_index,
            binding: self.binding,
            shader_resource_type: self.shader_resource_type,
            element_count: self.element_count,
            used_in_shader_stages: self.used_in_shader_stages,
        }
    }
}

/// The pipeline type of a shader with the given stages.
pub open spec fn pipeline_type_of(stages: u32) -> PipelineType {
    if stages & STAGE_COMPUTE != 0 {
        PipelineType::Compute
    } else {
        PipelineType::Graphics
    }
}

/// The error, if any, that keeps `resource` from aliasing `previous`: their
/// normalized array sizes and their types must agree.
pub open spec fn overlap_error(resource: ShaderResource, previous: ShaderResource) -> Option<GfxError> {
    if previous.spec_element_count_normalized() != resource.spec_element_count_normalized() {
        Some(
            GfxError::MismatchedElementCount {
                set_index: resource.set_index,
                binding: resource.binding,
                element_count: resource.spec_element_count_normalized(),
                existing_element_count: previous.spec_element_count_normalized(),
            },
        )
    } else if previous.shader_resource_type != resource.shader_resource_type {
        Some(
            GfxError::MismatchedResourceType {
                set_index: resource.set_index,
                binding: resource.binding,
                resource_type: resource.shader_resource_type,
                existing_resource_type: previous.shader_resource_type,
            },
        )
    } else {
        None
    }
}

/// Checks that two resources bound at the same place can alias each other.
pub fn verify_resources_can_overlap(resource: &ShaderResource, previous_resource: &ShaderResource) -> (r: Result<(), GfxError>)
    ensures
        r is Ok <==> overlap_error(*resource, *previous_resource) is None,
        r matches Err(e) ==> overlap_error(*resource, *previous_resource) == Some(e),
{
    if previous_resource.element_count_normalized() != resource.element_count_normalized() {
        return Err(
            GfxError::MismatchedElementCount {
                set_index: resource.set_index,
                binding: resource.binding,
                element_count: resource.element_count_normalized(),
                existing_element_count: previous_resource.element_count_normalized(),
            },
        );
    }
    if previous_resource.shader_resource_type != resource.shader_resource_type {
        return Err(
            GfxError::MismatchedResourceType {
                set_index: resource.set_index,
                binding: resource.binding,
                resource_type: resource.shader_resource_type,
                existing_resource_type: previous_resource.shader_resource_type,
            },
        );
    }
    Ok(())
}

/// The merged resource a name designates, if the name is known.
pub open spec fn lookup_name(names: Seq<NameSlot>, name: Seq<char>) -> Option<int>
    decreases names.len(),
{
    if names.len() == 0 {
        None
    } else if names.last().name@ == name {
        Some(names.last().index as int)
    } else {
        lookup_name(names.drop_last(), name)
    }
}

/// Whether `x` and `r` are used by a common stage at the same set and
/// binding.
pub open spec fn overlaps(x: ShaderResource, r: ShaderResource) -> bool {
    (x.used_in_shader_stages & r.used_in_shader_stages) != 0 && x.binding == r.binding && x.set_index
        == r.set_index
}

/// The last merged resource that `r` overlaps, if any.
pub open spec fn last_overlap(rs: Seq<ShaderResource>, r: ShaderResource) -> Option<int>
    decreases rs.len(),
{
    if rs.len() == 0 {
        None
    } else if overlaps(rs.last(), r) {
        Some(rs.len() - 1)
    } else {
        last_overlap(rs.drop_last(), r)
    }
}

/// `x` with its stages widened by `stages`.
pub open spec fn add_stages(x: ShaderResource, stages: u32) -> ShaderResource {
    ShaderResource { used_in_shader_stages: x.used_in_shader_stages | stages, ..x }
}

/// Merges one resource: a known name must agree on set and binding and be
/// able to alias the resource it designates, which then gains the stages; an
/// unknown name that overlaps a merged resource aliases it likewise and
/// joins the name map; any other resource is added.
pub open spec fn merge_resource(m: MergedResources, r: ShaderResource) -> Result<MergedResources, GfxError> {
    match lookup_name(m.names, r.name@) {
        Some(i) => {
            let e = m.resources[i];
            if e.set_index != r.set_index {
                Err(GfxError::MismatchedSetIndex { set_index: r.set_index, binding: r.binding, existing_set_index: e.set_index })
            } else if e.binding != r.binding {
                Err(GfxError::MismatchedBinding { set_index: r.set_index, binding: r.binding, existing_binding: e.binding })
            } else if overlap_error(r, e) is Some {
                Err(overlap_error(r, e).unwrap())
            } else {
                Ok(MergedResources { resources: m.resources.update(i, add_stages(e, r.used_in_shader_stages)), names: m.names })
            }
        },
        None => match last_overlap(m.resources, r) {
            Some(i) => {
                let e = m.resources[i];
                if overlap_error(r, e) is Some {
                    Err(overlap_error(r, e).unwrap())
                } else {
                    Ok(
                        MergedResources {
                            resources: m.resources.update(i, add_stages(e, r.used_in_shader_stages)),
                            names: m.names.push(NameSlot { name: r.name, index: i as usize }),
                        },
                    )
                }
            },
            None => Ok(
                MergedResources {
                    resources: m.resources.push(r),
                    names: m.names.push(NameSlot { name: r.name, index: m.resources.len() as usize }),
                },
            ),
        },
    }
}

/// Merges a sequence of resources in order, stopping at the first error.
pub open spec fn merge_resources(m: MergedResources, rs: Seq<ShaderResource>) -> Result<MergedResources, GfxError>
    decreases rs.len(),
{
    if rs.len() == 0 {
        Ok(m)
    } else {
        match merge_resources(m, rs.drop_last()) {
            Ok(m2) => merge_resource(m2, rs.last()),
            Err(e) => Err(e),
        }
    }
}

/// Merges a shader's push constant into the one found so far: sizes must
/// agree, stages are combined.
pub open spec fn merge_push_constant(current: Option<PushConstant>, other: Option<PushConstant>) -> Result<Option<PushConstant>, GfxError> {
    match current {
        None => Ok(other),
        Some(p) => match other {
            None => Ok(Some(p)),
            Some(q) => if p.size != q.size {
                Err(GfxError::PushConstantMismatch { size: q.size, existing_size: p.size })
            } else {
                Ok(Some(PushConstant { used_in_shader_stages: p.used_in_shader_stages | q.used_in_shader_stages, size: p.size }))
            },
        },
    }
}

/// Merges one shader: its pipeline type must agree with the shaders before
/// it, then its resources and its push constant are merged.
pub open spec fn merge_shader(st: MergeState, s: ShaderReflection) -> Result<MergeState, GfxError> {
    let t = pipeline_type_of(s.shader_stages);
    if st.pipeline_type is Some && st.pipeline_type != Some(t) {
        Err(GfxError::MixedPipelineTypes)
    } else {
        match merge_resources(st.merged, s.shader_resources@) {
            Err(e) => Err(e),
            Ok(m) => match merge_push_constant(st.push_constant, s.push_constant) {
                Err(e) => Err(e),
                Ok(pc) => Ok(MergeState { pipeline_type: Some(t), merged: m, push_constant: pc }),
            },
        }
    }
}

pub open spec fn empty_merge_state() -> MergeState {
    MergeState {
        pipeline_type: None,
        merged: MergedResources { resources: Seq::empty(), names: Seq::empty() },
        push_constant: None,
    }
}

/// Merges shaders in order, stopping at the first error.
pub open spec fn merge_shaders(shaders: Seq<ShaderReflection>) -> Result<MergeState, GfxError>
    decreases shaders.len(),
{
    if shaders.len() == 0 {
        Ok(empty_merge_state())
    } else {
        match merge_shaders(shaders.drop_last()) {
            Ok(st) => merge_shader(st, shaders.last()),
            Err(e) => Err(e),
        }
    }
}

fn find_name(names: &Vec<NameSlot>, name: &String) -> (r: Option<usize>)
    ensures
        r matches Some(i) ==> lookup_name(names@, name@) == Some(i as int),
        r is None ==> lookup_name(names@, name@) is None,
{
    let mut j = names.len();
    proof {
        assert(names@.take(j as int) =~= names@);
    }
    while j > 0
        invariant
            j <= names.len(),
            lookup_name(names@, name@) == lookup_name(names@.take(j as int), name@),
        decreases j,
    {
        let ghost pre = names@.take(j as int);
        proof {
            assert(pre.drop_last() =~= names@.take(j - 1));
        }
        if names[j - 1].name == *name {
            return Some(names[j - 1].index);
        }
        j = j - 1;
    }
    proof {
        assert(names@.take(0) =~= Seq::<NameSlot>::empty());
    }
    None
}

fn find_last_overlap(merged: &Vec<ShaderResource>, r: &ShaderResource) -> (res: Option<usize>)
    ensures
        res matches Some(i) ==> last_overlap(merged@, *r) == Some(i as int),
        res is None ==> last_overlap(merged@, *r) is None,
{
    let mut existing: Option<usize> = None;
    let n = merged.len();
    for k in 0..n
        invariant
            n == merged.len(),
            existing matches Some(i) ==> last_overlap(merged@.take(k as int), *r) == Some(i as int),
            existing is None ==> last_overlap(merged@.take(k as int), *r) is None,
    {
        proof {
            assert(merged@.take(k + 1).drop_last() =~= merged@.take(k as int));
        }
        let x = &merged[k];
        if (x.used_in_shader_stages & r.used_in_shader_stages) != 0 && x.binding == r.binding
            && x.set_index == r.set_index {
            existing = Some(k);
        }
    }
    proof {
        assert(merged@.take(n as int) =~= merged@);
    }
    existing
}

/// The resources merged so far are consistent with the name map.
pub open spec fn names_in_range(m: MergedResources) -> bool {
    forall|i: int| 0 <= i < m.names.len() ==> #[trigger] m.names[i].index < m.resources.len()
}

proof fn lemma_lookup_in_range(names: Seq<NameSlot>, n: Seq<char>, len: int)
    requires
        forall|i: int| 0 <= i < names.len() ==> #[trigger] names[i].index < len,
    ensures
        lookup_name(names, n) matches Some(i) ==> 0 <= i < len,
    decreases names.len(),
{
    if names.len() > 0 {
        lemma_lookup_in_range(names.drop_last(), n, len);
    }
}

proof fn lemma_last_overlap_in_range(rs: Seq<ShaderResource>, r: ShaderResource)
    ensures
        last_overlap(rs, r) matches Some(i) ==> 0 <= i < rs.len(),
    decreases rs.len(),
{
    if rs.len() > 0 {
        lemma_last_overlap_in_range(rs.drop_last(), r);
    }
}

/// Merges one resource into `merged` and `names`, as `merge_resource` says.
fn merge_one(merged: &mut Vec<ShaderResource>, names: &mut Vec<NameSlot>, resource: &ShaderResource) -> (r: Result<(), GfxError>)
    requires
        names_in_range(MergedResources { resources: old(merged)@, names: old(names)@ }),
    ensures
        merge_resource(MergedResources { resources: old(merged)@, names: old(names)@ }, *resource) matches Ok(m)
            ==> r is Ok && final(merged)@ == m.resources && final(names)@ == m.names,
        merge_resource(MergedResources { resources: old(merged)@, names: old(names)@ }, *resource) matches Err(e)
            ==> r == Err::<(), GfxError>(e),
        r is Ok ==> names_in_range(MergedResources { resources: final(merged)@, names: final(names)@ }),
{
    proof {
        lemma_lookup_in_range(names@, resource.name@, merged@.len() as int);
        lemma_last_overlap_in_range(merged@, *resource);
    }
    let ghost m0 = MergedResources { resources: merged@, names: names@ };
    match find_name(names, &resource.name) {
        Some(i) => {
            if merged[i].set_index != resource.set_index {
                return Err(
                    GfxError::MismatchedSetIndex {
                        set_index: resource.set_index,
                        binding: resource.binding,
                        existing_set_index: merged[i].set_index,
                    },
                );
            }
            if merged[i].binding != resource.binding {
                return Err(
                    GfxError::MismatchedBinding {
                        set_index: resource.set_index,
                        binding: resource.binding,
                        existing_binding: merged[i].binding,
                    },
                );
            }
            verify_resources_can_overlap(resource, &merged[i])?;
            let stages = merged[i].used_in_shader_stages | resource.used_in_shader_stages;
            merged[i].used_in_shader_stages = stages;
            proof {
                assert(merged@ =~= m0.resources.update(i as int, add_stages(m0.resources[i as int], resource.used_in_shader_stages)));
            }
            Ok(())
        },
        None => {
            match find_last_overlap(merged, resource) {
                Some(i) => {
                    verify_resources_can_overlap(resource, &merged[i])?;
                    let stages = merged[i].used_in_shader_stages | resource.used_in_shader_stages;
                    merged[i].used_in_shader_stages = stages;
                    names.push(NameSlot { name: resource.name.clone(), index: i });
                    proof {
                        assert(merged@ =~= m0.resources.update(i as int, add_stages(m0.resources[i as int], resource.used_in_shader_stages)));
                    }
                    Ok(())
                },
                None => {
                    let index = merged.len();
                    names.push(NameSlot { name: resource.name.clone(), index });
                    merged.push(resource.duplicate());
                    Ok(())
                },
            }
        },
    }
}

/// Merges the resources, pipeline types and push constants of shaders that
/// share a root signature. Resources of the same name must sit at the same
/// place; resources of different names that a common stage binds at the
/// same place alias each other; aliased resources must agree on array size
/// and type; all shaders must be of one pipeline type; push constants must
/// agree on size. Returns the pipeline type, the merged resources and the
/// merged push constant.
pub fn extract_resources(shaders: &Vec<ShaderReflection>) -> (r: Result<(PipelineType, Vec<ShaderResource>, Option<PushConstant>), GfxError>)
    requires
        shaders.len() > 0,
    ensures
        merge_shaders(shaders@) matches Ok(st) ==> (r matches Ok((t, rs, pc)) && Some(t) == st.pipeline_type
            && rs@ == st.merged.resources && pc == st.push_constant),
        merge_shaders(shaders@) matches Err(e) ==> r == Err::<(PipelineType, Vec<ShaderResource>, Option<PushConstant>), GfxError>(e),
{
    let mut merged: Vec<ShaderResource> = Vec::new();
    let mut names: Vec<NameSlot> = Vec::new();
    let mut pipeline_type: Option<PipelineType> = None;
    let mut push_constant: Option<PushConstant> = None;
    let n = shaders.len();
    for i in 0..n
        invariant
            n == shaders.len(),
            merge_shaders(shaders@.take(i as int)) == Ok::<MergeState, GfxError>(
                MergeState { pipeline_type, merged: MergedResources { resources: merged@, names: names@ }, push_constant },
            ),
            names_in_range(MergedResources { resources: merged@, names: names@ }),
            i > 0 ==> pipeline_type is Some,
    {
        let shader = &shaders[i];
        proof {
            assert(shaders@.take(i + 1).drop_last() =~= shaders@.take(i as int));
        }
        let ghost st = MergeState { pipeline_type, merged: MergedResources { resources: merged@, names: names@ }, push_constant };
        let shader_pipeline_type = if (shader.shader_stages & STAGE_COMPUTE) != 0 {
            PipelineType::Compute
        } else {
            PipelineType::Graphics
        };
        match pipeline_type {
            None => {
                pipeline_type = Some(shader_pipeline_type);
            },
            Some(t) => {
                if t != shader_pipeline_type {
                    proof {
                        assert(merge_shaders(shaders@.take(i + 1)) == merge_shader(st, shaders@[i as int]));
                        lemma_merge_shaders_err_stays(shaders@, i as int + 1);
                    }
                    return Err(GfxError::MixedPipelineTypes);
                }
            },
        }
        let m = shader.shader_resources.len();
        for j in 0..m
            invariant
                n == shaders.len(),
                0 <= i < n,
                shader == &shaders@[i as int],
                m == shader.shader_resources.len(),
                merge_resources(st.merged, shader.shader_resources@.take(j as int)) == Ok::<MergedResources, GfxError>(
                    MergedResources { resources: merged@, names: names@ },
                ),
                names_in_range(MergedResources { resources: merged@, names: names@ }),
                merge_shaders(shaders@.take(i as int)) == Ok::<MergeState, GfxError>(st),
                merge_shaders(shaders@.take(i + 1)) == merge_shader(st, shaders@[i as int]),
                pipeline_type == Some(shader_pipeline_type),
                shader_pipeline_type == pipeline_type_of(shader.shader_stages),
                !(st.pipeline_type is Some && st.pipeline_type != Some(shader_pipeline_type)),
        {
            proof {
                assert(shader.shader_resources@.take(j + 1).drop_last() =~= shader.shader_resources@.take(j as int));
            }
            let res = merge_one(&mut merged, &mut names, &shader.shader_resources[j]);
            if let Err(e) = res {
                proof {
                    lemma_merge_resources_err_stays(st.merged, shader.shader_resources@, j as int + 1);
                    assert(shader.shader_resources@.take(m as int) =~= shader.shader_resources@);
                    lemma_merge_shaders_err_stays(shaders@, i as int + 1);
                }
                return Err(e);
            }
        }
        proof {
            assert(shader.shader_resources@.take(m as int) =~= shader.shader_resources@);
        }
        match push_constant {
            None => {
                push_constant = shader.push_constant;
            },
            Some(pc) => {
                if let Some(p) = shader.push_constant {
                    if pc.size != p.size {
                        proof {
                            lemma_merge_shaders_err_stays(shaders@, i as int + 1);
                        }
                        return Err(GfxError::PushConstantMismatch { size: p.size, existing_size: pc.size });
                    }
                    push_constant = Some(
                        PushConstant { used_in_shader_stages: pc.used_in_shader_stages | p.used_in_shader_stages, size: pc.size },
                    );
                }
            },
        }
    }
    proof {
        assert(shaders@.take(n as int) =~= shaders@);
    }
    match pipeline_type {
        Some(t) => Ok((t, merged, push_constant)),
        None => Ok((PipelineType::Graphics, merged, push_constant)),
    }
}

/// Once the merge of a prefix of resources fails, the merge of any longer
/// prefix fails with the same error.
proof fn lemma_merge_resources_err_stays(m: MergedResources, rs: Seq<ShaderResource>, k: int)
    requires
        0 <= k <= rs.len(),
        merge_resources(m, rs.take(k)) is Err,
    ensures
        merge_resources(m, rs) == merge_resources(m, rs.take(k)),
    decreases rs.len() - k,
{
    if k < rs.len() {
        assert(rs.take(k + 1).drop_last() =~= rs.take(k));
        lemma_merge_resources_err_stays(m, rs, k + 1);
    } else {
        assert(rs.take(k) =~= rs);
    }
}

/// Once the merge of a prefix of shaders fails, the merge of any longer
/// prefix fails with the same error.
proof fn lemma_merge_shaders_err_stays(shaders: Seq<ShaderReflection>, k: int)
    requires
        0 <= k <= shaders.len(),
        merge_shaders(shaders.take(k)) is Err,
    ensures
        merge_shaders(shaders) == merge_shaders(shaders.take(k)),
    decreases shaders.len() - k,
{
    if k < shaders.len() {
        assert(shaders.take(k + 1).drop_last() =~= shaders.take(k));
        lemma_merge_shaders_err_stays(shaders, k + 1);
    } else {
        assert(shaders.take(k) =~= shaders);
    }
}

/// `x` can stand for `r` in the root signature: same place, type and array
/// size, and used by at least the stages that use `r`.
pub open spec fn represents(x: ShaderResource, r: ShaderResource) -> bool {
    &&& x.set_index == r.set_index
    &&& x.binding == r.binding
    &&& x.shader_resource_type == r.shader_resource_type
    &&& x.spec_element_count_normalized() == r.spec_element_count_normalized()
    &&& x.used_in_shader_stages & r.used_in_shader_stages == r.used_in_shader_stages
}

/// `r`'s name designates a merged resource that represents it.
pub open spec fn covered(m: MergedResources, r: ShaderResource) -> bool {
    match lookup_name(m.names, r.name@) {
        Some(i) => 0 <= i < m.resources.len() && represents(m.resources[i], r),
        None => false,
    }
}

proof fn lemma_stages_widen(a: u32, b: u32, c: u32)
    ensures
        a & b == b ==> (a | c) & b == b,
        (c | b) & b == b,
{
    assert(a & b == b ==> (a | c) & b == b) by (bit_vector);
    assert((c | b) & b == b) by (bit_vector);
}

proof fn lemma_lookup_push(names: Seq<NameSlot>, slot: NameSlot, n: Seq<char>)
    ensures
        lookup_name(names.push(slot), n) == if slot.name@ == n {
            Some(slot.index as int)
        } else {
            lookup_name(names, n)
        },
{
    assert(names.push(slot).drop_last() =~= names);
}

proof fn lemma_last_overlap_overlaps(rs: Seq<ShaderResource>, r: ShaderResource)
    ensures
        last_overlap(rs, r) matches Some(i) ==> overlaps(rs[i], r),
    decreases rs.len(),
{
    if rs.len() > 0 && !overlaps(rs.last(), r) {
        lemma_last_overlap_overlaps(rs.drop_last(), r);
        lemma_last_overlap_in_range(rs.drop_last(), r);
    }
}

/// One merge step keeps every resource covered, covers the merged resource
/// and keeps the name map in range.
proof fn lemma_merge_resource_covers(m: MergedResources, x: ShaderResource, m2: MergedResources)
    requires
        names_in_range(m),
        m.resources.len() < usize::MAX,
        merge_resource(m, x) == Ok::<MergedResources, GfxError>(m2),
    ensures
        names_in_range(m2),
        m2.resources.len() <= m.resources.len() + 1,
        covered(m2, x),
        forall|r: ShaderResource| covered(m, r) ==> covered(m2, r),
{
    lemma_lookup_in_range(m.names, x.name@, m.resources.len() as int);
    lemma_last_overlap_in_range(m.resources, x);
    lemma_last_overlap_overlaps(m.resources, x);
    match lookup_name(m.names, x.name@) {
        Some(i) => {
            let e = m.resources[i];
            lemma_stages_widen(e.used_in_shader_stages, x.used_in_shader_stages, x.used_in_shader_stages);
            lemma_stages_widen(x.used_in_shader_stages, x.used_in_shader_stages, e.used_in_shader_stages);
            assert(covered(m2, x));
            assert forall|r: ShaderResource| covered(m, r) implies covered(m2, r) by {
                let p = lookup_name(m.names, r.name@).unwrap();
                if p == i {
                    lemma_stages_widen(e.used_in_shader_stages, r.used_in_shader_stages, x.used_in_shader_stages);
                }
            }
        },
        None => {
            match last_overlap(m.resources, x) {
                Some(i) => {
                    let e = m.resources[i];
                    let slot = NameSlot { name: x.name, index: i as usize };
                    lemma_lookup_push(m.names, slot, x.name@);
                    lemma_stages_widen(x.used_in_shader_stages, x.used_in_shader_stages, e.used_in_shader_stages);
                    assert(covered(m2, x));
                    assert forall|r: ShaderResource| covered(m, r) implies covered(m2, r) by {
                        lemma_lookup_push(m.names, slot, r.name@);
                        let p = lookup_name(m.names, r.name@).unwrap();
                        if p == i {
                            lemma_stages_widen(e.used_in_shader_stages, r.used_in_shader_stages, x.used_in_shader_stages);
                        }
                    }
                },
                None => {
                    let slot = NameSlot { name: x.name, index: m.resources.len() as usize };
                    lemma_lookup_push(m.names, slot, x.name@);
                    lemma_stages_widen(x.used_in_shader_stages, x.used_in_shader_stages, x.used_in_shader_stages);
                    assert(x.used_in_shader_stages | x.used_in_shader_stages == x.used_in_shader_stages) by (bit_vector);
                    assert(covered(m2, x));
                    assert forall|r: ShaderResource| covered(m, r) implies covered(m2, r) by {
                        lemma_lookup_push(m.names, slot, r.name@);
                    }
                },
            }
        },
    }
}

/// Merging resources covers each of them and keeps what was covered.
proof fn lemma_merge_resources_covers(m: MergedResources, rs: Seq<ShaderResource>, m2: MergedResources)
    requires
        names_in_range(m),
        m.resources.len() + rs.len() <= usize::MAX,
        merge_resources(m, rs) == Ok::<MergedResources, GfxError>(m2),
    ensures
        names_in_range(m2),
        m2.resources.len() <= m.resources.len() + rs.len(),
        forall|j: int| 0 <= j < rs.len() ==> covered(m2, #[trigger] rs[j]),
        forall|r: ShaderResource| covered(m, r) ==> covered(m2, r),
    decreases rs.len(),
{
    if rs.len() > 0 {
        let m1 = merge_resources(m, rs.drop_last()).unwrap();
        lemma_merge_resources_covers(m, rs.drop_last(), m1);
        lemma_merge_resource_covers(m1, rs.last(), m2);
        assert forall|j: int| 0 <= j < rs.len() implies covered(m2, #[trigger] rs[j]) by {
            if j < rs.len() - 1 {
                assert(rs.drop_last()[j] == rs[j]);
            }
        }
    }
}

/// The number of resources that the shaders declare.
pub open spec fn total_resources(shaders: Seq<ShaderReflection>) -> nat
    decreases shaders.len(),
{
    if shaders.len() == 0 {
        0
    } else {
        total_resources(shaders.drop_last()) + shaders.last().shader_resources@.len()
    }
}

/// What a successful merge guarantees: every shader is of the merged
/// pipeline type, and the name of every resource of every shader designates
/// a merged resource at the same set and binding, of the same type and array
/// size, used by at least the stages that use the resource.
pub proof fn lemma_extract_resources_covers(shaders: Seq<ShaderReflection>)
    requires
        total_resources(shaders) <= usize::MAX,
    ensures
        merge_shaders(shaders) matches Ok(st) ==> st.merged.resources.len() <= total_resources(shaders),
        merge_shaders(shaders) matches Ok(st) ==> {
            &&& names_in_range(st.merged)
            &&& forall|k: int| 0 <= k < shaders.len() ==> st.pipeline_type == Some(
                pipeline_type_of(#[trigger] shaders[k].shader_stages),
            )
            &&& forall|k: int, j: int|
                0 <= k < shaders.len() && 0 <= j < shaders[k].shader_resources@.len() ==> covered(
                    st.merged,
                    #[trigger] shaders[k].shader_resources@[j],
                )
        },
    decreases shaders.len(),
{
    if shaders.len() > 0 {
        lemma_extract_resources_covers(shaders.drop_last());
        if let Ok(st) = merge_shaders(shaders) {
            let st0 = merge_shaders(shaders.drop_last()).unwrap();
            let s = shaders.last();
            let m = merge_resources(st0.merged, s.shader_resources@).unwrap();
            lemma_merge_resources_covers(st0.merged, s.shader_resources@, m);
            assert forall|k: int| 0 <= k < shaders.len() implies st.pipeline_type == Some(
                pipeline_type_of(#[trigger] shaders[k].shader_stages),
            ) by {
                if k < shaders.len() - 1 {
                    assert(shaders.drop_last()[k] == shaders[k]);
                }
            }
            assert forall|k: int, j: int|
                0 <= k < shaders.len() && 0 <= j < shaders[k].shader_resources@.len() implies covered(
                st.merged,
                #[trigger] shaders[k].shader_resources@[j],
            ) by {
                if k < shaders.len() - 1 {
                    assert(shaders.drop_last()[k] == shaders[k]);
                }
            }
        }
    }
}

/// The union of the stages of the resources among `rs` whose name
/// designates merged resource `i`.
pub open spec fn stages_for(rs: Seq<ShaderResource>, names: Seq<NameSlot>, i: int) -> u32
    decreases rs.len(),
{
    if rs.len() == 0 {
        0
    } else {
        stages_for(rs.drop_last(), names, i) | (if lookup_name(names, rs.last().name@) == Some(i) {
            rs.last().used_in_shader_stages
        } else {
            0
        })
    }
}

/// Some declared resource's name designates merged resource `i`.
pub open spec fn designated(m: MergedResources, declared: Seq<ShaderResource>, i: int) -> bool {
    exists|j: int| 0 <= j < declared.len() && #[trigger] lookup_name(m.names, declared[j].name@) == Some(i)
}

/// The merged resources stand for the declared ones exactly: the name of
/// every declared resource designates one merged resource, every merged
/// resource is designated by some declared resource, and its stages are the
/// union of the stages of the resources that designate it.
pub open spec fn merged_exactly(m: MergedResources, declared: Seq<ShaderResource>) -> bool {
    &&& names_in_range(m)
    &&& forall|j: int| 0 <= j < declared.len() ==> (#[trigger] lookup_name(m.names, declared[j].name@)) is Some
    &&& forall|i: int| 0 <= i < m.resources.len() ==> #[trigger] designated(m, declared, i)
    &&& forall|i: int|
        0 <= i < m.resources.len() ==> (#[trigger] m.resources[i]).used_in_shader_stages == stages_for(
            declared,
            m.names,
            i,
        )
}

/// The declared resources all designate the same merged resources under two
/// name maps.
pub open spec fn same_lookups(rs: Seq<ShaderResource>, n1: Seq<NameSlot>, n2: Seq<NameSlot>) -> bool {
    forall|j: int| 0 <= j < rs.len() ==> lookup_name(n1, (#[trigger] rs[j]).name@) == lookup_name(n2, rs[j].name@)
}

proof fn lemma_stages_for_same_lookups(rs: Seq<ShaderResource>, n1: Seq<NameSlot>, n2: Seq<NameSlot>, i: int)
    requires
        same_lookups(rs, n1, n2),
    ensures
        stages_for(rs, n1, i) == stages_for(rs, n2, i),
    decreases rs.len(),
{
    if rs.len() > 0 {
        assert forall|j: int| 0 <= j < rs.drop_last().len() implies lookup_name(n1, (#[trigger] rs.drop_last()[j]).name@)
            == lookup_name(n2, rs.drop_last()[j].name@) by {
            assert(rs.drop_last()[j] == rs[j]);
        }
        lemma_stages_for_same_lookups(rs.drop_last(), n1, n2, i);
        assert(rs.last() == rs[rs.len() - 1]);
    }
}

proof fn lemma_stages_for_untargeted(rs: Seq<ShaderResource>, names: Seq<NameSlot>, i: int)
    requires
        forall|j: int| 0 <= j < rs.len() ==> lookup_name(names, (#[trigger] rs[j]).name@) != Some(i),
    ensures
        stages_for(rs, names, i) == 0,
    decreases rs.len(),
{
    if rs.len() > 0 {
        assert forall|j: int| 0 <= j < rs.drop_last().len() implies lookup_name(names, (#[trigger] rs.drop_last()[j]).name@)
            != Some(i) by {
            assert(rs.drop_last()[j] == rs[j]);
        }
        lemma_stages_for_untargeted(rs.drop_last(), names, i);
        assert(rs.last() == rs[rs.len() - 1]);
        assert(0u32 | 0u32 == 0u32) by (bit_vector);
    }
}

proof fn lemma_or_zero(a: u32)
    ensures
        a | 0 == a,
        0 | a == a,
{
    assert(a | 0 == a) by (bit_vector);
    assert(0 | a == a) by (bit_vector);
}

/// Pushing a slot for a name that no declared resource has keeps their
/// lookups.
proof fn lemma_push_keeps_lookups(rs: Seq<ShaderResource>, names: Seq<NameSlot>, slot: NameSlot)
    requires
        lookup_name(names, slot.name@) is None,
        forall|j: int| 0 <= j < rs.len() ==> (#[trigger] lookup_name(names, rs[j].name@)) is Some,
    ensures
        same_lookups(rs, names, names.push(slot)),
{
    assert forall|j: int| 0 <= j < rs.len() implies lookup_name(names, (#[trigger] rs[j]).name@) == lookup_name(
        names.push(slot),
        rs[j].name@,
    ) by {
        lemma_lookup_push(names, slot, rs[j].name@);
        assert(lookup_name(names, rs[j].name@) is Some);
    }
}

proof fn lemma_designated(m: MergedResources, d: Seq<ShaderResource>, i: int)
    requires
        merged_exactly(m, d),
        0 <= i < m.resources.len(),
    ensures
        exists|j: int| 0 <= j < d.len() && #[trigger] lookup_name(m.names, d[j].name@) == Some(i),
{
    assert(designated(m, d, i));
}

proof fn lemma_merge_resource_exact(m: MergedResources, d: Seq<ShaderResource>, x: ShaderResource, m2: MergedResources)
    requires
        merged_exactly(m, d),
        m.resources.len() < usize::MAX,
        merge_resource(m, x) == Ok::<MergedResources, GfxError>(m2),
    ensures
        merged_exactly(m2, d.push(x)),
        m2.resources.len() <= m.resources.len() + 1,
{
    let d2 = d.push(x);
    lemma_lookup_in_range(m.names, x.name@, m.resources.len() as int);
    lemma_last_overlap_in_range(m.resources, x);
    assert(d2.drop_last() =~= d);
    assert(d2.last() == x);
    assert forall|j: int| 0 <= j < d.len() implies #[trigger] d2[j] == d[j] by {}
    // the lookups of the declared resources under the new name map
    let i0: int = match lookup_name(m.names, x.name@) {
        Some(i) => i,
        None => match last_overlap(m.resources, x) {
            Some(i) => i,
            None => m.resources.len() as int,
        },
    };
    match lookup_name(m.names, x.name@) {
        Some(i) => {
            assert(m2.names == m.names);
            assert(same_lookups(d, m.names, m2.names));
        },
        None => {
            let slot = NameSlot { name: x.name, index: i0 as usize };
            assert(m2.names == m.names.push(slot));
            lemma_push_keeps_lookups(d, m.names, slot);
            lemma_lookup_push(m.names, slot, x.name@);
        },
    }
    assert(lookup_name(m2.names, x.name@) == Some(i0));
    assert(same_lookups(d, m.names, m2.names));
    assert(m2.resources.len() == if i0 == m.resources.len() {
        m.resources.len() + 1
    } else {
        m.resources.len() + 0
    });
    // names in range
    assert forall|k: int| 0 <= k < m2.names.len() implies #[trigger] m2.names[k].index < m2.resources.len() by {
        if k < m.names.len() {
            assert(m2.names[k] == m.names[k]);
        }
    }
    // every declared resource designates something
    assert forall|j: int| 0 <= j < d2.len() implies (#[trigger] lookup_name(m2.names, d2[j].name@)) is Some by {
        if j < d.len() {
            assert(d2[j] == d[j]);
            assert(lookup_name(m2.names, d[j].name@) == lookup_name(m.names, d[j].name@));
        }
    }
    // stages
    assert forall|i: int| 0 <= i < m2.resources.len() implies (#[trigger] m2.resources[i]).used_in_shader_stages
        == stages_for(d2, m2.names, i) by {
        lemma_stages_for_same_lookups(d, m.names, m2.names, i);
        assert(stages_for(d2, m2.names, i) == stages_for(d, m2.names, i) | (if i == i0 {
            x.used_in_shader_stages
        } else {
            0
        }));
        if i == i0 {
            if i0 == m.resources.len() {
                assert forall|j: int| 0 <= j < d.len() implies lookup_name(m.names, (#[trigger] d[j]).name@)
                    != Some(i) by {
                    lemma_lookup_in_range(m.names, d[j].name@, m.resources.len() as int);
                }
                lemma_stages_for_untargeted(d, m.names, i);
                lemma_or_zero(x.used_in_shader_stages);
            }
        } else {
            lemma_or_zero(m.resources[i].used_in_shader_stages);
            lemma_or_zero(stages_for(d, m.names, i));
        }
    }
    // every merged resource is designated
    assert forall|i: int| 0 <= i < m2.resources.len() implies #[trigger] designated(m2, d.push(x), i) by {
        if i == i0 {
            assert(lookup_name(m2.names, d2[d.len() as int].name@) == Some(i));
        } else {
            assert(i < m.resources.len());
            lemma_designated(m, d, i);
            let j = choose|j: int| 0 <= j < d.len() && #[trigger] lookup_name(m.names, d[j].name@) == Some(i);
            assert(d2[j] == d[j]);
            assert(lookup_name(m2.names, d2[j].name@) == Some(i));
        }
    }
}

proof fn lemma_merge_resources_exact(m: MergedResources, d: Seq<ShaderResource>, rs: Seq<ShaderResource>, m2: MergedResources)
    requires
        merged_exactly(m, d),
        m.resources.len() + rs.len() <= usize::MAX,
        merge_resources(m, rs) == Ok::<MergedResources, GfxError>(m2),
    ensures
        merged_exactly(m2, d + rs),
        m2.resources.len() <= m.resources.len() + rs.len(),
    decreases rs.len(),
{
    if rs.len() == 0 {
        assert(d + rs =~= d);
    } else {
        let m1 = merge_resources(m, rs.drop_last()).unwrap();
        lemma_merge_resources_exact(m, d, rs.drop_last(), m1);
        lemma_merge_resource_exact(m1, d + rs.drop_last(), rs.last(), m2);
        assert((d + rs.drop_last()).push(rs.last()) =~= d + rs);
    }
}

/// Every resource the shaders declare, shader after shader.
pub open spec fn all_resources(shaders: Seq<ShaderReflection>) -> Seq<ShaderResource>
    decreases shaders.len(),
{
    if shaders.len() == 0 {
        Seq::empty()
    } else {
        all_resources(shaders.drop_last()) + shaders.last().shader_resources@
    }
}

/// When the shaders merge, each resource they declare is represented exactly
/// once: its name designates one merged resource, every merged resource is
/// designated by some declared resource, and the stages of a merged resource
/// are exactly the union of the stages of the resources that designate it.
pub proof fn lemma_extract_resources_exact(shaders: Seq<ShaderReflection>)
    requires
        total_resources(shaders) <= usize::MAX,
    ensures
        merge_shaders(shaders) matches Ok(st) ==> merged_exactly(st.merged, all_resources(shaders)),
    decreases shaders.len(),
{
    if shaders.len() == 0 {
        let m = empty_merge_state().merged;
        assert(merged_exactly(m, Seq::empty()));
    } else {
        lemma_extract_resources_exact(shaders.drop_last());
        lemma_extract_resources_covers(shaders.drop_last());
        if let Ok(st) = merge_shaders(shaders) {
            let st0 = merge_shaders(shaders.drop_last()).unwrap();
            let s = shaders.last();
            lemma_merge_resources_exact(
                st0.merged,
                all_resources(shaders.drop_last()),
                s.shader_resources@,
                st.merged,
            );
        }
    }
}

/// A successful merge keeps every push constant: if some shader declares
/// one, the merged push constant exists, has that shader's size and is used
/// by at least that shader's stages; and the merged push constant is absent
/// only when no shader declares one, while a merged one has the size some
/// shader declared.
pub proof fn lemma_merged_push_constant(shaders: Seq<ShaderReflection>)
    ensures
        merge_shaders(shaders) matches Ok(st) ==> {
            &&& forall|k: int|
                0 <= k < shaders.len() && (#[trigger] shaders[k]).push_constant is Some ==> (st.push_constant matches Some(
                    q,
                ) && q.size == shaders[k].push_constant.unwrap().size && q.used_in_shader_stages
                    & shaders[k].push_constant.unwrap().used_in_shader_stages
                    == shaders[k].push_constant.unwrap().used_in_shader_stages)
            &&& st.push_constant is None ==> forall|k: int| 0 <= k < shaders.len() ==> (#[trigger] shaders[k]).push_constant is None
            &&& st.push_constant matches Some(q) ==> exists|k: int|
                0 <= k < shaders.len() && ((#[trigger] shaders[k]).push_constant matches Some(p) && p.size == q.size)
        },
    decreases shaders.len(),
{
    if shaders.len() > 0 {
        let init = shaders.drop_last();
        lemma_merged_push_constant(init);
        if let Ok(st) = merge_shaders(shaders) {
            let st0 = merge_shaders(init).unwrap();
            let last = shaders.last();
            let n = shaders.len() - 1;
            assert(shaders[n] == last);
            assert forall|k: int| 0 <= k < init.len() implies #[trigger] init[k] == shaders[k] by {}
            assert forall|k: int|
                0 <= k < shaders.len() && (#[trigger] shaders[k]).push_constant is Some implies (st.push_constant matches Some(
                    q,
                ) && q.size == shaders[k].push_constant.unwrap().size && q.used_in_shader_stages
                    & shaders[k].push_constant.unwrap().used_in_shader_stages
                    == shaders[k].push_constant.unwrap().used_in_shader_stages) by {
                let p = shaders[k].push_constant.unwrap();
                if k < n {
                    assert(init[k] == shaders[k]);
                    let q0 = st0.push_constant.unwrap();
                    match last.push_constant {
                        Some(q) => {
                            lemma_stages_widen(q0.used_in_shader_stages, p.used_in_shader_stages, q.used_in_shader_stages);
                        },
                        None => {},
                    }
                } else {
                    match st0.push_constant {
                        Some(q0) => {
                            lemma_stages_widen(p.used_in_shader_stages, p.used_in_shader_stages, q0.used_in_shader_stages);
                        },
                        None => {
                            assert(p.used_in_shader_stages & p.used_in_shader_stages == p.used_in_shader_stages)
                                by (bit_vector);
                        },
                    }
                }
            }
            if st.push_constant is None {
                assert forall|k: int| 0 <= k < shaders.len() implies (#[trigger] shaders[k]).push_constant is None by {
                    if k < n {
                        assert(init[k] == shaders[k]);
                    }
                }
            }
            if let Some(q) = st.push_constant {
                match last.push_constant {
                    Some(p) => {
                        assert(shaders[n].push_constant matches Some(p2) && p2.size == q.size);
                    },
                    None => {
                        let k = choose|k: int|
                            0 <= k < init.len() && ((#[trigger] init[k]).push_constant matches Some(p) && p.size == q.size);
                        assert(shaders[k] == init[k]);
                    },
                }
            }
        }
    }
}

/// A descriptor of a descriptor set layout.
#[derive(Debug)]
pub struct DescriptorDef {
    pub name: String,
    pub binding: u32,
    pub shader_resource_type: ShaderResourceType,
    pub array_size: u32,
}

/// A push constant of a root signature; its size is never zero.
#[derive(Debug, Clone, Copy, PartialEq, Eq, Structural)]
pub struct PushConstantDef {
    pub used_in_shader_stages: u32,
    pub size: u32,
}

/// The layout of a root signature: its pipeline type, the descriptors of
/// each of its descriptor sets (none for a set no resource uses) and its
/// push constant.
#[derive(Debug)]
pub struct RootSignatureLayout {
    pub pipeline_type: PipelineType,
    pub descriptor_set_layouts: Vec<Option<Vec<DescriptorDef>>>,
    pub push_constant_def: Option<PushConstantDef>,
}

/// The descriptor that stands for a resource.
pub open spec fn descriptor_of(r: ShaderResource) -> DescriptorDef {
    DescriptorDef {
        name: r.name,
        binding: r.binding,
        shader_resource_type: r.shader_resource_type,
        array_size: r.element_count,
    }
}

/// Inserts `x` after the last descriptor whose binding is at most its own.
pub open spec fn insert_by_binding(s: Seq<DescriptorDef>, x: DescriptorDef) -> Seq<DescriptorDef>
    decreases s.len(),
{
    if s.len() == 0 {
        seq![x]
    } else if s.last().binding <= x.binding {
        s.push(x)
    } else {
        insert_by_binding(s.drop_last(), x).push(s.last())
    }
}

/// Sorts descriptors by binding, keeping the order of equal bindings.
pub open spec fn sort_by_binding(s: Seq<DescriptorDef>) -> Seq<DescriptorDef>
    decreases s.len(),
{
    if s.len() == 0 {
        Seq::empty()
    } else {
        insert_by_binding(sort_by_binding(s.drop_last()), s.last())
    }
}

/// The descriptors of the resources of one set, in the resources' order.
pub open spec fn set_descriptors(rs: Seq<ShaderResource>, set_index: int) -> Seq<DescriptorDef>
    decreases rs.len(),
{
    if rs.len() == 0 {
        Seq::empty()
    } else if rs.last().set_index == set_index {
        set_descriptors(rs.drop_last(), set_index).push(descriptor_of(rs.last()))
    } else {
        set_descriptors(rs.drop_last(), set_index)
    }
}

/// The layout of one descriptor set: the descriptors of its resources by
/// binding, or none when no resource uses it.
pub open spec fn set_layout(rs: Seq<ShaderResource>, set_index: int) -> Option<Seq<DescriptorDef>> {
    if set_descriptors(rs, set_index).len() == 0 {
        None
    } else {
        Some(sort_by_binding(set_descriptors(rs, set_index)))
    }
}

pub open spec fn sorted_by_binding(s: Seq<DescriptorDef>) -> bool {
    forall|i: int, j: int| 0 <= i < j < s.len() ==> #[trigger] s[i].binding <= #[trigger] s[j].binding
}

proof fn lemma_insert_by_binding(s: Seq<DescriptorDef>, x: DescriptorDef, j: int)
    requires
        0 <= j <= s.len(),
        forall|k: int| j <= k < s.len() ==> #[trigger] s[k].binding > x.binding,
        j == 0 || s[j - 1].binding <= x.binding,
    ensures
        insert_by_binding(s, x) =~= s.take(j) + seq![x] + s.skip(j),
    decreases s.len(),
{
    if s.len() == 0 {
    } else if s.last().binding <= x.binding {
        assert(j == s.len());
    } else {
        lemma_insert_by_binding(s.drop_last(), x, j);
        assert(s.drop_last().take(j) =~= s.take(j));
        assert(s.skip(j) =~= s.drop_last().skip(j).push(s.last()));
    }
}

proof fn lemma_insert_by_binding_sorted(s: Seq<DescriptorDef>, x: DescriptorDef)
    requires
        sorted_by_binding(s),
    ensures
        sorted_by_binding(insert_by_binding(s, x)),
        insert_by_binding(s, x).to_multiset() =~= s.to_multiset().insert(x),
    decreases s.len(),
{
    s.to_multiset_ensures();
    if s.len() == 0 {
        assert(seq![x] =~= Seq::<DescriptorDef>::empty().push(x));
        Seq::<DescriptorDef>::empty().to_multiset_ensures();
    } else if s.last().binding <= x.binding {
    } else {
        let t = s.drop_last();
        lemma_insert_by_binding_sorted(t, x);
        let u = insert_by_binding(t, x);
        u.to_multiset_ensures();
        t.to_multiset_ensures();
        assert(s =~= t.push(s.last()));
        // every element of u is bounded by s.last()
        assert forall|k: int| 0 <= k < u.len() implies #[trigger] u[k].binding <= s.last().binding by {
            assert(u.to_multiset().count(u[k]) > 0);
            assert(u.contains(u[k]));
            if u[k] != x {
                assert(t.to_multiset().count(u[k]) > 0);
                assert(t.contains(u[k]));
                let p = choose|p: int| 0 <= p < t.len() && t[p] == u[k];
                assert(s[p] == t[p]);
            }
        }
        let v = u.push(s.last());
        assert forall|i: int, j: int| 0 <= i < j < v.len() implies #[trigger] v[i].binding
            <= #[trigger] v[j].binding by {
            if j < u.len() {
                assert(v[i] == u[i] && v[j] == u[j]);
            }
        }
    }
}

/// Sorting by binding yields descriptors in non-decreasing binding order,
/// and the same descriptors.
pub proof fn lemma_sort_by_binding(s: Seq<DescriptorDef>)
    ensures
        sorted_by_binding(sort_by_binding(s)),
        sort_by_binding(s).to_multiset() =~= s.to_multiset(),
    decreases s.len(),
{
    s.to_multiset_ensures();
    if s.len() > 0 {
        lemma_sort_by_binding(s.drop_last());
        lemma_insert_by_binding_sorted(sort_by_binding(s.drop_last()), s.last());
        s.drop_last().to_multiset_ensures();
        assert(s =~= s.drop_last().push(s.last()));
    }
}

fn descriptor_for(r: &ShaderResource) -> (d: DescriptorDef)
    ensures
        d == descriptor_of(*r),
{
    DescriptorDef {
        name: r.name.clone(),
        binding: r.binding,
        shader_resource_type: r.shader_resource_type,
        array_size: r.element_count,
    }
}

/// The layout of descriptor set `set_index`: the descriptors of the
/// resources of that set, sorted by binding with ties in their order, or
/// none when the set has no resource.
pub fn descriptor_set_layout_defs(resources: &Vec<ShaderResource>, set_index: u32) -> (r: Option<Vec<DescriptorDef>>)
    ensures
        r matches Some(v) ==> set_layout(resources@, set_index as int) == Some(v@),
        r is None ==> set_layout(resources@, set_index as int) is None,
{
    let mut defs: Vec<DescriptorDef> = Vec::new();
    let n = resources.len();
    for i in 0..n
        invariant
            n == resources.len(),
            defs@ == sort_by_binding(set_descriptors(resources@.take(i as int), set_index as int)),
            sorted_by_binding(defs@),
    {
        proof {
            assert(resources@.take(i + 1).drop_last() =~= resources@.take(i as int));
            lemma_sort_by_binding(set_descriptors(resources@.take(i as int), set_index as int));
        }
        let res = &resources[i];
        let ghost sd = set_descriptors(resources@.take(i as int), set_index as int);
        proof {
            assert(resources@.take(i + 1).last() == resources@[i as int]);
        }
        if res.set_index == set_index {
            let d = descriptor_for(res);
            proof {
                assert(set_descriptors(resources@.take(i + 1), set_index as int) == sd.push(d));
                assert(sd.push(d).drop_last() =~= sd);
            }
            let ghost before = defs@;
            let mut j = defs.len();
            while j > 0 && defs[j - 1].binding > d.binding
                invariant
                    j <= defs.len(),
                    defs@ == before,
                    forall|k: int| j <= k < defs@.len() ==> #[trigger] defs@[k].binding > d.binding,
                decreases j,
            {
                j = j - 1;
            }
            proof {
                lemma_insert_by_binding(before, d, j as int);
                lemma_insert_by_binding_sorted(before, d);
                assert(before.insert(j as int, d) =~= before.take(j as int) + seq![d] + before.skip(j as int));
            }
            defs.insert(j, d);
        }
    }
    proof {
        assert(resources@.take(n as int) =~= resources@);
    }
    if defs.len() == 0 {
        proof {
            lemma_sort_by_binding(set_descriptors(resources@, set_index as int));
            set_descriptors(resources@, set_index as int).to_multiset_ensures();
            sort_by_binding(set_descriptors(resources@, set_index as int)).to_multiset_ensures();
        }
        None
    } else {
        proof {
            if set_descriptors(resources@, set_index as int).len() == 0 {
                assert(set_descriptors(resources@, set_index as int) =~= Seq::<DescriptorDef>::empty());
            }
        }
        Some(defs)
    }
}

/// Builds the layout of the root signature shared by `shaders`: the merged
/// pipeline type, one descriptor set layout per set index and the merged push
/// constant.
pub fn tmp_extract_root_signature_def(shaders: &Vec<ShaderReflection>) -> (r: Result<RootSignatureLayout, GfxError>)
    requires
        shaders.len() > 0,
        merge_shaders(shaders@) matches Ok(st) ==> (st.push_constant matches Some(pc) ==> pc.size != 0),
    ensures
        merge_shaders(shaders@) matches Ok(st) ==> (r matches Ok(layout) && {
            &&& Some(layout.pipeline_type) == st.pipeline_type
            &&& layout.descriptor_set_layouts@.len() == MAX_DESCRIPTOR_SET_LAYOUTS
            &&& forall|k: int| 0 <= k < MAX_DESCRIPTOR_SET_LAYOUTS ==> match #[trigger] layout.descriptor_set_layouts@[k] {
                Some(v) => set_layout(st.merged.resources, k) == Some(v@),
                None => set_layout(st.merged.resources, k) is None,
            }
            &&& layout.push_constant_def == match st.push_constant {
                Some(pc) => Some(PushConstantDef { used_in_shader_stages: pc.used_in_shader_stages, size: pc.size }),
                None => None::<PushConstantDef>,
            }
        }),
        merge_shaders(shaders@) matches Err(e) ==> r == Err::<RootSignatureLayout, GfxError>(e),
{
    let (pipeline_type, shader_resources, push_constant) = extract_resources(shaders)?;
    let mut layouts: Vec<Option<Vec<DescriptorDef>>> = Vec::new();
    let mut set_index: usize = 0;
    while set_index < MAX_DESCRIPTOR_SET_LAYOUTS
        invariant
            set_index <= MAX_DESCRIPTOR_SET_LAYOUTS,
            layouts@.len() == set_index,
            forall|k: int| 0 <= k < set_index ==> match #[trigger] layouts@[k] {
                Some(v) => set_layout(shader_resources@, k) == Some(v@),
                None => set_layout(shader_resources@, k) is None,
            },
        decreases MAX_DESCRIPTOR_SET_LAYOUTS - set_index,
    {
        let layout = descriptor_set_layout_defs(&shader_resources, set_index as u32);
        layouts.push(layout);
        set_index = set_index + 1;
    }
    let push_constant_def = match push_constant {
        Some(pc) => Some(PushConstantDef { used_in_shader_stages: pc.used_in_shader_stages, size: pc.size }),
        None => None,
    };
    Ok(RootSignatureLayout { pipeline_type, descriptor_set_layouts: layouts, push_constant_def })
}

} // verus!
