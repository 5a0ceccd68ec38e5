//! The fixed-function state of the mesh renderer's pipelines: the depth-only
//! pass, the shaded pass and the picking pass.

use vstd::prelude::*;

verus! {

/// Comparison of a fragment's value against the stored one.
#[derive(Clone, Copy, Debug, PartialEq, Eq, Structural)]
pub enum CompareOp {
    Never,
    Less,
    Equal,
    LessOrEqual,
    Greater,
    NotEqual,
    GreaterOrEqual,
    Always,
}

impl CompareOp {
    /// The comparison a state starts with.
    pub fn default_op() -> (r: Self)
        ensures
            r == CompareOp::Never,
    {
        CompareOp::Never
    }
}

/// What a stencil test does to the stored value.
#[derive(Clone, Copy, Debug, PartialEq, Eq, Structural)]
pub enum StencilOp {
    Keep,
    Zero,
    Replace,
    IncrementAndClamp,
    DecrementAndClamp,
    Invert,
    IncrementAndWrap,
    DecrementAndWrap,
}

impl StencilOp {
    /// The operation a state starts with.
    pub fn default_op() -> (r: Self)
        ensures
            r == StencilOp::Keep,
    {
        StencilOp::Keep
    }
}

/// Depth and stencil testing.
#[derive(Clone, Copy, Debug, PartialEq, Eq, Structural)]
pub struct DepthState {
    pub depth_test_enable: bool,
    pub depth_write_enable: bool,
    pub depth_compare_op: CompareOp,
    pub stencil_test_enable: bool,
    pub stencil_read_mask: u8,
    pub stencil_write_mask: u8,
    pub front_depth_fail_op: StencilOp,
    pub front_stencil_compare_op: CompareOp,
    pub front_stencil_fail_op: StencilOp,
    pub front_stencil_pass_op: StencilOp,
    pub back_depth_fail_op: StencilOp,
    pub back_stencil_compare_op: CompareOp,
    pub back_stencil_fail_op: StencilOp,
    pub back_stencil_pass_op: StencilOp,
}

/// Which faces are culled.
#[derive(Clone, Copy, Debug, PartialEq, Eq, Structural)]
pub enum CullMode {
    Disabled,
    Back,
    Front,
}

/// Formats of the attributes and attachments the pipelines use.
#[derive(Clone, Copy, Debug, PartialEq, Eq, Structural)]
pub enum Format {
    R32Uint,
    D32Sfloat,
    R16G16B16A16Sfloat,
    /// One 8-bit unsigned normalized channel.
    R8Unorm,
    /// Three 8-bit planes, the chroma ones at half width and half height.
    G8B8R8ThreePlane420Unorm,
}

/// Whether a vertex buffer advances per vertex or per instance.
#[derive(Clone, Copy, Debug, PartialEq, Eq, Structural)]
pub enum VertexAttributeRate {
    Vertex,
    Instance,
}

#[derive(Clone, Copy, Debug, PartialEq, Eq, Structural)]
pub struct VertexLayoutAttribute {
    pub format: Format,
    pub buffer_index: u32,
    pub location: u32,
    pub byte_offset: u32,
}

#[derive(Clone, Copy, Debug, PartialEq, Eq, Structural)]
pub struct VertexLayoutBuffer {
    pub stride: u32,
    pub rate: VertexAttributeRate,
}

/// The shader a pipeline runs.
#[derive(Clone, Copy, Debug, PartialEq, Eq, Structural)]
pub enum PipelineShader {
    Depth,
    Default,
    Picking,
}

/// The root signature a pipeline is laid out with: that of its shader's
/// pipeline layout.
#[derive(Clone, Copy, Debug, PartialEq, Eq, Structural)]
pub enum PipelineLayout {
    Depth,
    Shader,
    Picking,
}

/// How a pipeline blends its output into the color targets.
#[derive(Clone, Copy, Debug, PartialEq, Eq, Structural)]
pub enum BlendState {
    /// The default blend state, with alpha blending off.
    DefaultAlphaDisabled,
}

/// How vertices are assembled into primitives.
#[derive(Clone, Copy, Debug, PartialEq, Eq, Structural)]
pub enum PrimitiveTopology {
    TriangleList,
}

/// The description of one of the mesh renderer's graphics pipelines.
#[derive(Clone, Debug)]
pub struct PipelineDesc {
    pub shader: PipelineShader,
    pub root_signature: PipelineLayout,
    pub blend_state: BlendState,
    pub sample_count: u32,
    pub primitive_topology: PrimitiveTopology,
    pub vertex_attribute: VertexLayoutAttribute,
    pub vertex_buffer: VertexLayoutBuffer,
    pub depth_state: DepthState,
    pub cull_mode: CullMode,
    pub color_formats: Vec<Format>,
    pub depth_stencil_format: Option<Format>,
}

/// The vertex input of every pipeline: one 32-bit instance index per
/// instance.
pub open spec fn instance_index_attribute(a: VertexLayoutAttribute, b: VertexLayoutBuffer) -> bool {
    &&& a == VertexLayoutAttribute { format: Format::R32Uint, buffer_index: 0, location: 0, byte_offset: 0 }
    &&& b == VertexLayoutBuffer { stride: 4, rate: VertexAttributeRate::Instance }
}

/// What every pipeline of the mesh renderer shares: alpha blending off, one
/// sample per pixel, triangle lists.
pub open spec fn common_raster_state(d: PipelineDesc) -> bool {
    &&& d.blend_state == BlendState::DefaultAlphaDisabled
    &&& d.sample_count == 1
    &&& d.primitive_topology == PrimitiveTopology::TriangleList
}

/// Stencil off, full masks, always-pass comparisons and default operations.
pub open spec fn stencil_unused(d: DepthState) -> bool {
    &&& !d.stencil_test_enable
    &&& d.stencil_read_mask == 0xff
    &&& d.stencil_write_mask == 0xff
    &&& d.front_depth_fail_op == StencilOp::Keep
    &&& d.front_stencil_compare_op == CompareOp::Always
    &&& d.front_stencil_fail_op == StencilOp::Keep
    &&& d.front_stencil_pass_op == StencilOp::Keep
    &&& d.back_depth_fail_op == StencilOp::Keep
    &&& d.back_stencil_compare_op == CompareOp::Always
    &&& d.back_stencil_fail_op == StencilOp::Keep
    &&& d.back_stencil_pass_op == StencilOp::Keep
}

fn depth_state(test: bool, write: bool, compare: CompareOp) -> (r: DepthState)
    ensures
        r.depth_test_enable == test,
        r.depth_write_enable == write,
        r.depth_compare_op == compare,
        stencil_unused(r),
{
    DepthState {
        depth_test_enable: test,
        depth_write_enable: write,
        depth_compare_op: compare,
        stencil_test_enable: false,
        stencil_read_mask: 0xff,
        stencil_write_mask: 0xff,
        front_depth_fail_op: StencilOp::default_op(),
        front_stencil_compare_op: CompareOp::Always,
        front_stencil_fail_op: StencilOp::default_op(),
        front_stencil_pass_op: StencilOp::default_op(),
        back_depth_fail_op: StencilOp::default_op(),
        back_stencil_compare_op: CompareOp::Always,
        back_stencil_fail_op: StencilOp::default_op(),
        back_stencil_pass_op: StencilOp::default_op(),
    }
}

fn instance_index_input() -> (r: (VertexLayoutAttribute, VertexLayoutBuffer))
    ensures
        instance_index_attribute(r.0, r.1),
{
    (
        VertexLayoutAttribute { format: Format::R32Uint, buffer_index: 0, location: 0, byte_offset: 0 },
        VertexLayoutBuffer { stride: 4, rate: VertexAttributeRate::Instance },
    )
}

/// The depth-only pass: depth tested and written, nearer-or-equal wins,
/// back faces culled, no color target.
pub fn build_depth_pso() -> (r: PipelineDesc)
    ensures
        r.shader == PipelineShader::Depth,
        r.root_signature == PipelineLayout::Depth,
        common_raster_state(r),
        instance_index_attribute(r.vertex_attribute, r.vertex_buffer),
        r.depth_state.depth_test_enable,
        r.depth_state.depth_write_enable,
        r.depth_state.depth_compare_op == CompareOp::GreaterOrEqual,
        stencil_unused(r.depth_state),
        r.cull_mode == CullMode::Back,
        r.color_formats@ == Seq::<Format>::empty(),
        r.depth_stencil_format == Some(Format::D32Sfloat),
{
    let (vertex_attribute, vertex_buffer) = instance_index_input();
    PipelineDesc {
        shader: PipelineShader::Depth,
        root_signature: PipelineLayout::Depth,
        blend_state: BlendState::DefaultAlphaDisabled,
        sample_count: 1,
        primitive_topology: PrimitiveTopology::TriangleList,
        vertex_attribute,
        vertex_buffer,
        depth_state: depth_state(true, true, CompareOp::GreaterOrEqual),
        cull_mode: CullMode::Back,
        color_formats: Vec::new(),
        depth_stencil_format: Some(Format::D32Sfloat),
    }
}

/// The shaded pass. Where depth is not written by an earlier pass it writes
/// it and keeps nearer-or-equal fragments; otherwise it keeps only the
/// fragments the depth pass left, by equality. Back faces culled, one
/// half-float color target.
pub fn build_temp_pso(need_depth_write: bool) -> (r: PipelineDesc)
    ensures
        r.shader == PipelineShader::Default,
        r.root_signature == PipelineLayout::Shader,
        common_raster_state(r),
        instance_index_attribute(r.vertex_attribute, r.vertex_buffer),
        r.depth_state.depth_test_enable,
        r.depth_state.depth_write_enable == need_depth_write,
        r.depth_state.depth_compare_op == if need_depth_write {
            CompareOp::GreaterOrEqual
        } else {
            CompareOp::Equal
        },
        stencil_unused(r.depth_state),
        r.cull_mode == CullMode::Back,
        r.color_formats@ == seq![Format::R16G16B16A16Sfloat],
        r.depth_stencil_format == Some(Format::D32Sfloat),
{
    let (vertex_attribute, vertex_buffer) = instance_index_input();
    let compare = if need_depth_write {
        CompareOp::GreaterOrEqual
    } else {
        CompareOp::Equal
    };
    let mut color_formats = Vec::new();
    color_formats.push(Format::R16G16B16A16Sfloat);
    PipelineDesc {
        shader: PipelineShader::Default,
        root_signature: PipelineLayout::Shader,
        blend_state: BlendState::DefaultAlphaDisabled,
        sample_count: 1,
        primitive_topology: PrimitiveTopology::TriangleList,
        vertex_attribute,
        vertex_buffer,
        depth_state: depth_state(true, need_depth_write, compare),
        cull_mode: CullMode::Back,
        color_formats,
        depth_stencil_format: Some(Format::D32Sfloat),
    }
}

/// The picking pass: no depth test or write, no culling, one half-float
/// color target and no depth attachment.
pub fn build_picking_pso() -> (r: PipelineDesc)
    ensures
        r.shader == PipelineShader::Picking,
        r.root_signature == PipelineLayout::Picking,
        common_raster_state(r),
        instance_index_attribute(r.vertex_attribute, r.vertex_buffer),
        !r.depth_state.depth_test_enable,
        !r.depth_state.depth_write_enable,
        r.depth_state.depth_compare_op == CompareOp::Never,
        stencil_unused(r.depth_state),
        r.cull_mode == CullMode::Disabled,
        r.color_formats@ == seq![Format::R16G16B16A16Sfloat],
        r.depth_stencil_format is None,
{
    let (vertex_attribute, vertex_buffer) = instance_index_input();
    let mut color_formats = Vec::new();
    color_formats.push(Format::R16G16B16A16Sfloat);
    PipelineDesc {
        shader: PipelineShader::Picking,
        root_signature: PipelineLayout::Picking,
        blend_state: BlendState::DefaultAlphaDisabled,
        sample_count: 1,
        primitive_topology: PrimitiveTopology::TriangleList,
        vertex_attribute,
        vertex_buffer,
        depth_state: depth_state(false, false, CompareOp::default_op()),
        cull_mode: CullMode::Disabled,
        color_formats,
        depth_stencil_format: None,
    }
}

/// The pipelines of the depth, opaque and picking layers, in that order. The
/// opaque pass writes depth itself when the opaque layer does no GPU culling.
pub fn initialize_psos(opaque_gpu_culling: bool) -> (r: (PipelineDesc, PipelineDesc, PipelineDesc))
    ensures
        r.0.shader == PipelineShader::Depth,
        r.1.shader == PipelineShader::Default,
        r.1.depth_state.depth_write_enable == !opaque_gpu_culling,
        r.2.shader == PipelineShader::Picking,
{
    let need_depth_write = !opaque_gpu_culling;
    (build_depth_pso(), build_temp_pso(need_depth_write), build_picking_pso())
}

} // verus!
