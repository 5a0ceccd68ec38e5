//! Layout of the planar YUV 4:2:0 frames the streamer sends: plane sizes,
//! the compute dispatch that fills them, and the copy of the mapped planes
//! into one tightly packed buffer.

use vstd::prelude::*;
use crate::buffer_view::GPUViewType;
use crate::pipeline_states::Format;
use crate::shader_resources::{
    descriptor_of, set_descriptors, DescriptorDef, PushConstantDef, ShaderResource, MAX_DESCRIPTOR_SET_LAYOUTS,
};

verus! {

/// A frame size in pixels.
#[derive(Clone, Copy, Debug, PartialEq, Eq, Structural)]
pub struct Resolution {
    pub width: u32,
    pub height: u32,
}

/// One plane of a texture mapped for reading: its bytes, and the distance in
/// bytes from the start of one row to the start of the next.
pub struct MappedPlane {
    pub data: Vec<u8>,
    pub row_pitch: u32,
}

/// Width and height of the luma plane, then of each chroma plane, which has
/// half the width and half the height (rounded down).
pub fn plane_extents(resolution: Resolution) -> (r: ((u32, u32), (u32, u32)))
    ensures
        r.0 == (resolution.width, resolution.height),
        r.1 == (resolution.width / 2, resolution.height / 2),
{
    ((resolution.width, resolution.height), (resolution.width / 2, resolution.height / 2))
}

/// Thread groups of the conversion shader, which handles 8 by 8 pixels per
/// group: enough groups to cover the frame, and one deep.
pub fn dispatch_size(resolution: Resolution) -> (r: (u32, u32, u32))
    requires
        resolution.width + 7 <= u32::MAX,
        resolution.height + 7 <= u32::MAX,
    ensures
        r.0 == (resolution.width + 7) / 8,
        r.1 == (resolution.height + 7) / 8,
        r.2 == 1,
{
    ((resolution.width + 7) / 8, (resolution.height + 7) / 8, 1)
}

/// Whether the resources sized for `current` must be made again for
/// `requested`.
pub fn needs_resize(current: Resolution, requested: Resolution) -> (r: bool)
    ensures
        r == (current != requested),
{
    current.width != requested.width || current.height != requested.height
}

/// Bytes of a packed 4:2:0 frame of `width` by `height`: the luma plane, then
/// two chroma planes of half the width and half the height.
pub open spec fn yuv_len(width: int, height: int) -> int {
    width * height + 2 * ((width / 2) * (height / 2))
}

/// Whether every row of a `width` by `height` plane lies inside the mapped
/// data.
pub open spec fn plane_fits(plane: &MappedPlane, width: int, height: int) -> bool {
    height == 0 || (height - 1) * plane.row_pitch + width <= plane.data@.len()
}

/// Whether `buf` holds, from `start`, the rows of a `width` by `height` plane
/// one after another with no padding.
pub open spec fn plane_copied(buf: Seq<u8>, start: int, plane: &MappedPlane, width: int, height: int) -> bool {
    forall|r: int, c: int|
        0 <= r < height && 0 <= c < width ==> #[trigger] buf[start + r * width + c] == plane.data@[r
            * plane.row_pitch + c]
}

proof fn lemma_cell_in_block(r: int, c: int, w: int, h: int)
    requires
        0 <= r < h,
        0 <= c < w,
    ensures
        0 <= r * w + c < w * h,
        r * w + c < (r + 1) * w,
        r * w <= r * w + c,
{
    assert(0 <= r * w + c < w * h) by (nonlinear_arith)
        requires
            0 <= r < h,
            0 <= c < w,
    ;
    assert((r + 1) * w == r * w + w) by (nonlinear_arith);
}

proof fn lemma_row_in_plane(r: int, c: int, w: int, h: int, pitch: int, len: int)
    requires
        0 <= r < h,
        0 <= c < w,
        0 <= pitch,
        (h - 1) * pitch + w <= len,
    ensures
        0 <= r * pitch + c < len,
{
    assert(r * pitch <= (h - 1) * pitch) by (nonlinear_arith)
        requires
            0 <= r <= h - 1,
            0 <= pitch,
    ;
    assert(0 <= r * pitch) by (nonlinear_arith)
        requires
            0 <= r,
            0 <= pitch,
    ;
}

/// Copies the rows of `plane` into `yuv` from `start`, without padding.
fn copy_plane(yuv: &mut [u8], start: usize, plane: &MappedPlane, width: usize, height: usize)
    requires
        start + width * height <= old(yuv)@.len(),
        plane_fits(plane, width as int, height as int),
    ensures
        final(yuv)@.len() == old(yuv)@.len(),
        forall|i: int|
            0 <= i < old(yuv)@.len() && !(start <= i < start + width * height) ==> #[trigger] final(yuv)@[i]
                == old(yuv)@[i],
        plane_copied(final(yuv)@, start as int, plane, width as int, height as int),
{
    let pitch = plane.row_pitch as usize;
    let buf_len = yuv.len();
    let data_len = plane.data.len();
    let mut r: usize = 0;
    while r < height
        invariant
            r <= height,
            buf_len == old(yuv)@.len(),
            data_len == plane.data@.len(),
            pitch == plane.row_pitch,
            start + width * height <= old(yuv)@.len(),
            plane_fits(plane, width as int, height as int),
            yuv@.len() == old(yuv)@.len(),
            forall|i: int|
                0 <= i < old(yuv)@.len() && !(start <= i < start + width * height) ==> #[trigger] yuv@[i]
                    == old(yuv)@[i],
            forall|rr: int, c: int|
                0 <= rr < r && 0 <= c < width ==> #[trigger] yuv@[start + rr * width + c] == plane.data@[rr
                    * pitch + c],
        decreases height - r,
    {
        proof {
            assert((r as int) * (width as int) + (width as int) <= (width as int) * (height as int)) by (nonlinear_arith)
                requires
                    r < height,
            ;
            if width > 0 {
                lemma_row_in_plane(
                    r as int,
                    width - 1,
                    width as int,
                    height as int,
                    pitch as int,
                    plane.data@.len() as int,
                );
            }
            assert(r * pitch <= plane.data@.len()) by (nonlinear_arith)
                requires
                    r < height,
                    (height - 1) * pitch + width <= plane.data@.len(),
            ;
        }
        let dst = start + r * width;
        let src = r * pitch;
        let mut c: usize = 0;
        while c < width
            invariant
                c <= width,
                r < height,
                buf_len == old(yuv)@.len(),
                data_len == plane.data@.len(),
                pitch == plane.row_pitch,
                dst == start + r * width,
                src == r * pitch,
                dst + width <= start + width * height,
                start + width * height <= old(yuv)@.len(),
                src + width <= plane.data@.len(),
                yuv@.len() == old(yuv)@.len(),
                forall|i: int|
                    0 <= i < old(yuv)@.len() && !(start <= i < start + width * height) ==> #[trigger] yuv@[i]
                        == old(yuv)@[i],
                forall|rr: int, cc: int|
                    0 <= rr < r && 0 <= cc < width ==> #[trigger] yuv@[start + rr * width + cc]
                        == plane.data@[rr * pitch + cc],
                forall|cc: int| 0 <= cc < c ==> #[trigger] yuv@[dst + cc] == plane.data@[src + cc],
            decreases width - c,
        {
            let ghost before = yuv@;
            yuv[dst + c] = plane.data[src + c];
            proof {
                assert forall|rr: int, cc: int| 0 <= rr < r && 0 <= cc < width implies #[trigger] yuv@[start + rr
                    * width + cc] == plane.data@[rr * pitch + cc] by {
                    lemma_cell_in_block(rr, cc, width as int, r as int);
                    assert(rr * width + cc < r * width) by (nonlinear_arith)
                        requires
                            0 <= rr < r,
                            0 <= cc < width,
                    ;
                    assert(before[start + rr * width + cc] == plane.data@[rr * pitch + cc]);
                }
            }
            c = c + 1;
        }
        proof {
            assert forall|rr: int, cc: int| 0 <= rr < r + 1 && 0 <= cc < width implies #[trigger] yuv@[start + rr
                * width + cc] == plane.data@[rr * pitch + cc] by {
                if rr == r {
                    assert(yuv@[dst + cc] == plane.data@[src + cc]);
                }
            }
        }
        r = r + 1;
    }
}

/// Copies the three mapped planes of a 4:2:0 frame of `width` by `height`
/// into `yuv`, packed: the luma plane's rows, then those of the first chroma
/// plane, then those of the second, each chroma plane having half the width
/// and half the height. `yuv` must be exactly that long, and each row of each
/// plane must lie inside its mapped data.
pub fn copy_yuv_planes(
    yuv: &mut [u8],
    luma: &MappedPlane,
    chroma_u: &MappedPlane,
    chroma_v: &MappedPlane,
    width: usize,
    height: usize,
)
    requires
        old(yuv)@.len() == yuv_len(width as int, height as int),
        plane_fits(luma, width as int, height as int),
        plane_fits(chroma_u, width as int / 2, height as int / 2),
        plane_fits(chroma_v, width as int / 2, height as int / 2),
    ensures
        final(yuv)@.len() == old(yuv)@.len(),
        plane_copied(final(yuv)@, 0, luma, width as int, height as int),
        plane_copied(final(yuv)@, width * height, chroma_u, width as int / 2, height as int / 2),
        plane_copied(
            final(yuv)@,
            width * height + (width / 2) * (height / 2),
            chroma_v,
            width as int / 2,
            height as int / 2,
        ),
{
    let buf_len = yuv.len();
    proof {
        assert(0 <= width * height) by (nonlinear_arith);
        assert(0 <= (width / 2) * (height / 2)) by (nonlinear_arith);
    }
    let luma_len = width * height;
    let cw = width / 2;
    let ch = height / 2;
    let chroma_len = cw * ch;
    copy_plane(yuv, 0, luma, width, height);
    let ghost after_luma = yuv@;
    copy_plane(yuv, luma_len, chroma_u, cw, ch);
    let ghost after_u = yuv@;
    copy_plane(yuv, luma_len + chroma_len, chroma_v, cw, ch);
    proof {
        let f = yuv@;
        assert forall|r: int, c: int| 0 <= r < height && 0 <= c < width implies #[trigger] f[0 + r * width + c]
            == luma.data@[r * luma.row_pitch + c] by {
            lemma_cell_in_block(r, c, width as int, height as int);
            assert(after_luma[0 + r * width + c] == luma.data@[r * luma.row_pitch + c]);
            assert(after_u[0 + r * width + c] == after_luma[0 + r * width + c]);
        }
        assert forall|r: int, c: int| 0 <= r < ch && 0 <= c < cw implies #[trigger] f[luma_len + r * cw + c]
            == chroma_u.data@[r * chroma_u.row_pitch + c] by {
            lemma_cell_in_block(r, c, cw as int, ch as int);
            assert(after_u[luma_len + r * cw + c] == chroma_u.data@[r * chroma_u.row_pitch + c]);
        }
    }
}


/// The layout of one descriptor set of the conversion shader: the set index,
/// which is also its update frequency, and its descriptors.
pub struct DescriptorSetLayoutDef {
    pub frequency: u32,
    pub descriptor_defs: Vec<DescriptorDef>,
}

/// The sets among the first `n` that some resource uses, in set order, each
/// with the descriptors of its resources in the resources' order.
pub open spec fn used_set_layouts(rs: Seq<ShaderResource>, n: nat) -> Seq<(u32, Seq<DescriptorDef>)>
    decreases n,
{
    if n == 0 {
        Seq::empty()
    } else {
        let k = (n - 1) as nat;
        if set_descriptors(rs, k as int).len() == 0 {
            used_set_layouts(rs, k)
        } else {
            used_set_layouts(rs, k).push((k as u32, set_descriptors(rs, k as int)))
        }
    }
}

/// The descriptors of the resources of set `set_index`, in the resources'
/// order.
pub fn set_descriptor_defs(resources: &Vec<ShaderResource>, set_index: u32) -> (r: Vec<DescriptorDef>)
    ensures
        r@ == set_descriptors(resources@, set_index as int),
{
    let mut defs: Vec<DescriptorDef> = Vec::new();
    let n = resources.len();
    for i in 0..n
        invariant
            n == resources.len(),
            defs@ == set_descriptors(resources@.take(i as int), set_index as int),
    {
        proof {
            assert(resources@.take(i + 1).drop_last() =~= resources@.take(i as int));
            assert(resources@.take(i + 1).last() == resources@[i as int]);
        }
        let res = &resources[i];
        if res.set_index == set_index {
            let d = DescriptorDef {
                name: res.name.clone(),
                binding: res.binding,
                shader_resource_type: res.shader_resource_type,
                array_size: res.element_count,
            };
            proof {
                assert(d == descriptor_of(resources@[i as int]));
            }
            defs.push(d);
        }
    }
    proof {
        assert(resources@.take(n as int) =~= resources@);
    }
    defs
}

/// The descriptor set layouts of the conversion shader's root signature: one
/// for each set index below the maximum that a resource uses, in set order,
/// with its descriptors in the order reflection reported them.
pub fn converter_set_layouts(resources: &Vec<ShaderResource>) -> (r: Vec<DescriptorSetLayoutDef>)
    ensures
        r@.len() == used_set_layouts(resources@, MAX_DESCRIPTOR_SET_LAYOUTS as nat).len(),
        forall|k: int| 0 <= k < r@.len() ==> {
            &&& (#[trigger] r@[k]).frequency == used_set_layouts(resources@, MAX_DESCRIPTOR_SET_LAYOUTS as nat)[k].0
            &&& r@[k].descriptor_defs@ == used_set_layouts(resources@, MAX_DESCRIPTOR_SET_LAYOUTS as nat)[k].1
        },
{
    let mut layouts: Vec<DescriptorSetLayoutDef> = Vec::new();
    let mut set_index: usize = 0;
    while set_index < MAX_DESCRIPTOR_SET_LAYOUTS
        invariant
            set_index <= MAX_DESCRIPTOR_SET_LAYOUTS,
            layouts@.len() == used_set_layouts(resources@, set_index as nat).len(),
            forall|k: int| 0 <= k < layouts@.len() ==> {
                &&& (#[trigger] layouts@[k]).frequency == used_set_layouts(resources@, set_index as nat)[k].0
                &&& layouts@[k].descriptor_defs@ == used_set_layouts(resources@, set_index as nat)[k].1
            },
        decreases MAX_DESCRIPTOR_SET_LAYOUTS - set_index,
    {
        let defs = set_descriptor_defs(resources, set_index as u32);
        if defs.len() > 0 {
            layouts.push(DescriptorSetLayoutDef { frequency: set_index as u32, descriptor_defs: defs });
        }
        set_index = set_index + 1;
    }
    layouts
}

/// Where the memory of a texture lives and who reads it.
#[derive(Clone, Copy, Debug, PartialEq, Eq, Structural)]
pub enum MemoryUsage {
    GpuOnly,
    GpuToCpu,
}

/// The layout of a texture's texels in memory.
#[derive(Clone, Copy, Debug, PartialEq, Eq, Structural)]
pub enum TextureTiling {
    Optimal,
    Linear,
}

/// The uses a texture is made for.
#[derive(Clone, Copy, Debug, PartialEq, Eq, Structural)]
pub struct ResourceUsage {
    pub as_unordered_access: bool,
    pub as_transferable: bool,
}

/// Size of a texture in texels.
#[derive(Clone, Copy, Debug, PartialEq, Eq, Structural)]
pub struct Extents3D {
    pub width: u32,
    pub height: u32,
    pub depth: u32,
}

/// What a texture is made from. `resource_flags` holds no flag when it is 0.
#[derive(Clone, Copy, Debug, PartialEq, Eq, Structural)]
pub struct TextureDef {
    pub extents: Extents3D,
    pub array_length: u32,
    pub mip_count: u32,
    pub format: Format,
    pub mem_usage: MemoryUsage,
    pub usage_flags: ResourceUsage,
    pub resource_flags: u32,
    pub tiling: TextureTiling,
}

/// The dimension of a texture view.
#[derive(Clone, Copy, Debug, PartialEq, Eq, Structural)]
pub enum ViewDimension {
    TwoD,
}

/// Which plane of a multi-planar texture a view or copy addresses.
#[derive(Clone, Copy, Debug, PartialEq, Eq, Structural)]
pub enum PlaneSlice {
    Default,
    Plane0,
    Plane1,
    Plane2,
}

/// What a texture view is made from.
#[derive(Clone, Copy, Debug, PartialEq, Eq, Structural)]
pub struct TextureViewDef {
    pub gpu_view_type: GPUViewType,
    pub view_dimension: ViewDimension,
    pub first_mip: u32,
    pub mip_count: u32,
    pub plane_slice: PlaneSlice,
    pub first_array_slice: u32,
    pub array_size: u32,
}

/// The textures of one frame of the conversion: the luma plane, each chroma
/// plane, the view the shader writes each plane through, and the
/// three-plane image the planes are copied into for reading back.
#[derive(Clone, Copy, Debug, PartialEq, Eq, Structural)]
pub struct YuvFrameDefs {
    pub luma: TextureDef,
    pub chroma: TextureDef,
    pub plane_view: TextureViewDef,
    pub copy_image: TextureDef,
}

/// A plane the shader writes: one 8-bit channel, in GPU memory, written
/// through an unordered-access view and copied out, with optimal tiling.
pub open spec fn spec_plane_def(width: u32, height: u32) -> TextureDef {
    TextureDef {
        extents: Extents3D { width, height, depth: 1 },
        array_length: 1,
        mip_count: 1,
        format: Format::R8Unorm,
        mem_usage: MemoryUsage::GpuOnly,
        usage_flags: ResourceUsage { as_unordered_access: true, as_transferable: true },
        resource_flags: 0,
        tiling: TextureTiling::Optimal,
    }
}

/// The textures of one frame for `resolution`: a full-size luma plane,
/// chroma planes of half the width and height (rounded down), a 2D
/// unordered-access view of the first mip and slice of the default plane,
/// and a full-size three-plane 4:2:0 image that the CPU reads, with linear
/// tiling.
pub open spec fn spec_yuv_frame_defs(resolution: Resolution) -> YuvFrameDefs {
    YuvFrameDefs {
        luma: spec_plane_def(resolution.width, resolution.height),
        chroma: spec_plane_def(resolution.width / 2, resolution.height / 2),
        plane_view: TextureViewDef {
            gpu_view_type: GPUViewType::UnorderedAccessView,
            view_dimension: ViewDimension::TwoD,
            first_mip: 0,
            mip_count: 1,
            plane_slice: PlaneSlice::Default,
            first_array_slice: 0,
            array_size: 1,
        },
        copy_image: TextureDef {
            extents: Extents3D { width: resolution.width, height: resolution.height, depth: 1 },
            array_length: 1,
            mip_count: 1,
            format: Format::G8B8R8ThreePlane420Unorm,
            mem_usage: MemoryUsage::GpuToCpu,
            usage_flags: ResourceUsage { as_unordered_access: false, as_transferable: true },
            resource_flags: 0,
            tiling: TextureTiling::Linear,
        },
    }
}

fn plane_def(width: u32, height: u32) -> (r: TextureDef)
    ensures
        r == spec_plane_def(width, height),
{
    TextureDef {
        extents: Extents3D { width, height, depth: 1 },
        array_length: 1,
        mip_count: 1,
        format: Format::R8Unorm,
        mem_usage: MemoryUsage::GpuOnly,
        usage_flags: ResourceUsage { as_unordered_access: true, as_transferable: true },
        resource_flags: 0,
        tiling: TextureTiling::Optimal,
    }
}

/// The definitions of the textures and views made for one frame of the
/// conversion at `resolution`.
pub fn yuv_texture_defs(resolution: Resolution) -> (r: YuvFrameDefs)
    ensures
        r == spec_yuv_frame_defs(resolution),
        r.copy_image.extents == (Extents3D { width: resolution.width, height: resolution.height, depth: 1 }),
        r.luma.extents == (Extents3D { width: resolution.width, height: resolution.height, depth: 1 }),
        r.chroma.extents == (Extents3D { width: resolution.width / 2, height: resolution.height / 2, depth: 1 }),
{
    let (luma, chroma) = plane_extents(resolution);
    YuvFrameDefs {
        luma: plane_def(luma.0, luma.1),
        chroma: plane_def(chroma.0, chroma.1),
        plane_view: TextureViewDef {
            gpu_view_type: GPUViewType::UnorderedAccessView,
            view_dimension: ViewDimension::TwoD,
            first_mip: 0,
            mip_count: 1,
            plane_slice: PlaneSlice::Default,
            first_array_slice: 0,
            array_size: 1,
        },
        copy_image: TextureDef {
            extents: Extents3D { width: resolution.width, height: resolution.height, depth: 1 },
            array_length: 1,
            mip_count: 1,
            format: Format::G8B8R8ThreePlane420Unorm,
            mem_usage: MemoryUsage::GpuToCpu,
            usage_flags: ResourceUsage { as_unordered_access: false, as_transferable: true },
            resource_flags: 0,
            tiling: TextureTiling::Linear,
        },
    }
}

/// The resources sized for a resolution: the resolution, and the
/// textures of each of `render_frame_count` frames, all alike.
pub struct ResolutionDependentDefs {
    pub resolution: Resolution,
    pub frames: Vec<YuvFrameDefs>,
}

/// The textures made for `render_frame_count` frames at `resolution`, one
/// set per frame, in frame order.
pub fn resolution_dependent_defs(render_frame_count: u32, resolution: Resolution) -> (r: ResolutionDependentDefs)
    ensures
        r.resolution == resolution,
        r.frames@.len() == render_frame_count,
        forall|k: int| 0 <= k < r.frames@.len() ==> #[trigger] r.frames@[k] == spec_yuv_frame_defs(resolution),
{
    let mut frames: Vec<YuvFrameDefs> = Vec::new();
    for i in 0..render_frame_count
        invariant
            frames@.len() == i,
            forall|k: int| 0 <= k < frames@.len() ==> #[trigger] frames@[k] == spec_yuv_frame_defs(resolution),
    {
        frames.push(yuv_texture_defs(resolution));
    }
    ResolutionDependentDefs { resolution, frames }
}

/// The shader of the conversion: its source path, its entry point, and that
/// it is compiled for the compute stage.
pub struct ConverterShader {
    pub source_path: String,
    pub entry_point: String,
    pub compute: bool,
}

/// How the converter is set up: its shader, the number of frames it renders
/// ahead, the descriptor set layouts and push constant of its root
/// signature, and the resources sized for its resolution.
pub struct ConverterConfig {
    pub shader: ConverterShader,
    pub render_frame_count: u32,
    pub set_layouts: Vec<DescriptorSetLayoutDef>,
    pub push_constant: Option<PushConstantDef>,
    pub resources: ResolutionDependentDefs,
}

/// The converter for `resolution`, given the resources its compiled shader
/// declares: the compute entry point `cs_main` of the streamer's
/// `rgb2yuv.hlsl`, one frame, the set layouts of those resources, no push
/// constant, and one frame of textures at `resolution`.
pub fn converter_config(resources: &Vec<ShaderResource>, resolution: Resolution) -> (r: ConverterConfig)
    ensures
        r.shader.source_path@ == "crate://streamer/shaders/rgb2yuv.hlsl"@,
        r.shader.entry_point@ == "cs_main"@,
        r.shader.compute,
        r.render_frame_count == 1,
        r.push_constant is None,
        r.set_layouts@.len() == used_set_layouts(resources@, MAX_DESCRIPTOR_SET_LAYOUTS as nat).len(),
        forall|k: int|
            0 <= k < r.set_layouts@.len() ==> {
                &&& (#[trigger] r.set_layouts@[k]).frequency == used_set_layouts(
                    resources@,
                    MAX_DESCRIPTOR_SET_LAYOUTS as nat,
                )[k].0
                &&& r.set_layouts@[k].descriptor_defs@ == used_set_layouts(resources@, MAX_DESCRIPTOR_SET_LAYOUTS as nat)[k].1
            },
        r.resources.resolution == resolution,
        r.resources.frames@.len() == 1,
        r.resources.frames@[0] == spec_yuv_frame_defs(resolution),
{
    let render_frame_count: u32 = 1;
    let set_layouts = converter_set_layouts(resources);
    let res = resolution_dependent_defs(render_frame_count, resolution);
    ConverterConfig {
        shader: ConverterShader {
            source_path: String::from_str("crate://streamer/shaders/rgb2yuv.hlsl"),
            entry_point: String::from_str("cs_main"),
            compute: true,
        },
        render_frame_count,
        set_layouts,
        push_constant: None,
        resources: res,
    }
}

/// The textures of every frame are sized from the resolution alone: the
/// luma plane and the CPU-readable three-plane copy image are the full frame,
/// the copy image the same size as the luma plane, and each chroma plane is
/// half as wide and half as high (rounded down), so that four chroma texels
/// cover at most the luma plane's area.
pub proof fn lemma_yuv_frame_extents(resolution: Resolution)
    ensures
        spec_yuv_frame_defs(resolution).luma.extents == (Extents3D {
            width: resolution.width,
            height: resolution.height,
            depth: 1,
        }),
        spec_yuv_frame_defs(resolution).copy_image.extents == (Extents3D {
            width: resolution.width,
            height: resolution.height,
            depth: 1,
        }),
        spec_yuv_frame_defs(resolution).copy_image.extents == spec_yuv_frame_defs(resolution).luma.extents,
        spec_yuv_frame_defs(resolution).chroma.extents == (Extents3D {
            width: resolution.width / 2,
            height: resolution.height / 2,
            depth: 1,
        }),
        2 * spec_yuv_frame_defs(resolution).chroma.extents.width <= spec_yuv_frame_defs(resolution).luma.extents.width,
        2 * spec_yuv_frame_defs(resolution).chroma.extents.height <= spec_yuv_frame_defs(resolution).luma.extents.height,
{
}

/// The planes the shader writes are single 8-bit channels in GPU memory,
/// written through unordered access, copyable and optimally tiled; the copy
/// image is a three-plane 4:2:0 image the CPU reads, copyable, not written by
/// shaders and linearly tiled; every texture is one mip of one layer, with no
/// resource flag; the plane view is a 2D unordered-access view of that one
/// mip and layer.
pub proof fn lemma_yuv_frame_kinds(resolution: Resolution)
    ensures
        ({
            let d = spec_yuv_frame_defs(resolution);
            &&& d.luma.format == Format::R8Unorm && d.chroma.format == Format::R8Unorm
            &&& d.luma.mem_usage == MemoryUsage::GpuOnly && d.chroma.mem_usage == MemoryUsage::GpuOnly
            &&& d.luma.usage_flags.as_unordered_access && d.luma.usage_flags.as_transferable
            &&& d.chroma.usage_flags.as_unordered_access && d.chroma.usage_flags.as_transferable
            &&& d.luma.tiling == TextureTiling::Optimal && d.chroma.tiling == TextureTiling::Optimal
            &&& d.copy_image.format == Format::G8B8R8ThreePlane420Unorm
            &&& d.copy_image.mem_usage == MemoryUsage::GpuToCpu
            &&& !d.copy_image.usage_flags.as_unordered_access && d.copy_image.usage_flags.as_transferable
            &&& d.copy_image.tiling == TextureTiling::Linear
            &&& d.luma.array_length == 1 && d.luma.mip_count == 1 && d.luma.resource_flags == 0
            &&& d.chroma.array_length == 1 && d.chroma.mip_count == 1 && d.chroma.resource_flags == 0
            &&& d.copy_image.array_length == 1 && d.copy_image.mip_count == 1 && d.copy_image.resource_flags == 0
            &&& d.plane_view.gpu_view_type == GPUViewType::UnorderedAccessView
            &&& d.plane_view.view_dimension == ViewDimension::TwoD
            &&& d.plane_view.first_mip == 0 && d.plane_view.mip_count == 1
            &&& d.plane_view.first_array_slice == 0 && d.plane_view.array_size == 1
            &&& d.plane_view.plane_slice == PlaneSlice::Default
        }),
{
}

} // verus!
