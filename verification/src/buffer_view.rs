//! GPU buffer views and their compatibility with shader descriptors.

use vstd::prelude::*;

verus! {

/// How a GPU view exposes a resource to shaders.
#[derive(Clone, Copy, Debug, PartialEq, Eq, Structural)]
pub enum GPUViewType {
    ConstantBufferView,
    ShaderResourceView,
    UnorderedAccessView,
    RenderTargetView,
    DepthStencilView,
}

/// Kind of resource a shader binding expects.
#[derive(Clone, Copy, Debug, PartialEq, Eq, Structural)]
pub enum ShaderResourceType {
    Sampler,
    ConstantBuffer,
    StructuredBuffer,
    RWStructuredBuffer,
    ByteAdressBuffer,
    RWByteAdressBuffer,
    Texture2D,
    RWTexture2D,
    Texture2DArray,
    RWTexture2DArray,
    Texture3D,
    RWTexture3D,
    TextureCube,
    TextureCubeArray,
}

/// Definition of a view over a buffer.
#[derive(Clone, Copy, Debug, PartialEq, Eq, Structural)]
pub struct BufferViewDef {
    pub gpu_view_type: GPUViewType,
    pub byte_offset: u64,
    pub element_count: u64,
    pub element_size: u64,
}

/// A descriptor slot of a shader, as seen by a buffer view.
#[derive(Clone, Copy, Debug, PartialEq, Eq, Structural)]
pub struct VulkanDescriptor {
    pub shader_resource_type: ShaderResourceType,
}

/// A buffer view as handed to Vulkan: its definition, the buffer it views
/// (by identifier) and the offset and size in bytes that Vulkan receives.
#[derive(Clone, Copy, Debug, PartialEq, Eq, Structural)]
pub struct VulkanBufferView {
    view_def: BufferViewDef,
    buffer_id: u64,
    vk_offset: u64,
    vk_size: u64,
}

/// The view type a descriptor of the given resource type accepts, if any.
pub open spec fn accepted_view_type(t: ShaderResourceType) -> Option<GPUViewType> {
    match t {
        ShaderResourceType::ConstantBuffer => Some(GPUViewType::ConstantBufferView),
        ShaderResourceType::StructuredBuffer | ShaderResourceType::ByteAdressBuffer => Some(
            GPUViewType::ShaderResourceView,
        ),
        ShaderResourceType::RWStructuredBuffer | ShaderResourceType::RWByteAdressBuffer => Some(
            GPUViewType::UnorderedAccessView,
        ),
        _ => None,
    }
}

impl VulkanBufferView {
    pub closed spec fn spec_view_def(self) -> BufferViewDef {
        self.view_def
    }

    pub closed spec fn spec_buffer_id(self) -> u64 {
        self.buffer_id
    }

    pub closed spec fn spec_vk_offset(self) -> u64 {
        self.vk_offset
    }

    pub closed spec fn spec_vk_size(self) -> u64 {
        self.vk_size
    }

    /// Creates a view over the buffer `buffer_id`: Vulkan sees it at the
    /// view's byte offset, with a size of `element_size * element_count`.
    pub fn from_buffer(buffer_id: u64, view_def: &BufferViewDef) -> (r: Self)
        requires
            view_def.element_size * view_def.element_count <= u64::MAX,
        ensures
            r.spec_view_def() == *view_def,
            r.spec_buffer_id() == buffer_id,
            r.spec_vk_offset() == view_def.byte_offset,
            r.spec_vk_size() == view_def.element_size * view_def.element_count,
    {
        let vk_offset = view_def.byte_offset;
        let vk_size = view_def.element_size * view_def.element_count;
        VulkanBufferView { view_def: *view_def, buffer_id, vk_offset, vk_size }
    }

    /// Offset in bytes handed to Vulkan.
    pub fn vk_offset(&self) -> (r: u64)
        ensures
            r == self.spec_vk_offset(),
    {
        self.vk_offset
    }

    /// Size in bytes handed to Vulkan.
    pub fn vk_size(&self) -> (r: u64)
        ensures
            r == self.spec_vk_size(),
    {
        self.vk_size
    }

    /// The view's definition.
    pub fn view_def(&self) -> (r: &BufferViewDef)
        ensures
            *r == self.spec_view_def(),
    {
        &self.view_def
    }

    /// Identifier of the viewed buffer.
    pub fn buffer(&self) -> (r: u64)
        ensures
            r == self.spec_buffer_id(),
    {
        self.buffer_id
    }

    /// Whether this view can be bound to `descriptor`: buffer descriptors
    /// accept exactly one view type, texture and sampler descriptors none.
    pub fn is_compatible_with_descriptor(&self, descriptor: &VulkanDescriptor) -> (r: bool)
        ensures
            r == (accepted_view_type(descriptor.shader_resource_type) == Some(
                self.spec_view_def().gpu_view_type,
            )),
            descriptor.shader_resource_type == ShaderResourceType::StructuredBuffer
                || descriptor.shader_resource_type == ShaderResourceType::ByteAdressBuffer ==> (r
                <==> self.spec_view_def().gpu_view_type == GPUViewType::ShaderResourceView),
            descriptor.shader_resource_type == ShaderResourceType::RWStructuredBuffer
                || descriptor.shader_resource_type == ShaderResourceType::RWByteAdressBuffer ==> (r
                <==> self.spec_view_def().gpu_view_type == GPUViewType::UnorderedAccessView),
            descriptor.shader_resource_type == ShaderResourceType::ConstantBuffer ==> (r
                <==> self.spec_view_def().gpu_view_type == GPUViewType::ConstantBufferView),
    {
        let t = self.view_def.gpu_view_type;
        match descriptor.shader_resource_type {
            ShaderResourceType::ConstantBuffer => t == GPUViewType::ConstantBufferView,
            ShaderResourceType::StructuredBuffer | ShaderResourceType::ByteAdressBuffer => {
                t == GPUViewType::ShaderResourceView
            },
            ShaderResourceType::RWStructuredBuffer | ShaderResourceType::RWByteAdressBuffer => {
                t == GPUViewType::UnorderedAccessView
            },
            ShaderResourceType::Sampler
            | ShaderResourceType::Texture2D
            | ShaderResourceType::RWTexture2D
            | ShaderResourceType::Texture2DArray
            | ShaderResourceType::RWTexture2DArray
            | ShaderResourceType::Texture3D
            | ShaderResourceType::RWTexture3D
            | ShaderResourceType::TextureCube
            | ShaderResourceType::TextureCubeArray => false,
        }
    }
}

/// Which views each descriptor type takes: a read-only buffer (structured
/// or byte-address) exactly a shader-resource view, a read-write buffer
/// exactly an unordered-access view, a constant buffer exactly a
/// constant-buffer view, and a sampler or texture no buffer view at all.
pub proof fn lemma_descriptor_view_types(t: ShaderResourceType, v: GPUViewType)
    ensures
        t == ShaderResourceType::StructuredBuffer || t == ShaderResourceType::ByteAdressBuffer ==> (
        accepted_view_type(t) == Some(v) <==> v == GPUViewType::ShaderResourceView),
        t == ShaderResourceType::RWStructuredBuffer || t == ShaderResourceType::RWByteAdressBuffer ==> (
        accepted_view_type(t) == Some(v) <==> v == GPUViewType::UnorderedAccessView),
        t == ShaderResourceType::ConstantBuffer ==> (accepted_view_type(t) == Some(v) <==> v
            == GPUViewType::ConstantBufferView),
        !(t == ShaderResourceType::StructuredBuffer || t == ShaderResourceType::ByteAdressBuffer || t
            == ShaderResourceType::RWStructuredBuffer || t == ShaderResourceType::RWByteAdressBuffer || t
            == ShaderResourceType::ConstantBuffer) ==> accepted_view_type(t) is None,
{
}

} // verus!
