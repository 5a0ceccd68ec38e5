//! Sizes and offsets in the unified static GPU buffer: its size in 32-bit
//! elements, the rounding of allocations, and the pages of per-element
//! uniform data.

use crate::buffer_view::{BufferViewDef, GPUViewType};
use vstd::prelude::*;

verus! {

/// The alignment, in bytes, of every allocation in the static buffer.
pub const STATIC_ALLOCATION_ALIGNMENT: u64 = 256;

/// The size of an element of the static buffer as a byte-address buffer.
pub const STATIC_BUFFER_ELEMENT_SIZE: u64 = 4;

/// The buffer made for a requested size: as many whole 32-bit elements as
/// fit, and their size in bytes.
pub fn static_buffer_layout(virtual_buffer_size: u64) -> (r: (u64, u64))
    ensures
        r.1 == virtual_buffer_size / STATIC_BUFFER_ELEMENT_SIZE,
        r.0 == r.1 * STATIC_BUFFER_ELEMENT_SIZE,
        r.0 <= virtual_buffer_size,
{
    let element_count = virtual_buffer_size / STATIC_BUFFER_ELEMENT_SIZE;
    let buffer_size = element_count * STATIC_BUFFER_ELEMENT_SIZE;
    (buffer_size, element_count)
}

/// The smallest multiple of `alignment` that is at least `size`.
pub fn round_size_up_to_alignment(size: u64, alignment: u64) -> (r: u64)
    requires
        alignment > 0,
        size + alignment - 1 <= u64::MAX,
    ensures
        r % alignment == 0,
        size <= r,
        r < size + alignment,
{
    let q = (size + (alignment - 1)) / alignment;
    proof {
        let a = alignment as int;
        assert(q * a <= size + a - 1) by (nonlinear_arith)
            requires
                a > 0,
                q == (size + a - 1) / a,
        ;
    }
    let r = q * alignment;
    proof {
        let a = alignment as int;
        assert(r == q * a);
        assert((q * a) % a == 0) by (nonlinear_arith)
            requires
                a > 0,
                q >= 0,
        ;
        assert(q * a <= size + a - 1 < q * a + a) by (nonlinear_arith)
            requires
                a > 0,
                q == (size + a - 1) / a,
        ;
    }
    r
}

/// The size allocated for a request of `required_size` bytes: rounded up to
/// the allocation alignment.
pub fn static_allocation_size(required_size: u64) -> (r: u64)
    requires
        required_size + STATIC_ALLOCATION_ALIGNMENT - 1 <= u64::MAX,
    ensures
        r % STATIC_ALLOCATION_ALIGNMENT == 0,
        required_size <= r < required_size + STATIC_ALLOCATION_ALIGNMENT,
{
    round_size_up_to_alignment(required_size, STATIC_ALLOCATION_ALIGNMENT)
}

/// The uses asked of a static buffer allocation. `as_other` stands for any
/// use the static buffer is not made for (such as a render target).
#[derive(Clone, Copy, Debug, PartialEq, Eq, Structural)]
pub struct BufferUsage {
    pub as_shader_resource: bool,
    pub as_unordered_access: bool,
    pub as_const_buffer: bool,
    pub as_vertex_buffer: bool,
    pub as_index_buffer: bool,
    pub as_transferable: bool,
    pub as_other: bool,
}

/// The uses the static buffer is made for: every use but the others.
pub open spec fn spec_static_buffer_usage() -> BufferUsage {
    BufferUsage {
        as_shader_resource: true,
        as_unordered_access: true,
        as_const_buffer: true,
        as_vertex_buffer: true,
        as_index_buffer: true,
        as_transferable: true,
        as_other: false,
    }
}

/// The uses the static buffer is made for.
pub fn static_buffer_usage() -> (r: BufferUsage)
    ensures
        r == spec_static_buffer_usage(),
{
    BufferUsage {
        as_shader_resource: true,
        as_unordered_access: true,
        as_const_buffer: true,
        as_vertex_buffer: true,
        as_index_buffer: true,
        as_transferable: true,
        as_other: false,
    }
}

pub open spec fn usage_is_empty(u: BufferUsage) -> bool {
    !u.as_shader_resource && !u.as_unordered_access && !u.as_const_buffer && !u.as_vertex_buffer
        && !u.as_index_buffer && !u.as_transferable && !u.as_other
}

/// The uses an allocation gets: those asked, or all the static buffer's
/// when none is asked.
pub open spec fn resolved_usage(u: BufferUsage) -> BufferUsage {
    if usage_is_empty(u) {
        spec_static_buffer_usage()
    } else {
        u
    }
}

/// Whether a view of the given type can be made over an allocation with
/// usage `u`: a constant-buffer, shader-resource or unordered-access view
/// needs that use; render-target and depth-stencil views never can.
pub open spec fn view_allowed(u: BufferUsage, t: GPUViewType) -> bool {
    match t {
        GPUViewType::ConstantBufferView => u.as_const_buffer,
        GPUViewType::ShaderResourceView => u.as_shader_resource,
        GPUViewType::UnorderedAccessView => u.as_unordered_access,
        GPUViewType::RenderTargetView => false,
        GPUViewType::DepthStencilView => false,
    }
}

/// A range of the static buffer given out for some uses.
pub struct StaticBufferAllocation {
    byte_offset: u64,
    size: u64,
    usage: BufferUsage,
}

impl StaticBufferAllocation {
    pub closed spec fn offset(self) -> u64 {
        self.byte_offset
    }

    pub closed spec fn alloc_size(self) -> u64 {
        self.size
    }

    pub closed spec fn uses(self) -> BufferUsage {
        self.usage
    }

    /// Allocates `required_size` bytes for `resource_usage` at `range_begin`,
    /// where the range allocator placed a range of the rounded size. Only
    /// uses of the static buffer may be asked; the size is rounded up to the
    /// allocation alignment, the range must start aligned to it, and an
    /// allocation asked for no use gets all the static buffer's uses.
    pub fn allocate(required_size: u64, resource_usage: BufferUsage, range_begin: u64) -> (r: Self)
        requires
            !resource_usage.as_other,
            required_size + STATIC_ALLOCATION_ALIGNMENT - 1 <= u64::MAX,
            range_begin % STATIC_ALLOCATION_ALIGNMENT == 0,
        ensures
            r.offset() == range_begin,
            r.alloc_size() % STATIC_ALLOCATION_ALIGNMENT == 0,
            required_size <= r.alloc_size() < required_size + STATIC_ALLOCATION_ALIGNMENT,
            r.uses() == resolved_usage(resource_usage),
    {
        let empty = !resource_usage.as_shader_resource && !resource_usage.as_unordered_access
            && !resource_usage.as_const_buffer && !resource_usage.as_vertex_buffer
            && !resource_usage.as_index_buffer && !resource_usage.as_transferable && !resource_usage.as_other;
        let usage = if empty {
            static_buffer_usage()
        } else {
            resource_usage
        };
        let size = static_allocation_size(required_size);
        StaticBufferAllocation { byte_offset: range_begin, size, usage }
    }

    /// The offset of the allocation in the static buffer.
    pub fn byte_offset(&self) -> (r: u64)
        ensures
            r == self.offset(),
    {
        self.byte_offset
    }

    /// The offset to bind the allocation at as a vertex buffer; it must be
    /// allocated for that use.
    pub fn vertex_buffer_binding(&self) -> (r: u64)
        requires
            self.uses().as_vertex_buffer,
        ensures
            r == self.offset(),
    {
        self.byte_offset
    }

    /// The offset to bind the allocation at as an index buffer; it must be
    /// allocated for that use.
    pub fn index_buffer_binding(&self) -> (r: u64)
        requires
            self.uses().as_index_buffer,
        ensures
            r == self.offset(),
    {
        self.byte_offset
    }

    /// The definition of a view over the allocation: `view_definition`
    /// placed at the allocation's offset. The view's type must be one the
    /// allocation's uses allow.
    pub fn create_view(&self, view_definition: BufferViewDef) -> (r: BufferViewDef)
        requires
            view_allowed(self.uses(), view_definition.gpu_view_type),
        ensures
            r == (BufferViewDef { byte_offset: self.offset(), ..view_definition }),
    {
        BufferViewDef { byte_offset: self.byte_offset, ..view_definition }
    }
}

/// A copy of bytes into the static buffer, at `dst_offset`.
#[derive(Debug)]
pub struct UpdateUnifiedStaticBufferCommand {
    pub src_buffer: Vec<u8>,
    pub dst_offset: u64,
}

/// Per-element uniform data laid out in pages of `elements_per_page`
/// elements, each page allocated in the static buffer when first needed.
pub struct UniformGpuPages {
    elements_per_page: u64,
    element_size: u64,
    page_offsets: Vec<u64>,
}

impl UniformGpuPages {
    pub closed spec fn per_page(self) -> nat {
        self.elements_per_page as nat
    }

    pub closed spec fn element_bytes(self) -> nat {
        self.element_size as nat
    }

    /// The byte offset of each allocated page, in page order.
    pub closed spec fn pages(self) -> Seq<u64> {
        self.page_offsets@
    }

    /// The pages needed to hold element `index`.
    pub open spec fn required_pages(self, index: int) -> int {
        index / (self.per_page() as int) + 1
    }

    /// The byte offset of element `index` once its page is allocated.
    pub open spec fn element_offset(self, index: int) -> int {
        self.pages()[index / (self.per_page() as int)] + (index % (self.per_page() as int)) * self.element_bytes()
    }

    /// No page allocated yet.
    pub fn new(elements_per_page: u64, element_size: u64) -> (r: Self)
        requires
            elements_per_page > 0,
        ensures
            r.per_page() == elements_per_page,
            r.element_bytes() == element_size,
            r.pages() == Seq::<u64>::empty(),
    {
        UniformGpuPages { elements_per_page, element_size, page_offsets: Vec::new() }
    }

    /// The size of one page in bytes.
    pub fn segment_size(&self) -> (r: u64)
        requires
            self.per_page() * self.element_bytes() <= u64::MAX,
        ensures
            r == self.per_page() * self.element_bytes(),
    {
        self.elements_per_page * self.element_size
    }

    /// How many pages must still be allocated before element `index` has
    /// one.
    pub fn pages_missing(&self, index: u32) -> (r: u64)
        requires
            self.per_page() > 0,
        ensures
            r == if self.pages().len() >= self.required_pages(index as int) {
                0
            } else {
                self.required_pages(index as int) - self.pages().len()
            },
    {
        let required = (index as u64) / self.elements_per_page + 1;
        if (self.page_offsets.len() as u64) >= required {
            0
        } else {
            required - self.page_offsets.len() as u64
        }
    }

    /// Makes sure element `index` has a page, appending the pages just
    /// allocated at `new_pages` (as many as were missing), and returns the
    /// element's byte offset: its page's offset plus its place in the page.
    pub fn ensure_index_allocated(&mut self, index: u32, new_pages: &Vec<u64>) -> (r: u64)
        requires
            old(self).per_page() > 0,
            new_pages@.len() == (if old(self).pages().len() >= old(self).required_pages(index as int) {
                0
            } else {
                old(self).required_pages(index as int) - old(self).pages().len()
            }),
            (old(self).pages() + new_pages@)[index as int / old(self).per_page() as int] + (index as int
                % old(self).per_page() as int) * old(self).element_bytes() <= u64::MAX,
        ensures
            final(self).pages() == old(self).pages() + new_pages@,
            final(self).per_page() == old(self).per_page(),
            final(self).element_bytes() == old(self).element_bytes(),
            final(self).pages().len() >= final(self).required_pages(index as int),
            r == final(self).element_offset(index as int),
    {
        let epp = self.elements_per_page;
        let index_64 = index as u64;
        let index_of_page = index_64 / epp;
        let index_in_page = index_64 % epp;
        let ghost before = self.page_offsets@;
        let mut k: usize = 0;
        while k < new_pages.len()
            invariant
                k <= new_pages@.len(),
                self.page_offsets@ == before + new_pages@.take(k as int),
                self.elements_per_page == epp,
                epp == old(self).elements_per_page,
                self.element_size == old(self).element_size,
            decreases new_pages@.len() - k,
        {
            self.page_offsets.push(new_pages[k]);
            proof {
                assert(new_pages@.take(k + 1) =~= new_pages@.take(k as int).push(new_pages@[k as int]));
                assert(self.page_offsets@ =~= before + new_pages@.take(k + 1));
            }
            k = k + 1;
        }
        proof {
            assert(new_pages@.take(new_pages@.len() as int) =~= new_pages@);
            assert(index_in_page * self.element_size <= u64::MAX) by (nonlinear_arith)
                requires
                    self.page_offsets@[index_of_page as int] + index_in_page * self.element_size <= u64::MAX,
                    self.page_offsets@[index_of_page as int] >= 0,
            ;
        }
        self.page_offsets[index_of_page as usize] + index_in_page * self.element_size
    }
}

/// The pages still to be allocated before element `index` has one.
pub open spec fn missing_pages(t: UniformGpuPages, index: int) -> int {
    if t.pages().len() >= t.required_pages(index) {
        0
    } else {
        t.required_pages(index) - t.pages().len()
    }
}

/// Making sure of element `index` (from `t` to `u`, appending the missing
/// pages) leaves as many pages as the element needs, or as there were if
/// that is more, with the earlier pages first and unchanged; a second call
/// for the same index then has no page to allocate, leaves the pages as they
/// are, and so gives the same offset.
pub proof fn lemma_ensure_index_allocated_law(t: UniformGpuPages, u: UniformGpuPages, new_pages: Seq<u64>, index: u32)
    requires
        t.per_page() > 0,
        new_pages.len() == missing_pages(t, index as int),
        u.per_page() == t.per_page(),
        u.element_bytes() == t.element_bytes(),
        u.pages() == t.pages() + new_pages,
    ensures
        u.pages().len() == if t.pages().len() >= t.required_pages(index as int) {
            t.pages().len() as int
        } else {
            t.required_pages(index as int)
        },
        u.pages().subrange(0, t.pages().len() as int) == t.pages(),
        missing_pages(u, index as int) == 0,
        u.pages() + Seq::<u64>::empty() == u.pages(),
{
    assert(u.pages().subrange(0, t.pages().len() as int) =~= t.pages());
    assert(u.pages() + Seq::<u64>::empty() =~= u.pages());
}

/// Allocating more pages keeps the offset of every element whose page was
/// already allocated: pages are only appended.
pub proof fn lemma_pages_keep_offsets(t: UniformGpuPages, u: UniformGpuPages, new_pages: Seq<u64>, j: int)
    requires
        t.per_page() > 0,
        u.per_page() == t.per_page(),
        u.element_bytes() == t.element_bytes(),
        u.pages() == t.pages() + new_pages,
        0 <= j,
        t.pages().len() >= t.required_pages(j),
    ensures
        u.element_offset(j) == t.element_offset(j),
        u.pages().len() >= u.required_pages(j),
{
    let p = j / (t.per_page() as int);
    assert(0 <= p) by (nonlinear_arith)
        requires
            j >= 0,
            t.per_page() > 0,
            p == j / (t.per_page() as int),
    ;
    assert(u.pages()[p] == t.pages()[p]);
}

} // verus!
