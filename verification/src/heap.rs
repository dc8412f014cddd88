//! Allocation planning for the interposed `malloc` family: each block carries
//! a one-word header with its payload capacity (the request, or the slab
//! class size for a cacheable request), and every size is checked before the
//! heap is asked.
use vstd::prelude::*;

verus! {

/// Bytes of the size header in front of each block.
pub const MALLOC_HEADER: usize = 8;
/// Alignment of every block.
pub const MALLOC_ALIGN: usize = 8;
/// Page size.
pub const PAGE_SIZE: usize = 4096;
/// Size of the static bootstrap heap.
pub const BOOTSTRAP_HEAP_SIZE: usize = 262144;
/// Bytes mapped when the heap runs out.
pub const OOM_MAP_SIZE: usize = 65536;
/// Largest request served from the per-thread free-list.
pub const CACHE_MAX_SIZE: usize = 256;
/// Drains of the quarantine `malloc` tries when the heap is out of memory.
pub const QUARANTINE_RETRIES: usize = 8;

/// A block size is a valid layout with 8-byte alignment: rounded up to the
/// alignment it stays within `isize::MAX`.
pub open spec fn layout_ok(total: nat) -> bool {
    total <= isize::MAX - 7
}

/// The block size for a request of `size` bytes: the request plus its header,
/// when that is a valid layout.
pub open spec fn block_total(size: usize) -> Option<usize> {
    if size + MALLOC_HEADER <= usize::MAX && layout_ok((size + MALLOC_HEADER) as nat) {
        Some((size + MALLOC_HEADER) as usize)
    } else {
        None
    }
}

/// The block size for a request, or `None` when it overflows or is no valid layout.
pub fn header_layout_size(size: usize) -> (r: Option<usize>)
    ensures
        r == block_total(size),
{
    match size.checked_add(MALLOC_HEADER) {
        None => None,
        Some(total) => if total <= isize::MAX as usize - 7 {
            Some(total)
        } else {
            None
        },
    }
}

/// Requests served from the per-thread free-list (up to 256 bytes).
pub fn is_cacheable_size(size: usize) -> (b: bool)
    ensures
        b == (size <= CACHE_MAX_SIZE),
{
    size <= CACHE_MAX_SIZE
}

/// What `malloc(size)` asks the heap for: nothing (a null result) for size 0
/// or a size with no valid block, else the block size.
pub fn malloc_plan(size: usize) -> (r: Option<usize>)
    ensures
        size == 0 ==> r is None,
        size != 0 ==> r == block_total(size),
{
    if size == 0 {
        return None;
    }
    header_layout_size(size)
}

/// The payload capacity of the block `malloc(size)` makes: a cacheable
/// request gets a slab block of its size class, which any later request of
/// the class can reuse; any other request gets exactly its size.
pub open spec fn malloc_capacity(size: usize) -> nat {
    if size <= CACHE_MAX_SIZE {
        crate::tls_cache::slab_capacity(size)
    } else {
        size as nat
    }
}

/// The block `malloc(size)` makes: its payload capacity (what the header
/// records) and its block size; `None` (a null result) for size 0 or a size
/// with no valid block.
pub fn malloc_block(size: usize) -> (r: Option<(usize, usize)>)
    ensures
        size == 0 || block_total(size) is None ==> r is None,
        size != 0 && block_total(size) is Some ==> (r matches Some(b) && b.0 == malloc_capacity(size)
            && b.0 >= size && block_total(b.0) == Some(b.1)),
{
    match malloc_plan(size) {
        None => None,
        Some(total) => if size <= CACHE_MAX_SIZE {
            let cap = crate::tls_cache::block_capacity(size);
            assert(cap <= 256);
            Some((cap, cap + MALLOC_HEADER))
        } else {
            Some((size, total))
        },
    }
}

/// Whether `malloc` drains one more quarantined block and retries: the heap
/// gave nothing and fewer than `QUARANTINE_RETRIES` drains were made.
pub fn malloc_should_retry(got_null: bool, drained: usize) -> (b: bool)
    ensures
        b == (got_null && drained < QUARANTINE_RETRIES),
{
    got_null && drained < QUARANTINE_RETRIES
}

/// The block size with which `free` returns a block whose header holds
/// `size`. The header of a block from `malloc` always gives a valid layout.
pub fn free_layout_size(size: usize) -> (total: usize)
    requires
        block_total(size) is Some,
    ensures
        Some(total) == block_total(size),
{
    size + MALLOC_HEADER
}

/// What `realloc` does.
#[derive(PartialEq, Eq, Structural)]
pub enum ReallocPlan {
    /// A null pointer: behave as `malloc(size)`.
    Malloc,
    /// Size 0: free the block and return null.
    Free,
    /// The new size has no block size: return null and keep the block.
    Null,
    /// Resize the block from `old_total` to `new_total` bytes; the header
    /// then records `new_capacity`, the capacity `malloc` would give.
    Resize { old_total: usize, new_capacity: usize, new_total: usize },
}

/// The new sizes on which `realloc` panics: the size plus its header fits in
/// a `usize` but is no valid layout.
pub open spec fn realloc_panics(size: usize) -> bool {
    size + MALLOC_HEADER <= usize::MAX && !layout_ok((size + MALLOC_HEADER) as nat)
}

/// Plans `realloc(ptr, size)` for a block whose header holds `old_size`
/// (ignored for a null pointer).
pub fn realloc_plan(ptr_is_null: bool, old_size: usize, size: usize) -> (p: ReallocPlan)
    requires
        !ptr_is_null && size != 0 ==> block_total(old_size) is Some && !realloc_panics(size),
    ensures
        ptr_is_null ==> p == ReallocPlan::Malloc,
        !ptr_is_null && size == 0 ==> p == ReallocPlan::Free,
        !ptr_is_null && size != 0 && size + MALLOC_HEADER > usize::MAX ==> p == ReallocPlan::Null,
        !ptr_is_null && size != 0 && size + MALLOC_HEADER <= usize::MAX ==> p == (ReallocPlan::Resize {
            old_total: (old_size + MALLOC_HEADER) as usize,
            new_capacity: malloc_capacity(size) as usize,
            new_total: (malloc_capacity(size) + MALLOC_HEADER) as usize,
        }),
{
    if ptr_is_null {
        return ReallocPlan::Malloc;
    }
    if size == 0 {
        return ReallocPlan::Free;
    }
    let old_total = old_size + MALLOC_HEADER;
    if size > usize::MAX - MALLOC_HEADER {
        return ReallocPlan::Null;
    }
    match malloc_block(size) {
        Some((new_capacity, new_total)) => ReallocPlan::Resize { old_total, new_capacity, new_total },
        None => ReallocPlan::Null,
    }
}

/// The byte count `calloc(nmemb, size)` allocates and zeroes, or `None`
/// (a null result) when the product overflows or is zero.
pub fn calloc_total(nmemb: usize, size: usize) -> (r: Option<usize>)
    ensures
        nmemb * size > usize::MAX || nmemb * size == 0 ==> r is None,
        0 < nmemb * size <= usize::MAX ==> r == Some((nmemb * size) as usize),
{
    match nmemb.checked_mul(size) {
        None => None,
        Some(t) => if t == 0 {
            None
        } else {
            Some(t)
        },
    }
}

/// The one-time claim of the bootstrap heap.
pub struct AllocatorInit {
    claimed: bool,
}

impl AllocatorInit {
    pub closed spec fn claimed(&self) -> bool {
        self.claimed
    }

    pub fn new() -> (a: Self)
        ensures
            !a.claimed(),
    {
        AllocatorInit { claimed: false }
    }
}

/// Makes sure the bootstrap heap is claimed: returns whether the claim is to
/// be made now, which is the case on the first call only.
pub fn ensure_allocator_init(init: &mut AllocatorInit) -> (claim_now: bool)
    ensures
        claim_now == !old(init).claimed(),
        final(init).claimed(),
{
    if init.claimed {
        false
    } else {
        init.claimed = true;
        true
    }
}

/// The out-of-memory handler that maps more memory for the heap.
pub struct MmapOom;

impl MmapOom {
    /// Bytes requested from the kernel on each out-of-memory event.
    pub fn request_size(&self) -> (n: usize)
        ensures
            n == OOM_MAP_SIZE,
    {
        OOM_MAP_SIZE
    }

    /// The span to give the heap after the mapping call returned `ret`: none
    /// when the call failed (a result that is not a positive `isize`), else
    /// the mapped base and `OOM_MAP_SIZE` bytes.
    pub fn handle_oom(&self, ret: usize) -> (span: Option<(usize, usize)>)
        ensures
            ret == 0 || ret > isize::MAX ==> span is None,
            0 < ret <= isize::MAX ==> span == Some((ret, OOM_MAP_SIZE)),
    {
        if ret == 0 || ret > isize::MAX as usize {
            None
        } else {
            Some((ret, OOM_MAP_SIZE))
        }
    }
}

/// Law: `free` returns a block with the size `malloc` made it with, also
/// after the cache handed it to another request: the capacity in a cacheable
/// block's header is the same for every request of its size class, holds each
/// of them, and gives back the block size the block was made with.
pub proof fn law_malloc_free_sizes_agree(size: usize, size2: usize)
    requires
        0 < size <= CACHE_MAX_SIZE,
        0 < size2 <= CACHE_MAX_SIZE,
        crate::tls_cache::class_of(size2) == crate::tls_cache::class_of(size),
    ensures
        malloc_capacity(size) == malloc_capacity(size2),
        malloc_capacity(size2) >= size2,
        block_total(malloc_capacity(size) as usize) == Some((malloc_capacity(size) + MALLOC_HEADER) as usize),
{
}

} // verus!
