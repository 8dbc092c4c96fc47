//! Page provider abstraction.
//!
//! In a real kernel, pages come from the physical frame allocator. This module
//! defines the [`PageProvider`] trait so that the slab allocator stays
//! decoupled from the actual page source, and a bump provider that hands out
//! the pages of one fixed region.
//!
//! Addresses are plain `usize` values, and `0` is the null address.
use vstd::prelude::*;
use crate::sync::{guarded, lock, new_mutex};

verus! {

/// Standard page size in bytes (4 KiB).
pub const PAGE_SIZE: usize = 4096;

/// A page address that a provider may hand out: `PAGE_SIZE`-aligned and
/// with the whole page below the top of the address space.
pub open spec fn usable_page(page: int) -> bool {
    &&& page % PAGE_SIZE as int == 0
    &&& page + PAGE_SIZE <= usize::MAX
}

/// Source of raw pages for the slab allocator.
///
/// An implementation hands out pages that are not in use anywhere else, and
/// takes back only pages that it handed out.
pub trait PageProvider {
    /// Allocate a single page.
    ///
    /// Returns the address of the start of a `PAGE_SIZE`-byte region, or `0`
    /// if allocation fails.
    fn alloc_page(&self) -> (page: usize)
        ensures
            page == 0 || (page > 0 && usable_page(page as int)),
    ;

    /// Deallocate a page previously handed out by `alloc_page`.
    fn dealloc_page(&self, page: usize);
}

/// Offset of the first byte at or after `addr` that is `PAGE_SIZE`-aligned.
pub open spec fn align_up_offset(addr: int) -> int {
    (PAGE_SIZE - addr % PAGE_SIZE as int) % PAGE_SIZE as int
}

/// Where the next page starts after one hand-out from `offset` in a region
/// of `len` bytes: one page further on, or unchanged when no whole page is
/// left.
pub open spec fn next_offset(len: int, offset: int) -> int {
    if offset + PAGE_SIZE <= len {
        offset + PAGE_SIZE
    } else {
        offset
    }
}

/// Where the next page starts after `k` hand-outs from the start of a
/// region of `len` bytes.
pub open spec fn offset_after(len: int, k: nat) -> int
    decreases k,
{
    if k == 0 {
        0
    } else {
        next_offset(len, offset_after(len, (k - 1) as nat))
    }
}

/// A region of `len` bytes yields exactly `len / PAGE_SIZE` pages, one after
/// the other: hand-out number `k` (from zero) gives the page at offset
/// `k * PAGE_SIZE` while `(k + 1) * PAGE_SIZE <= len`, and nothing after
/// that.
pub proof fn lemma_bump_sequence(len: int, k: nat)
    requires
        len >= 0,
    ensures
        k * PAGE_SIZE <= len ==> offset_after(len, k) == k * PAGE_SIZE,
        k * PAGE_SIZE > len ==> offset_after(len, k) == (len / PAGE_SIZE as int) * PAGE_SIZE,
        offset_after(len, k) + PAGE_SIZE <= len <==> (k + 1) * PAGE_SIZE <= len,
    decreases k,
{
    let q = len / PAGE_SIZE as int;
    vstd::arithmetic::div_mod::lemma_fundamental_div_mod(len, PAGE_SIZE as int);
    if k > 0 {
        lemma_bump_sequence(len, (k - 1) as nat);
    }
    assert(k * PAGE_SIZE <= len ==> k <= q) by (nonlinear_arith)
        requires
            len == PAGE_SIZE * q + len % PAGE_SIZE as int,
            0 <= len % (PAGE_SIZE as int) < PAGE_SIZE,
    ;
    assert(k * PAGE_SIZE > len ==> k > q) by (nonlinear_arith)
        requires
            len == PAGE_SIZE * q + len % PAGE_SIZE as int,
            0 <= len % (PAGE_SIZE as int) < PAGE_SIZE,
            q >= 0,
    ;
}

/// The offset, within the provider's region, of the next page to hand out.
struct NextPage {
    offset: usize,
}

impl NextPage {
    #[verifier::type_invariant]
    spec fn aligned(self) -> bool {
        self.offset % PAGE_SIZE == 0
    }
}

/// A page provider that hands out the pages of one fixed region, one after
/// the other.
///
/// This is useful for testing and for environments where no dynamic page
/// allocator exists yet. Pages are handed out sequentially and never truly
/// freed (bump allocator style).
pub struct StaticPageProvider<const N: usize> {
    /// Address of the first page-aligned byte of the backing storage.
    heap: usize,
    /// Offset of the next free page, behind a lock.
    offset: spin::Mutex<NextPage>,
    /// Number of bytes from `heap` to the end of the backing storage.
    capacity: usize,
}

impl<const N: usize> StaticPageProvider<N> {
    #[verifier::type_invariant]
    spec fn region_fits(self) -> bool {
        self.capacity > 0 ==> {
            &&& self.heap > 0
            &&& self.heap % PAGE_SIZE == 0
            &&& self.heap + self.capacity <= usize::MAX
        }
    }

    /// Address of the first page-aligned byte of the region.
    pub closed spec fn region_start(self) -> int {
        self.heap as int
    }

    /// Number of bytes of the region that pages are cut from.
    pub closed spec fn region_len(self) -> int {
        self.capacity as int
    }

    /// Create a provider over the `N` bytes of storage that start at address
    /// `heap_start`.
    ///
    /// Pages are cut from the storage starting at its first `PAGE_SIZE`-aligned
    /// byte. The storage must not be used elsewhere while the provider is in
    /// use, and must lie below the top of the address space.
    pub fn new(heap_start: usize) -> (provider: Self)
        requires
            heap_start > 0,
            heap_start + N <= usize::MAX,
        ensures
            provider.region_start() == if heap_start + align_up_offset(heap_start as int)
                <= usize::MAX {
                heap_start + align_up_offset(heap_start as int)
            } else {
                heap_start + align_up_offset(heap_start as int) - (usize::MAX + 1)
            },
            provider.region_len() == if align_up_offset(heap_start as int) <= N {
                N - align_up_offset(heap_start as int)
            } else {
                0
            },
            provider.region_len() > 0 ==> provider.region_start() > 0 && provider.region_start()
                % PAGE_SIZE as int == 0,
    {
        let align_offset = (PAGE_SIZE - heap_start % PAGE_SIZE) % PAGE_SIZE;
        let heap = heap_start.wrapping_add(align_offset);
        let capacity = N.saturating_sub(align_offset);
        proof {
            if capacity > 0 {
                assert(heap == heap_start + align_offset);
                assert(heap % PAGE_SIZE == 0);
            }
        }
        StaticPageProvider { heap, offset: new_mutex(NextPage { offset: 0 }), capacity }
    }

    /// The bump step: with the next free page at `offset` in the region,
    /// returns that page's address and the offset after it, or `None` when
    /// no whole page is left at `offset`.
    pub fn bump(&self, offset: usize) -> (step: Option<(usize, usize)>)
        ensures
            match step {
                None => offset + PAGE_SIZE > self.region_len(),
                Some((page, next)) => {
                    &&& offset + PAGE_SIZE <= self.region_len()
                    &&& page == self.region_start() + offset
                    &&& next == offset + PAGE_SIZE
                },
            },
    {
        proof {
            use_type_invariant(self);
        }
        if offset > self.capacity || self.capacity - offset < PAGE_SIZE {
            return None;
        }
        Some((self.heap + offset, offset + PAGE_SIZE))
    }

    /// Hands out the page at `next`'s offset and moves `next` past it, or
    /// returns `0` and leaves `next` as it is when no whole page is left.
    fn take_page(&self, next: &mut NextPage) -> (page: usize)
        ensures
            old(next).offset + PAGE_SIZE > self.region_len() ==> page == 0 && final(next).offset
                == old(next).offset,
            old(next).offset + PAGE_SIZE <= self.region_len() ==> page == self.region_start() + old(
            next).offset && final(next).offset == old(next).offset + PAGE_SIZE,
            final(next).offset == next_offset(self.region_len(), old(next).offset as int),
            page != 0 ==> page > 0 && usable_page(page as int),
    {
        proof {
            use_type_invariant(self);
            use_type_invariant(&*next);
        }
        match self.bump(next.offset) {
            None => 0,
            Some((page, after)) => {
                *next = NextPage { offset: after };
                page
            },
        }
    }
}

impl<const N: usize> PageProvider for StaticPageProvider<N> {
    /// Hands out the next page of the region, or `0` once the region is used
    /// up. Every page handed out lies within the region, at a whole number of
    /// pages from its start; a region shorter than a page gives none.
    fn alloc_page(&self) -> (page: usize)
        ensures
            page != 0 ==> self.region_start() <= page && page + PAGE_SIZE <= self.region_start()
                + self.region_len(),
            page != 0 ==> (page - self.region_start()) % PAGE_SIZE as int == 0,
            self.region_len() < PAGE_SIZE ==> page == 0,
    {
        proof {
            use_type_invariant(self);
        }
        let mut guard = lock(&self.offset);
        let next = guarded(&mut guard);
        proof {
            use_type_invariant(&*next);
        }
        self.take_page(next)
    }

    /// Pages are not individually freed: this does nothing.
    fn dealloc_page(&self, page: usize) {
    }
}

} // verus!
