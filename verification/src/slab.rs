//! Slab: a single page divided into fixed-size object slots.
//!
//! A slab occupies exactly one page ([`PAGE_SIZE`] bytes). It is divided into
//! `PAGE_SIZE / slot_size` equally-sized slots, each of which can hold one
//! object. The free slots form a last-in, first-out list: the slot freed most
//! recently is the next one handed out, and a fresh slab hands its slots out
//! from the start of the page upwards.
//!
//! Addresses are plain `usize` values, and `0` is the null address.
use vstd::prelude::*;
use vstd::arithmetic::div_mod::{lemma_fundamental_div_mod, lemma_mod_multiples_vanish};
use vstd::arithmetic::mul::lemma_mul_inequality;
use crate::page::PAGE_SIZE;

verus! {

/// The smallest slot, in bytes: a free slot must be able to hold the
/// address of the next one.
pub open spec fn min_slot_bytes() -> int {
    usize::BITS as int / 8
}

/// The size of an address, which is the smallest slot size.
fn min_slot_size() -> (size: usize)
    ensures
        size == min_slot_bytes(),
{
    broadcast use vstd::layout::layout_of_primitives;

    core::mem::size_of::<usize>()
}

/// The slot size that a slab made for objects of `object_size` bytes uses.
pub open spec fn slot_size_for(object_size: int) -> int {
    if object_size > min_slot_bytes() {
        object_size
    } else {
        min_slot_bytes()
    }
}

/// The slot size is the object size, raised to the size of an address when
/// it is smaller: never less than either, and always equal to one of them.
pub proof fn lemma_slot_size(object_size: int)
    ensures
        slot_size_for(object_size) >= object_size,
        slot_size_for(object_size) >= min_slot_bytes(),
        slot_size_for(object_size) == object_size || slot_size_for(object_size)
            == min_slot_bytes(),
{
}

/// The abstract state of a slab.
///
/// `free` holds the indices of the free slots; its last element is the slot
/// that is handed out next.
pub struct SlabView {
    pub page: int,
    pub slot_size: int,
    pub total_slots: int,
    pub used_slots: int,
    pub free: Seq<usize>,
}

impl SlabView {
    /// The state of a well-formed slab: the page lies in the address space,
    /// the slots tile a prefix of it, and every slot is either free (listed
    /// once in `free`) or counted in `used_slots`.
    pub open spec fn wf(self) -> bool {
        &&& 0 < self.page
        &&& self.page + PAGE_SIZE <= usize::MAX
        &&& min_slot_bytes() <= self.slot_size <= PAGE_SIZE
        &&& self.total_slots == PAGE_SIZE as int / self.slot_size
        &&& self.total_slots >= 1
        &&& 0 <= self.used_slots
        &&& self.used_slots + self.free.len() == self.total_slots
        &&& self.free.no_duplicates()
        &&& forall|i: int| 0 <= i < self.free.len() ==> self.free[i] < self.total_slots
    }

    /// Address of slot `k`.
    pub open spec fn slot_addr(self, k: int) -> int {
        self.page + k * self.slot_size
    }

    /// Index of the slot that starts at `addr`.
    pub open spec fn slot_index(self, addr: int) -> int {
        (addr - self.page) / self.slot_size
    }

    /// `addr` is the start of one of the slab's slots.
    pub open spec fn is_slot(self, addr: int) -> bool {
        &&& self.page <= addr
        &&& (addr - self.page) % self.slot_size == 0
        &&& self.slot_index(addr) < self.total_slots
    }

    /// `addr` is the start of a slot that is currently handed out.
    pub open spec fn is_allocated(self, addr: int) -> bool {
        self.is_slot(addr) && !self.free.contains(self.slot_index(addr) as usize)
    }

    /// `addr` falls within the slab's page.
    pub open spec fn contains(self, addr: int) -> bool {
        self.page <= addr < self.page + PAGE_SIZE
    }

    pub open spec fn is_full(self) -> bool {
        self.used_slots == self.total_slots
    }

    pub open spec fn is_empty(self) -> bool {
        self.used_slots == 0
    }

    /// Address of the slot that the next allocation hands out.
    pub open spec fn next_slot(self) -> int {
        self.slot_addr(self.free.last() as int)
    }

    /// The slab after handing out its next free slot.
    pub open spec fn after_alloc(self) -> SlabView {
        SlabView { free: self.free.drop_last(), used_slots: self.used_slots + 1, ..self }
    }

    /// The slab after the slot at `addr` has been given back.
    pub open spec fn after_dealloc(self, addr: int) -> SlabView {
        SlabView {
            free: self.free.push(self.slot_index(addr) as usize),
            used_slots: self.used_slots - 1,
            ..self
        }
    }
}

/// A fresh slab on `page` for objects of `object_size` bytes: no slot is
/// used, and slots are handed out from slot 0 upwards.
pub open spec fn fresh_slab(page: int, object_size: int) -> SlabView {
    let slot_size = slot_size_for(object_size);
    let total = PAGE_SIZE as int / slot_size;
    SlabView {
        page,
        slot_size,
        total_slots: total,
        used_slots: 0,
        free: Seq::new(total as nat, |i: int| (total - 1 - i) as usize),
    }
}

/// The slots of a well-formed slab lie within its page.
pub proof fn lemma_slot_in_page(v: SlabView, k: int)
    requires
        v.wf(),
        0 <= k < v.total_slots,
    ensures
        0 <= k * v.slot_size,
        k * v.slot_size + v.slot_size <= v.total_slots * v.slot_size,
        v.total_slots * v.slot_size <= PAGE_SIZE,
        v.page < v.slot_addr(k) + v.slot_size <= v.page + PAGE_SIZE,
        v.is_slot(v.slot_addr(k)),
        v.slot_index(v.slot_addr(k)) == k,
{
    lemma_fundamental_div_mod(PAGE_SIZE as int, v.slot_size);
    lemma_mul_inequality(k + 1, v.total_slots, v.slot_size);
    assert(0 <= k * v.slot_size) by (nonlinear_arith)
        requires
            0 <= k,
            0 < v.slot_size,
    ;
    assert((k + 1) * v.slot_size == k * v.slot_size + v.slot_size) by (nonlinear_arith);
    assert(v.total_slots * v.slot_size == v.slot_size * v.total_slots) by (nonlinear_arith);
    lemma_mod_multiples_vanish(k, 0, v.slot_size);
    assert((k * v.slot_size) / v.slot_size == k) by (nonlinear_arith)
        requires
            0 < v.slot_size,
    ;
    assert(v.slot_size * k == k * v.slot_size) by (nonlinear_arith);
}

/// A well-formed slab with a slot outside its free list has a used slot.
pub proof fn lemma_free_bound(v: SlabView, k: usize)
    requires
        v.wf(),
        k < v.total_slots,
        !v.free.contains(k),
    ensures
        v.free.len() < v.total_slots,
        v.used_slots > 0,
{
    broadcast use vstd::set_lib::range_set_properties;

    let all = Set::<usize>::range(0, v.total_slots as usize);
    v.free.unique_seq_to_set();
    assert(v.free.to_set().subset_of(all.remove(k)));
    assert(all.contains(k));
    vstd::set_lib::lemma_len_subset(v.free.to_set(), all.remove(k));
}

/// The slots of the slab that are handed out, by index.
pub open spec fn allocated_indices(v: SlabView) -> Set<usize> {
    Set::new(|k: usize| k < v.total_slots && !v.free.contains(k))
}

/// The slab after `n` allocations in a row.
pub open spec fn after_allocs(v: SlabView, n: nat) -> SlabView
    decreases n,
{
    if n == 0 {
        v
    } else {
        after_allocs(v, (n - 1) as nat).after_alloc()
    }
}

/// A slot address determines its index, and the index its address.
pub proof fn lemma_slot_index_inverse(v: SlabView, addr: int)
    requires
        v.wf(),
        v.is_slot(addr),
    ensures
        v.slot_addr(v.slot_index(addr)) == addr,
        0 <= v.slot_index(addr) < v.total_slots,
{
    lemma_fundamental_div_mod(addr - v.page, v.slot_size);
    assert(v.slot_index(addr) * v.slot_size == v.slot_size * v.slot_index(addr)) by (nonlinear_arith);
    assert(0 <= v.slot_index(addr)) by (nonlinear_arith)
        requires
            addr - v.page >= 0,
            v.slot_size > 0,
            v.slot_index(addr) == (addr - v.page) / v.slot_size,
    ;
}

/// `used_slots` counts exactly the slots that are handed out.
pub proof fn lemma_used_counts_allocated(v: SlabView)
    requires
        v.wf(),
    ensures
        allocated_indices(v).finite(),
        allocated_indices(v).len() == v.used_slots,
        forall|addr: int|
            v.is_allocated(addr) <==> v.is_slot(addr) && allocated_indices(v).contains(
                v.slot_index(addr) as usize,
            ),
{
    broadcast use vstd::set_lib::range_set_properties;

    let all = Set::<usize>::range(0, v.total_slots as usize);
    let free = v.free.to_set();
    v.free.unique_seq_to_set();
    assert(allocated_indices(v) =~= all.difference(free));
    assert(all.intersect(free) =~= free);
    vstd::set_lib::lemma_set_subset_finite(all, free);
    vstd::set_lib::lemma_set_difference_len(all, free);
    assert forall|addr: int|
        v.is_allocated(addr) <==> v.is_slot(addr) && allocated_indices(v).contains(
            v.slot_index(addr) as usize,
        ) by {
        if v.is_slot(addr) {
            lemma_slot_index_inverse(v, addr);
        }
    }
}

/// Allocation hands out a slot that was free and is allocated afterwards;
/// every other address keeps its state.
pub proof fn lemma_alloc_hands_out_free_slot(v: SlabView)
    requires
        v.wf(),
        !v.is_full(),
    ensures
        v.after_alloc().wf(),
        v.is_slot(v.next_slot()),
        !v.is_allocated(v.next_slot()),
        v.after_alloc().is_allocated(v.next_slot()),
        forall|addr: int|
            addr != v.next_slot() ==> v.after_alloc().is_allocated(addr) == v.is_allocated(addr),
{
    let k = v.free.last();
    let w = v.after_alloc();
    lemma_slot_in_page(v, k as int);
    assert(v.free[v.free.len() - 1] == k);
    assert(!w.free.contains(k)) by {
        if w.free.contains(k) {
            let j = choose|j: int| 0 <= j < w.free.len() && w.free[j] == k;
            assert(v.free[j] == v.free[v.free.len() - 1]);
        }
    }
    assert forall|a: int, b: int| 0 <= a < b < w.free.len() implies w.free[a] != w.free[b] by {
        assert(w.free[a] == v.free[a] && w.free[b] == v.free[b]);
    }
    assert forall|addr: int| addr != v.next_slot() implies w.is_allocated(addr) == v.is_allocated(
        addr,
    ) by {
        if v.is_slot(addr) {
            lemma_slot_index_inverse(v, addr);
            let i = v.slot_index(addr) as usize;
            assert(i != k);
            if v.free.contains(i) {
                let j = choose|j: int| 0 <= j < v.free.len() && v.free[j] == i;
                assert(w.free[j] == i);
            }
            if w.free.contains(i) {
                let j = choose|j: int| 0 <= j < w.free.len() && w.free[j] == i;
                assert(v.free[j] == i);
            }
        }
    }
}

/// Giving back an allocated slot frees exactly that slot; allocating right
/// afterwards hands out that same slot and restores the slab to its state
/// before the slot was given back.
pub proof fn lemma_dealloc_then_alloc(v: SlabView, addr: int)
    requires
        v.wf(),
        v.is_allocated(addr),
    ensures
        v.after_dealloc(addr).wf(),
        !v.after_dealloc(addr).is_allocated(addr),
        forall|a: int| a != addr ==> v.after_dealloc(addr).is_allocated(a) == v.is_allocated(a),
        !v.after_dealloc(addr).is_full(),
        v.after_dealloc(addr).next_slot() == addr,
        v.after_dealloc(addr).after_alloc() == v,
{
    let w = v.after_dealloc(addr);
    let k = v.slot_index(addr) as usize;
    lemma_slot_index_inverse(v, addr);
    lemma_free_bound(v, k);
    assert(w.free.last() == k);
    assert(w.free.drop_last() =~= v.free);
    assert forall|a: int, b: int| 0 <= a < b < w.free.len() implies w.free[a] != w.free[b] by {
        if b == w.free.len() - 1 {
            assert(v.free[a] == w.free[a]);
        } else {
            assert(v.free[a] == w.free[a] && v.free[b] == w.free[b]);
        }
    }
    assert(w.free[w.free.len() - 1] == k);
    assert forall|a: int| a != addr implies w.is_allocated(a) == v.is_allocated(a) by {
        if v.is_slot(a) {
            lemma_slot_index_inverse(v, a);
            let i = v.slot_index(a) as usize;
            assert(i != k);
            if w.free.contains(i) {
                let j = choose|j: int| 0 <= j < w.free.len() && w.free[j] == i;
                assert(v.free[j] == i);
            }
            if v.free.contains(i) {
                let j = choose|j: int| 0 <= j < v.free.len() && v.free[j] == i;
                assert(w.free[j] == i);
            }
        }
    }
}

/// Allocating and then giving the slot back restores the slab.
pub proof fn lemma_alloc_then_dealloc(v: SlabView)
    requires
        v.wf(),
        !v.is_full(),
    ensures
        v.after_alloc().is_allocated(v.next_slot()),
        v.after_alloc().after_dealloc(v.next_slot()) == v,
{
    lemma_alloc_hands_out_free_slot(v);
    let k = v.free.last();
    lemma_slot_in_page(v, k as int);
    assert(v.free.drop_last().push(k) =~= v.free);
}

/// A slot lies in the slab's page, and two different slots do not overlap.
pub proof fn lemma_slots_apart(v: SlabView, a: int, b: int)
    requires
        v.wf(),
        v.is_slot(a),
        v.is_slot(b),
    ensures
        v.page <= a,
        a + v.slot_size <= v.page + PAGE_SIZE,
        a != b ==> a + v.slot_size <= b || b + v.slot_size <= a,
{
    lemma_slot_index_inverse(v, a);
    lemma_slot_index_inverse(v, b);
    let ka = v.slot_index(a);
    let kb = v.slot_index(b);
    lemma_slot_in_page(v, ka);
    lemma_slot_in_page(v, kb);
    if ka < kb {
        assert((ka + 1) * v.slot_size <= kb * v.slot_size) by (nonlinear_arith)
            requires
                ka + 1 <= kb,
                v.slot_size > 0,
        ;
        assert((ka + 1) * v.slot_size == ka * v.slot_size + v.slot_size) by (nonlinear_arith);
    } else if kb < ka {
        assert((kb + 1) * v.slot_size <= ka * v.slot_size) by (nonlinear_arith)
            requires
                kb + 1 <= ka,
                v.slot_size > 0,
        ;
        assert((kb + 1) * v.slot_size == kb * v.slot_size + v.slot_size) by (nonlinear_arith);
    }
}

/// A fresh slab cuts its page into as many whole slots as fit, each as
/// large as the object size or an address, whichever is larger.
pub proof fn lemma_fresh_slab_fills_page(page: int, object_size: int)
    requires
        0 <= object_size <= PAGE_SIZE,
    ensures
        fresh_slab(page, object_size).slot_size >= object_size,
        fresh_slab(page, object_size).slot_size >= min_slot_bytes(),
        fresh_slab(page, object_size).slot_size == object_size || fresh_slab(
            page,
            object_size,
        ).slot_size == min_slot_bytes(),
        fresh_slab(page, object_size).total_slots * fresh_slab(page, object_size).slot_size
            <= PAGE_SIZE,
        PAGE_SIZE < (fresh_slab(page, object_size).total_slots + 1) * fresh_slab(
            page,
            object_size,
        ).slot_size,
{
    let f = fresh_slab(page, object_size);
    lemma_slot_size(object_size);
    assert(usize::BITS == 32 || usize::BITS == 64);
    lemma_fundamental_div_mod(PAGE_SIZE as int, f.slot_size);
    assert(f.total_slots * f.slot_size == f.slot_size * f.total_slots) by (nonlinear_arith);
    assert((f.total_slots + 1) * f.slot_size == f.slot_size * f.total_slots + f.slot_size)
        by (nonlinear_arith);
}

/// A fresh slab is well-formed and empty, and hands out its slots in
/// address order from the start of the page: allocation number `n` (from
/// zero) returns slot `n`, until all slots are handed out.
pub proof fn lemma_fresh_slab_order(page: int, object_size: int, n: nat)
    requires
        0 < page,
        page + PAGE_SIZE <= usize::MAX,
        0 <= object_size <= PAGE_SIZE,
        n < fresh_slab(page, object_size).total_slots,
    ensures
        fresh_slab(page, object_size).wf(),
        fresh_slab(page, object_size).is_empty(),
        after_allocs(fresh_slab(page, object_size), n).wf(),
        !after_allocs(fresh_slab(page, object_size), n).is_full(),
        after_allocs(fresh_slab(page, object_size), n).next_slot() == page + n * fresh_slab(
            page,
            object_size,
        ).slot_size,
    decreases n,
{
    let f = fresh_slab(page, object_size);
    assert(f.total_slots >= 1) by (nonlinear_arith)
        requires
            f.total_slots == PAGE_SIZE as int / f.slot_size,
            0 < f.slot_size <= PAGE_SIZE,
    ;
    assert forall|a: int, b: int| 0 <= a < b < f.free.len() implies f.free[a] != f.free[b] by {}
    lemma_after_allocs_fresh(f, n);
}

/// After `n` allocations from a fresh slab, the free list holds the slots
/// from the last down to slot `n`.
proof fn lemma_after_allocs_fresh(f: SlabView, n: nat)
    requires
        f.wf(),
        f.used_slots == 0,
        forall|i: int| 0 <= i < f.free.len() ==> f.free[i] == f.total_slots - 1 - i,
        n <= f.total_slots,
    ensures
        after_allocs(f, n).wf(),
        after_allocs(f, n).used_slots == n,
        after_allocs(f, n).free =~= f.free.take(f.total_slots - n),
        n < f.total_slots ==> after_allocs(f, n).next_slot() == f.page + n * f.slot_size,
        n < f.total_slots ==> !after_allocs(f, n).is_full(),
        after_allocs(f, n).page == f.page,
        after_allocs(f, n).slot_size == f.slot_size,
        after_allocs(f, n).total_slots == f.total_slots,
    decreases n,
{
    if n > 0 {
        lemma_after_allocs_fresh(f, (n - 1) as nat);
        let prev = after_allocs(f, (n - 1) as nat);
        lemma_alloc_hands_out_free_slot(prev);
    }
    let cur = after_allocs(f, n);
    if n < f.total_slots {
        assert(cur.free.last() == f.free[f.total_slots - n - 1]);
    }
}

/// A slab manages a single page of fixed-size slots.
pub struct Slab {
    /// Address of the page backing this slab.
    page_ptr: usize,
    /// Size of each slot in bytes.
    slot_size: usize,
    /// Number of slots in this slab.
    total_slots: usize,
    /// Number of currently allocated (used) slots.
    used_slots: usize,
    /// Indices of the free slots; the last one is handed out next.
    free: Vec<usize>,
}

impl View for Slab {
    type V = SlabView;

    closed spec fn view(&self) -> SlabView {
        SlabView {
            page: self.page_ptr as int,
            slot_size: self.slot_size as int,
            total_slots: self.total_slots as int,
            used_slots: self.used_slots as int,
            free: self.free@,
        }
    }
}

impl Slab {
    /// Initialize a new slab on top of the page at address `page`.
    ///
    /// The page is divided into slots of `object_size` bytes (at least the
    /// size of an address), and all of them are free. The page must be
    /// non-null, lie below the top of the address space, and be large enough
    /// for one slot.
    pub fn new(page: usize, object_size: usize) -> (slab: Self)
        requires
            page > 0,
            page + PAGE_SIZE <= usize::MAX,
            object_size <= PAGE_SIZE,
        ensures
            slab@ == fresh_slab(page as int, object_size as int),
            slab@.wf(),
    {
        let min = min_slot_size();
        let slot_size = if object_size > min {
            object_size
        } else {
            min
        };
        let total_slots = PAGE_SIZE / slot_size;
        // The free list is built so that slot 0 is handed out first.
        let mut free: Vec<usize> = Vec::new();
        let mut i: usize = 0;
        while i < total_slots
            invariant
                i <= total_slots,
                free@.len() == i,
                forall|j: int| 0 <= j < i ==> free@[j] == total_slots - 1 - j,
            decreases total_slots - i,
        {
            free.push(total_slots - 1 - i);
            i = i + 1;
        }
        let slab = Slab { page_ptr: page, slot_size, total_slots, used_slots: 0, free };
        proof {
            let fresh = fresh_slab(page as int, object_size as int);
            assert(total_slots >= 1) by (nonlinear_arith)
                requires
                    total_slots == PAGE_SIZE as int / slot_size as int,
                    0 < slot_size <= PAGE_SIZE,
            ;
            assert(slab@.free =~= fresh.free);
            assert forall|a: int, b: int| 0 <= a < b < slab@.free.len() implies slab@.free[a]
                != slab@.free[b] by {}
        }
        slab
    }

    /// Allocate one object slot from this slab.
    ///
    /// Returns the address of the slot at the head of the free list, or `0`
    /// if the slab is full.
    pub fn allocate(&mut self) -> (slot: usize)
        requires
            old(self)@.wf(),
        ensures
            final(self)@.wf(),
            slot == 0 <==> old(self)@.is_full(),
            old(self)@.is_full() ==> final(self)@ == old(self)@,
            !old(self)@.is_full() ==> slot == old(self)@.next_slot() && final(self)@ == old(
                self,
            )@.after_alloc(),
    {
        if self.free.len() == 0 {
            return 0;
        }
        let ghost v = self@;
        let k = self.free.pop().unwrap();
        proof {
            lemma_slot_in_page(v, k as int);
            assert(v.free.drop_last() =~= self.free@);
            assert forall|a: int, b: int| 0 <= a < b < self.free@.len() implies self.free@[a]
                != self.free@[b] by {
                assert(self.free@[a] == v.free[a] && self.free@[b] == v.free[b]);
            }
        }
        self.used_slots = self.used_slots + 1;
        self.page_ptr + k * self.slot_size
    }

    /// Deallocate an object slot, returning it to the head of the free list.
    ///
    /// `ptr` must be the address of a slot of this slab that is currently
    /// allocated (no double free).
    pub fn dealloc(&mut self, ptr: usize)
        requires
            old(self)@.wf(),
            old(self)@.is_allocated(ptr as int),
        ensures
            final(self)@.wf(),
            final(self)@ == old(self)@.after_dealloc(ptr as int),
    {
        let ghost v = self@;
        let k = (ptr - self.page_ptr) / self.slot_size;
        proof {
            lemma_free_bound(v, k);
        }
        self.free.push(k);
        self.used_slots = self.used_slots - 1;
        proof {
            assert forall|a: int, b: int| 0 <= a < b < self.free@.len() implies self.free@[a]
                != self.free@[b] by {
                if b == self.free@.len() - 1 {
                    assert(v.free[a] == self.free@[a]);
                } else {
                    assert(v.free[a] == self.free@[a] && v.free[b] == self.free@[b]);
                }
            }
        }
    }

    /// Returns `true` if `ptr` is the address of one of this slab's slots
    /// that is currently allocated.
    pub fn is_allocated(&self, ptr: usize) -> (allocated: bool)
        requires
            self@.wf(),
        ensures
            allocated == self@.is_allocated(ptr as int),
    {
        if ptr < self.page_ptr {
            return false;
        }
        let offset = ptr - self.page_ptr;
        if offset % self.slot_size != 0 {
            return false;
        }
        let k = offset / self.slot_size;
        if k >= self.total_slots {
            return false;
        }
        let mut j: usize = 0;
        while j < self.free.len()
            invariant
                j <= self.free@.len(),
                self@.is_slot(ptr as int),
                self@.slot_index(ptr as int) == k,
                forall|i: int| 0 <= i < j ==> self.free@[i] != k,
            decreases self.free@.len() - j,
        {
            if self.free[j] == k {
                assert(self@.free[j as int] == k);
                return false;
            }
            j = j + 1;
        }
        assert(!self@.free.contains(k));
        true
    }

    /// Returns `true` if all slots are allocated.
    pub fn is_full(&self) -> (full: bool)
        ensures
            full == self@.is_full(),
    {
        self.used_slots == self.total_slots
    }

    /// Returns `true` if no slots are allocated.
    pub fn is_empty(&self) -> (empty: bool)
        ensures
            empty == self@.is_empty(),
    {
        self.used_slots == 0
    }

    /// Returns the total number of slots in this slab.
    pub fn total_slots(&self) -> (n: usize)
        ensures
            n == self@.total_slots,
    {
        self.total_slots
    }

    /// Returns the number of currently used slots.
    pub fn used_slots(&self) -> (n: usize)
        ensures
            n == self@.used_slots,
    {
        self.used_slots
    }

    /// Returns the address of the page backing this slab.
    pub fn page_ptr(&self) -> (page: usize)
        ensures
            page == self@.page,
    {
        self.page_ptr
    }

    /// Returns `true` if `ptr` falls within this slab's page.
    pub fn contains(&self, ptr: usize) -> (inside: bool)
        ensures
            inside == self@.contains(ptr as int),
    {
        let start = self.page_ptr;
        ptr >= start && ptr - start < PAGE_SIZE
    }
}

} // verus!
