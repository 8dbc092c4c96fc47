//! Cache: manages a collection of slabs for a single object size.
//!
//! A cache holds slabs that all serve the same slot size. When every slab is
//! full, the caller hands the cache a new page and the cache makes a new slab
//! of it. A cache holds at most [`MAX_SLABS_PER_CACHE`] slabs, and slabs are
//! never taken out of it, so they stay in the order in which they were added.
use vstd::prelude::*;
use crate::page::PAGE_SIZE;
use crate::slab::{
    fresh_slab, lemma_alloc_hands_out_free_slot, lemma_slot_in_page,
    lemma_slots_apart, slot_size_for, Slab, SlabView,
};

verus! {

/// Maximum number of slabs per cache.
///
/// This limits how much memory a single size class can use.
pub const MAX_SLABS_PER_CACHE: usize = 32;

/// The pages at `p` and `q` do not overlap.
pub open spec fn pages_apart(p: int, q: int) -> bool {
    p + PAGE_SIZE <= q || q + PAGE_SIZE <= p
}

/// The abstract state of a cache: the object size it serves and its slabs,
/// in the order in which they were added.
pub struct CacheView {
    pub object_size: int,
    pub slabs: Seq<SlabView>,
}

impl CacheView {
    /// A well-formed cache: at most `MAX_SLABS_PER_CACHE` well-formed slabs,
    /// all with the slot size of the cache's objects, on pages that do not
    /// overlap.
    pub open spec fn wf(self) -> bool {
        &&& self.slabs.len() <= MAX_SLABS_PER_CACHE
        &&& forall|i: int|
            0 <= i < self.slabs.len() ==> {
                &&& (#[trigger] self.slabs[i]).wf()
                &&& self.slabs[i].slot_size == slot_size_for(self.object_size)
            }
        &&& forall|i: int, j: int|
            0 <= i < j < self.slabs.len() ==> pages_apart(
                (#[trigger] self.slabs[i]).page,
                (#[trigger] self.slabs[j]).page,
            )
    }

    /// The page at `page` overlaps no page of the cache's slabs.
    pub open spec fn page_unused(self, page: int) -> bool {
        forall|j: int| 0 <= j < self.slabs.len() ==> pages_apart((#[trigger] self.slabs[j]).page, page)
    }

    /// Some slab of the cache has the slot at `addr` handed out.
    pub open spec fn is_live(self, addr: int) -> bool {
        exists|j: int| 0 <= j < self.slabs.len() && (#[trigger] self.slabs[j]).is_allocated(addr)
    }

    /// The slabs lie on the same pages as those of `other`, in the same order.
    pub open spec fn same_pages(self, other: CacheView) -> bool {
        &&& self.slabs.len() == other.slabs.len()
        &&& forall|j: int| 0 <= j < self.slabs.len() ==> (#[trigger] self.slabs[j]).page == other.slabs[j].page
    }

    /// Every slab is full (true of a cache without slabs).
    pub open spec fn all_full(self) -> bool {
        forall|j: int| 0 <= j < self.slabs.len() ==> (#[trigger] self.slabs[j]).is_full()
    }

    /// Slab `i` is the first slab that is not full.
    pub open spec fn first_not_full(self, i: int) -> bool {
        &&& 0 <= i < self.slabs.len()
        &&& !self.slabs[i].is_full()
        &&& forall|j: int| 0 <= j < i ==> (#[trigger] self.slabs[j]).is_full()
    }

    /// Slab `i` is the first slab whose page holds `addr`.
    pub open spec fn first_containing(self, i: int, addr: int) -> bool {
        &&& 0 <= i < self.slabs.len()
        &&& self.slabs[i].contains(addr)
        &&& forall|j: int| 0 <= j < i ==> !(#[trigger] self.slabs[j]).contains(addr)
    }

    /// `addr` may be given back: where a slab's page holds it, the first such
    /// slab has it allocated.
    pub open spec fn may_dealloc(self, addr: int) -> bool {
        forall|i: int| #[trigger] self.first_containing(i, addr) ==> self.slabs[i].is_allocated(addr)
    }

    /// No slab's page holds `addr`.
    pub open spec fn owns_none(self, addr: int) -> bool {
        forall|j: int| 0 <= j < self.slabs.len() ==> !(#[trigger] self.slabs[j]).contains(addr)
    }

    /// The cache after slab `i` handed out its next slot.
    pub open spec fn after_alloc_in(self, i: int) -> CacheView {
        CacheView { slabs: self.slabs.update(i, self.slabs[i].after_alloc()), ..self }
    }

    /// The cache after a new slab on `page` was added and handed out its
    /// first slot.
    pub open spec fn after_add_slab(self, page: int) -> CacheView {
        CacheView {
            slabs: self.slabs.push(fresh_slab(page, self.object_size).after_alloc()),
            ..self
        }
    }

    /// The cache after slab `i` took back the slot at `addr`.
    pub open spec fn after_dealloc_in(self, i: int, addr: int) -> CacheView {
        CacheView { slabs: self.slabs.update(i, self.slabs[i].after_dealloc(addr)), ..self }
    }
}

/// The slot that the first slab with room hands out is live in no slab.
proof fn lemma_fresh_slot_not_live(v: CacheView, i: int)
    requires
        v.wf(),
        v.first_not_full(i),
    ensures
        !v.is_live(v.slabs[i].next_slot()),
{
    let s = v.slabs[i];
    let p = s.next_slot();
    lemma_alloc_hands_out_free_slot(s);
    lemma_slots_apart(s, p, p);
    assert forall|j: int| 0 <= j < v.slabs.len() implies !(#[trigger] v.slabs[j]).is_allocated(p) by {
        if j != i && v.slabs[j].is_slot(p) {
            lemma_slots_apart(v.slabs[j], p, p);
            if j < i {
                assert(pages_apart(v.slabs[j].page, s.page));
            } else {
                assert(pages_apart(s.page, v.slabs[j].page));
            }
        }
    }
}

/// Handing out a slot and then giving it back returns `true` for that
/// slot's slab and restores the cache: the slab that handed the slot out is
/// the first whose page holds it, and the slot may be given back.
pub proof fn lemma_cache_alloc_then_dealloc(v: CacheView, i: int)
    requires
        v.wf(),
        v.first_not_full(i),
    ensures
        v.after_alloc_in(i).first_containing(i, v.slabs[i].next_slot()),
        v.after_alloc_in(i).may_dealloc(v.slabs[i].next_slot()),
        !v.after_alloc_in(i).owns_none(v.slabs[i].next_slot()),
        v.after_alloc_in(i).after_dealloc_in(i, v.slabs[i].next_slot()) == v,
{
    let s = v.slabs[i];
    let p = s.next_slot();
    let w = v.after_alloc_in(i);
    crate::slab::lemma_alloc_then_dealloc(s);
    lemma_alloc_hands_out_free_slot(s);
    lemma_slots_apart(s, p, p);
    assert(w.slabs[i] == s.after_alloc());
    assert(w.slabs[i].contains(p));
    assert forall|j: int| 0 <= j < i implies !(#[trigger] w.slabs[j]).contains(p) by {
        assert(w.slabs[j] == v.slabs[j]);
        assert(pages_apart(v.slabs[j].page, s.page));
    }
    assert forall|k: int| #[trigger] w.first_containing(k, p) implies w.slabs[k].is_allocated(p) by {
        if k < i {
            assert(!w.slabs[k].contains(p));
        } else if k > i {
            assert(w.slabs[i].contains(p));
        }
    }
    assert(w.after_dealloc_in(i, p).slabs =~= v.slabs);
}

/// A slab whose page holds `addr` is the only one: it is the first.
proof fn lemma_only_containing(v: CacheView, j: int, addr: int)
    requires
        v.wf(),
        0 <= j < v.slabs.len(),
        v.slabs[j].contains(addr),
    ensures
        v.first_containing(j, addr),
        forall|k: int| 0 <= k < v.slabs.len() && (#[trigger] v.slabs[k]).contains(addr) ==> k == j,
{
    assert forall|k: int| 0 <= k < v.slabs.len() && (#[trigger] v.slabs[k]).contains(addr)
        implies k == j by {
        if k < j {
            assert(pages_apart(v.slabs[k].page, v.slabs[j].page));
        } else if k > j {
            assert(pages_apart(v.slabs[j].page, v.slabs[k].page));
        }
    }
}

/// A well-formed cache takes back exactly its live slots and the addresses
/// on none of its pages; a live slot's slab is the first whose page holds it.
pub proof fn lemma_may_dealloc_iff_live(v: CacheView, a: int)
    requires
        v.wf(),
    ensures
        v.may_dealloc(a) <==> v.owns_none(a) || v.is_live(a),
        v.is_live(a) ==> exists|k: int|
            #[trigger] v.first_containing(k, a) && v.slabs[k].is_allocated(a),
{
    if v.is_live(a) {
        let j = choose|j: int| 0 <= j < v.slabs.len() && (#[trigger] v.slabs[j]).is_allocated(a);
        assert(v.slabs[j].wf());
        lemma_slots_apart(v.slabs[j], a, a);
        lemma_only_containing(v, j, a);
        assert forall|k: int| #[trigger] v.first_containing(k, a) implies v.slabs[k].is_allocated(
            a,
        ) by {
            assert(v.slabs[k].contains(a));
        }
    }
    if !v.owns_none(a) {
        let j = choose|j: int| 0 <= j < v.slabs.len() && (#[trigger] v.slabs[j]).contains(a);
        lemma_only_containing(v, j, a);
        if v.may_dealloc(a) {
            assert(v.slabs[j].is_allocated(a));
        }
    }
}

/// Giving back a live slot frees exactly that slot: every other address
/// keeps its state, and the cache stays well-formed.
pub proof fn lemma_dealloc_frees_exactly(v: CacheView, k: int, a: int)
    requires
        v.wf(),
        v.first_containing(k, a),
        v.slabs[k].is_allocated(a),
    ensures
        v.after_dealloc_in(k, a).wf(),
        forall|b: int|
            #[trigger] v.after_dealloc_in(k, a).is_live(b) <==> v.is_live(b) && b != a,
{
    let w = v.after_dealloc_in(k, a);
    let s = v.slabs[k];
    assert(s.wf());
    crate::slab::lemma_dealloc_then_alloc(s, a);
    assert forall|i: int| 0 <= i < w.slabs.len() implies (#[trigger] w.slabs[i]).wf()
        && w.slabs[i].slot_size == slot_size_for(w.object_size) by {
        if i != k {
            assert(w.slabs[i] == v.slabs[i]);
        }
    }
    assert forall|i: int, j: int| 0 <= i < j < w.slabs.len() implies pages_apart(
        (#[trigger] w.slabs[i]).page,
        (#[trigger] w.slabs[j]).page,
    ) by {
        assert(pages_apart(v.slabs[i].page, v.slabs[j].page));
    }
    assert forall|b: int| #[trigger] w.is_live(b) <==> v.is_live(b) && b != a by {
        if w.is_live(b) {
            let j = choose|j: int| 0 <= j < w.slabs.len() && (#[trigger] w.slabs[j]).is_allocated(b);
            if j == k {
                assert(v.slabs[k].is_allocated(b) && b != a);
            } else {
                assert(v.slabs[j].is_allocated(b));
                if b == a {
                    assert(v.slabs[j].wf());
                    lemma_slots_apart(v.slabs[j], b, b);
                    lemma_only_containing(v, k, a);
                }
            }
        }
        if v.is_live(b) && b != a {
            let j = choose|j: int| 0 <= j < v.slabs.len() && (#[trigger] v.slabs[j]).is_allocated(b);
            if j == k {
                assert(w.slabs[k].is_allocated(b));
            } else {
                assert(w.slabs[j].is_allocated(b));
            }
        }
    }
}

/// A slot given back is the next one the cache hands out when no earlier
/// slab has room.
pub proof fn lemma_freed_slot_next(v: CacheView, k: int, a: int)
    requires
        v.wf(),
        v.first_containing(k, a),
        v.slabs[k].is_allocated(a),
        forall|j: int| 0 <= j < k ==> (#[trigger] v.slabs[j]).is_full(),
    ensures
        v.after_dealloc_in(k, a).first_not_full(k),
        v.after_dealloc_in(k, a).slabs[k].next_slot() == a,
{
    let w = v.after_dealloc_in(k, a);
    assert(v.slabs[k].wf());
    crate::slab::lemma_dealloc_then_alloc(v.slabs[k], a);
    assert forall|j: int| 0 <= j < k implies (#[trigger] w.slabs[j]).is_full() by {
        assert(w.slabs[j] == v.slabs[j]);
    }
}

/// Two different live slots of a well-formed cache do not overlap.
pub proof fn lemma_live_slots_apart(v: CacheView, i: int, a: int, j: int, b: int)
    requires
        v.wf(),
        0 <= i < v.slabs.len(),
        0 <= j < v.slabs.len(),
        v.slabs[i].is_allocated(a),
        v.slabs[j].is_allocated(b),
        a != b,
    ensures
        a + slot_size_for(v.object_size) <= b || b + slot_size_for(v.object_size) <= a,
{
    let si = v.slabs[i];
    let sj = v.slabs[j];
    if i == j {
        lemma_slots_apart(si, a, b);
    } else {
        lemma_slots_apart(si, a, a);
        lemma_slots_apart(sj, b, b);
    }
    if i < j {
        assert(pages_apart(si.page, sj.page));
    } else if j < i {
        assert(pages_apart(sj.page, si.page));
    }
}

/// The number of objects the slabs have handed out: the sum of their used
/// slots (each of which counts its allocated slots exactly, see
/// `lemma_used_counts_allocated`).
pub open spec fn live_count(slabs: Seq<SlabView>) -> int
    decreases slabs.len(),
{
    if slabs.len() == 0 {
        0
    } else {
        live_count(slabs.drop_last()) + slabs.last().used_slots
    }
}

/// Slabs of `total` slots each hold at most `total` live objects apiece.
proof fn lemma_live_count_bound(slabs: Seq<SlabView>, total: int)
    requires
        total >= 0,
        forall|i: int|
            0 <= i < slabs.len() ==> (#[trigger] slabs[i]).wf() && slabs[i].total_slots == total,
    ensures
        0 <= live_count(slabs) <= slabs.len() * total,
    decreases slabs.len(),
{
    if slabs.len() > 0 {
        let rest = slabs.drop_last();
        assert forall|i: int| 0 <= i < rest.len() implies (#[trigger] rest[i]).wf()
            && rest[i].total_slots == total by {
            assert(rest[i] == slabs[i]);
        }
        lemma_live_count_bound(rest, total);
        assert(slabs[slabs.len() - 1].wf());
        assert(slabs.last() == slabs[slabs.len() - 1]);
        assert((slabs.len() - 1) * total + total == slabs.len() * total) by (nonlinear_arith);
    }
}

/// A cache never holds more than `MAX_SLABS_PER_CACHE` slabs' worth of live
/// objects: at most `MAX_SLABS_PER_CACHE * (PAGE_SIZE / slot size)`.
pub proof fn lemma_live_bound(v: CacheView)
    requires
        v.wf(),
    ensures
        0 <= live_count(v.slabs) <= MAX_SLABS_PER_CACHE * (PAGE_SIZE as int / slot_size_for(
            v.object_size,
        )),
{
    let total = PAGE_SIZE as int / slot_size_for(v.object_size);
    assert(total >= 0) by (nonlinear_arith)
        requires
            slot_size_for(v.object_size) > 0,
            total == PAGE_SIZE as int / slot_size_for(v.object_size),
    ;
    lemma_live_count_bound(v.slabs, total);
    assert(v.slabs.len() * total <= MAX_SLABS_PER_CACHE * total) by (nonlinear_arith)
        requires
            v.slabs.len() <= MAX_SLABS_PER_CACHE,
            total >= 0,
    ;
}

/// A cache manages multiple [`Slab`]s of the same object size.
pub struct Cache {
    /// The object size this cache serves.
    object_size: usize,
    /// The slabs, in the order in which they were added.
    slabs: Vec<Slab>,
}

impl View for Cache {
    type V = CacheView;

    closed spec fn view(&self) -> CacheView {
        CacheView { object_size: self.object_size as int, slabs: self.slabs@.map_values(|s: Slab| s@) }
    }
}

impl Cache {
    /// Create a new, empty cache for objects of `object_size` bytes.
    pub fn new(object_size: usize) -> (cache: Self)
        ensures
            cache@.object_size == object_size,
            cache@.slabs == Seq::<SlabView>::empty(),
            cache@.wf(),
    {
        let cache = Cache { object_size, slabs: Vec::new() };
        assert(cache@.slabs =~= Seq::<SlabView>::empty());
        cache
    }

    /// Returns the object size this cache handles.
    pub fn object_size(&self) -> (size: usize)
        ensures
            size == self@.object_size,
    {
        self.object_size
    }

    /// Try to allocate an object from an existing slab.
    ///
    /// Allocates from the first slab that is not full, and returns `0` if
    /// every slab is full.
    pub fn allocate(&mut self) -> (ptr: usize)
        requires
            old(self)@.wf(),
        ensures
            final(self)@.wf(),
            ptr == 0 <==> old(self)@.all_full(),
            old(self)@.all_full() ==> final(self)@ == old(self)@,
            !old(self)@.all_full() ==> exists|i: int| old(self)@.first_not_full(i),
            final(self)@.object_size == old(self)@.object_size,
            final(self)@.same_pages(old(self)@),
            ptr != 0 ==> !old(self)@.is_live(ptr as int) && final(self)@.is_live(ptr as int),
            forall|a: int| #[trigger] old(self)@.is_live(a) ==> final(self)@.is_live(a),
            forall|i: int|
                old(self)@.first_not_full(i) ==> ptr == old(self)@.slabs[i].next_slot() && final(self)@ == old(self)@.after_alloc_in(i),
    {
        let ghost v = self@;
        let mut i: usize = 0;
        while i < self.slabs.len()
            invariant
                self@ == v,
                v == old(self)@,
                v.wf(),
                i <= self.slabs@.len(),
                forall|j: int| 0 <= j < i ==> (#[trigger] v.slabs[j]).is_full(),
            decreases self.slabs@.len() - i,
        {
            assert(self.slabs@[i as int]@ == v.slabs[i as int]);
            if !self.slabs[i].is_full() {
                let ptr = self.slabs[i].allocate();
                proof {
                    assert(self@.slabs =~= v.slabs.update(i as int, v.slabs[i as int].after_alloc()));
                    assert forall|k: int| v.first_not_full(k) implies k == i by {
                        if k < i {
                            assert(v.slabs[k].is_full());
                        } else if k > i {
                            assert(v.slabs[i as int].is_full());
                        }
                    }
                    assert(!v.slabs[i as int].is_full());
                    assert(!v.all_full());
                    assert(v.first_not_full(i as int));
                    self.lemma_wf_after_update(v, i as int);
                    lemma_alloc_hands_out_free_slot(v.slabs[i as int]);
                    lemma_fresh_slot_not_live(v, i as int);
                    assert(self@.slabs[i as int].is_allocated(ptr as int));
                    assert forall|a: int| #[trigger] v.is_live(a) implies self@.is_live(a) by {
                        let j = choose|j: int| 0 <= j < v.slabs.len() && (#[trigger] v.slabs[j]).is_allocated(a);
                        assert(self@.slabs[j].is_allocated(a));
                    }
                }
                return ptr;
            }
            i = i + 1;
        }
        0
    }

    /// Replacing slab `i` by a well-formed slab on the same page with the
    /// same slot size keeps the cache well-formed.
    proof fn lemma_wf_after_update(&self, v: CacheView, i: int)
        requires
            v.wf(),
            0 <= i < v.slabs.len(),
            self@.object_size == v.object_size,
            self@.slabs.len() == v.slabs.len(),
            self@.slabs[i].wf(),
            self@.slabs[i].page == v.slabs[i].page,
            self@.slabs[i].slot_size == v.slabs[i].slot_size,
            forall|j: int| 0 <= j < v.slabs.len() && j != i ==> self@.slabs[j] == v.slabs[j],
        ensures
            self@.wf(),
    {
        assert forall|j: int| 0 <= j < self@.slabs.len() implies (#[trigger] self@.slabs[j]).wf()
            && self@.slabs[j].slot_size == slot_size_for(self@.object_size) by {
            if j != i {
                assert(self@.slabs[j] == v.slabs[j]);
            }
        }
        assert forall|a: int, b: int| 0 <= a < b < self@.slabs.len() implies pages_apart(
            (#[trigger] self@.slabs[a]).page,
            (#[trigger] self@.slabs[b]).page,
        ) by {
            assert(pages_apart(v.slabs[a].page, v.slabs[b].page));
            if a != i {
                assert(self@.slabs[a] == v.slabs[a]);
            }
            if b != i {
                assert(self@.slabs[b] == v.slabs[b]);
            }
        }
    }

    /// Add a new slab backed by the page at `page` and immediately allocate
    /// from it.
    ///
    /// Returns `0`, and adds nothing, when the cache already holds
    /// `MAX_SLABS_PER_CACHE` slabs. The page must be non-null and lie below
    /// the top of the address space, and it must not be used anywhere else:
    /// in particular it overlaps no page the cache already uses.
    pub fn add_slab_and_alloc(&mut self, page: usize) -> (ptr: usize)
        requires
            old(self)@.wf(),
            old(self)@.slabs.len() < MAX_SLABS_PER_CACHE ==> old(self)@.object_size <= PAGE_SIZE,
            page > 0,
            page + PAGE_SIZE <= usize::MAX,
            old(self)@.page_unused(page as int),
        ensures
            final(self)@.wf(),
            ptr != 0 ==> !old(self)@.is_live(ptr as int) && final(self)@.is_live(ptr as int),
            forall|a: int| #[trigger] old(self)@.is_live(a) ==> final(self)@.is_live(a),
            old(self)@.slabs.len() >= MAX_SLABS_PER_CACHE ==> ptr == 0 && final(self)@ == old(self)@,
            old(self)@.slabs.len() < MAX_SLABS_PER_CACHE ==> ptr == page && final(self)@ == old(self)@.after_add_slab(page as int),
    {
        if self.slabs.len() >= MAX_SLABS_PER_CACHE {
            return 0;
        }
        let ghost v = self@;
        let mut slab = Slab::new(page, self.object_size);
        let ghost fresh = slab@;
        proof {
            crate::slab::lemma_slot_in_page(fresh, 0);
            assert(fresh.free.last() == 0);
        }
        let ptr = slab.allocate();
        self.slabs.push(slab);
        proof {
            assert(self@.slabs =~= v.slabs.push(fresh.after_alloc()));
            let n = v.slabs.len() as int;
            assert forall|a: int, b: int| 0 <= a < b < self@.slabs.len() implies pages_apart(
                (#[trigger] self@.slabs[a]).page,
                (#[trigger] self@.slabs[b]).page,
            ) by {
                if b < n {
                    assert(pages_apart(v.slabs[a].page, v.slabs[b].page));
                } else {
                    assert(pages_apart(v.slabs[a].page, page as int));
                }
            }
            lemma_alloc_hands_out_free_slot(fresh);
            assert forall|j: int| 0 <= j < n implies !(#[trigger] v.slabs[j]).is_allocated(ptr as int) by {
                assert(pages_apart(v.slabs[j].page, page as int));
                if v.slabs[j].is_slot(ptr as int) {
                    lemma_slots_apart(v.slabs[j], ptr as int, ptr as int);
                }
            }
            assert(self@.slabs[n].is_allocated(ptr as int));
            assert forall|a: int| #[trigger] v.is_live(a) implies self@.is_live(a) by {
                let j = choose|j: int| 0 <= j < v.slabs.len() && (#[trigger] v.slabs[j]).is_allocated(a);
                assert(self@.slabs[j] == v.slabs[j]);
            }
        }
        ptr
    }

    /// Returns `true` if the page at `page` overlaps no page of this cache's
    /// slabs.
    pub fn page_unused(&self, page: usize) -> (unused: bool)
        ensures
            unused == self@.page_unused(page as int),
    {
        let ghost v = self@;
        let mut i: usize = 0;
        while i < self.slabs.len()
            invariant
                self@ == v,
                i <= self.slabs@.len(),
                forall|j: int| 0 <= j < i ==> pages_apart((#[trigger] v.slabs[j]).page, page as int),
            decreases self.slabs@.len() - i,
        {
            assert(self.slabs@[i as int]@ == v.slabs[i as int]);
            let other = self.slabs[i].page_ptr();
            let apart = if other <= page {
                page - other >= PAGE_SIZE
            } else {
                other - page >= PAGE_SIZE
            };
            if !apart {
                return false;
            }
            i = i + 1;
        }
        true
    }

    /// Returns `true` if `ptr` may be given back to this cache: where a
    /// slab's page holds it, the first such slab has it allocated.
    pub fn may_dealloc(&self, ptr: usize) -> (ok: bool)
        requires
            self@.wf(),
        ensures
            ok == self@.may_dealloc(ptr as int),
    {
        let ghost v = self@;
        let mut i: usize = 0;
        while i < self.slabs.len()
            invariant
                self@ == v,
                v.wf(),
                i <= self.slabs@.len(),
                forall|j: int| 0 <= j < i ==> !(#[trigger] v.slabs[j]).contains(ptr as int),
            decreases self.slabs@.len() - i,
        {
            assert(self.slabs@[i as int]@ == v.slabs[i as int]);
            if self.slabs[i].contains(ptr) {
                proof {
                    assert(v.first_containing(i as int, ptr as int));
                    assert forall|k: int| #[trigger] v.first_containing(k, ptr as int) implies k
                        == i by {
                        if k < i {
                            assert(!v.slabs[k].contains(ptr as int));
                        } else if k > i {
                            assert(v.slabs[i as int].contains(ptr as int));
                        }
                    }
                }
                return self.slabs[i].is_allocated(ptr);
            }
            i = i + 1;
        }
        proof {
            assert forall|k: int| #[trigger] v.first_containing(k, ptr as int) implies v.slabs[k].is_allocated(ptr as int) by {
                assert(!v.slabs[k].contains(ptr as int));
            }
        }
        true
    }

    /// Deallocate an object.
    ///
    /// Finds the first slab whose page holds `ptr` and frees the slot there;
    /// returns `false`, changing nothing, when no slab holds it. Where a
    /// slab holds `ptr`, it must be one of its slots that is allocated (no
    /// double free).
    pub fn dealloc(&mut self, ptr: usize) -> (found: bool)
        requires
            old(self)@.wf(),
            old(self)@.may_dealloc(ptr as int),
        ensures
            final(self)@.wf(),
            found <==> !old(self)@.owns_none(ptr as int),
            final(self)@.object_size == old(self)@.object_size,
            final(self)@.slabs.len() == old(self)@.slabs.len(),
            forall|j: int|
                0 <= j < old(self)@.slabs.len() ==> (#[trigger] final(self)@.slabs[j]).page == old(self)@.slabs[j].page,
            old(self)@.owns_none(ptr as int) ==> final(self)@ == old(self)@,
            forall|i: int|
                #[trigger] old(self)@.first_containing(i, ptr as int) ==> final(self)@ == old(self)@.after_dealloc_in(i, ptr as int),
    {
        let ghost v = self@;
        let mut i: usize = 0;
        while i < self.slabs.len()
            invariant
                self@ == v,
                v == old(self)@,
                v.wf(),
                v.may_dealloc(ptr as int),
                i <= self.slabs@.len(),
                forall|j: int| 0 <= j < i ==> !(#[trigger] v.slabs[j]).contains(ptr as int),
            decreases self.slabs@.len() - i,
        {
            assert(self.slabs@[i as int]@ == v.slabs[i as int]);
            if self.slabs[i].contains(ptr) {
                proof {
                    assert(v.first_containing(i as int, ptr as int));
                }
                self.slabs[i].dealloc(ptr);
                proof {
                    assert(self@.slabs =~= v.slabs.update(
                        i as int,
                        v.slabs[i as int].after_dealloc(ptr as int),
                    ));
                    assert forall|k: int| #[trigger] v.first_containing(k, ptr as int) implies k
                        == i by {
                        if k < i {
                            assert(!v.slabs[k].contains(ptr as int));
                        } else if k > i {
                            assert(v.slabs[i as int].contains(ptr as int));
                        }
                    }
                    assert(v.slabs[i as int].contains(ptr as int));
                    assert(!v.owns_none(ptr as int));
                    self.lemma_wf_after_update(v, i as int);
                }
                return true;
            }
            i = i + 1;
        }
        proof {
            assert forall|k: int| #[trigger] v.first_containing(k, ptr as int) implies false by {
                assert(!v.slabs[k].contains(ptr as int));
            }
        }
        false
    }
}

} // verus!
