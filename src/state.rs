use vstd::prelude::*;

use crate::allocation::{pointers_below, Allocation};
use crate::gc_ptr::GcPtr;
use crate::reach::{has_edge, lemma_reaches_self, lemma_reaches_step, reaches, Graph};
use crate::trace::Trace;

mod collection;
mod linking;
mod release;

verus! {

/// One collected heap: its allocations, the list of those it manages, and a
/// LIFO stack of roots.
///
/// An allocation starts unmanaged, solely owned by whoever allocated it; once
/// managed it is linked into the object list, and a collection frees it when
/// no root reaches it any more.
///
/// Slots are never reused: a freed slot stays empty, so that a stale pointer
/// resolves to nothing rather than to a newer allocation. The slot table
/// therefore grows by one entry with every allocation ever made.
pub struct GcState<T> {
    slots: Vec<Option<Allocation<T>>>,
    objects: Vec<usize>,
    roots: Vec<Option<GcPtr>>,
    finalized: Ghost<Seq<usize>>,
}

impl<T> GcState<T> {
    /// Every slot ever allocated, `None` once freed.
    pub closed spec fn slots_view(&self) -> Seq<Option<Allocation<T>>> {
        self.slots@
    }

    /// The managed allocations, in the order they were linked.
    pub closed spec fn object_list(&self) -> Seq<usize> {
        self.objects@
    }

    /// The root stack, bottom first; a slot is `None` until its root is set.
    pub closed spec fn root_stack(&self) -> Seq<Option<GcPtr>> {
        self.roots@
    }

    /// The slots whose payloads the collector has finalized and freed, in
    /// the order it did so.
    pub closed spec fn finalized_log(&self) -> Seq<usize> {
        self.finalized@
    }

    pub open spec fn slot_count(&self) -> nat {
        self.slots_view().len()
    }

    pub open spec fn live(&self, i: usize) -> bool {
        i < self.slot_count() && self.slots_view()[i as int] is Some
    }

    pub open spec fn alloc_at(&self, i: usize) -> Allocation<T> {
        self.slots_view()[i as int]->0
    }

    pub open spec fn managed(&self, i: usize) -> bool {
        self.live(i) && self.alloc_at(i).is_managed()
    }

    pub open spec fn marked(&self, i: usize) -> bool {
        self.live(i) && self.alloc_at(i).is_marked()
    }

    pub open spec fn value(&self, i: usize) -> T {
        self.alloc_at(i).value()
    }

    pub open spec fn edges(&self, i: usize) -> Seq<GcPtr> {
        self.alloc_at(i).edge_list()
    }

    /// The managed allocations and their edges.
    pub open spec fn managed_graph(&self) -> Graph {
        Map::new(|i: usize| self.managed(i), |i: usize| self.edges(i))
    }

    /// The live allocations that are not yet managed, and their edges.
    pub open spec fn unmanaged_graph(&self) -> Graph {
        Map::new(|i: usize| self.live(i) && !self.managed(i), |i: usize| self.edges(i))
    }

    /// The allocations live in `self` that were not managed in `before`, and their edges.
    pub open spec fn unmanaged_before(&self, before: &Self) -> Graph {
        Map::new(|i: usize| self.live(i) && !before.managed(i), |i: usize| self.edges(i))
    }

    /// The slots of the managed allocations.
    pub open spec fn managed_set(&self) -> Set<usize> {
        Set::new(|i: usize| self.managed(i))
    }

    /// Some root slot designates `i`.
    pub open spec fn is_root(&self, i: usize) -> bool {
        exists|k: int| 0 <= k < self.root_stack().len() && #[trigger] self.root_stack()[k] == Some(GcPtr { index: i })
    }

    /// `i` is managed and can be reached from a root through managed allocations.
    pub open spec fn root_reachable(&self, i: usize) -> bool {
        exists|r: usize| #[trigger] self.is_root(r) && reaches(self.managed_graph(), r, i)
    }

    /// The heap's invariant:
    /// the object list holds each managed allocation exactly once;
    /// no live allocation is marked between collections;
    /// every recorded pointer designates a slot that had been allocated;
    /// a managed allocation points only to managed or freed ones;
    /// and each slot was finalized at most once, and is freed if it was.
    pub open spec fn wf(&self) -> bool {
        &&& self.object_list().no_duplicates()
        &&& forall|k: int| 0 <= k < self.object_list().len() ==> self.managed(#[trigger] self.object_list()[k])
        &&& forall|i: usize| self.managed(i) ==> #[trigger] self.object_list().contains(i)
        &&& forall|i: usize| self.live(i) ==> !#[trigger] self.marked(i)
        &&& forall|i: usize, j: int| self.live(i) && 0 <= j < self.edges(i).len() ==> #[trigger] self.edges(i)[j].index < self.slot_count()
        &&& forall|i: usize, j: int|
            self.managed(i) && 0 <= j < self.edges(i).len() && self.live(#[trigger] self.edges(i)[j].index) ==> self.managed(self.edges(i)[j].index)
        &&& self.finalized_log().no_duplicates()
        &&& forall|k: int| 0 <= k < self.finalized_log().len() ==> #[trigger] self.finalized_log()[k] < self.slot_count()
        &&& forall|k: int| 0 <= k < self.finalized_log().len() ==> !self.live(#[trigger] self.finalized_log()[k])
    }

    /// `self` and `other` hold the same allocations in the same states.
    pub open spec fn same_heap(&self, other: &Self) -> bool {
        &&& self.slots_view() == other.slots_view()
        &&& self.object_list() == other.object_list()
        &&& self.finalized_log() == other.finalized_log()
    }

    /// Two states with the same heap agree on everything but their roots.
    pub proof fn lemma_same_heap(&self, other: &Self)
        requires
            self.same_heap(other),
        ensures
            self.wf() == other.wf(),
            self.same_payloads(other),
            self.slot_count() == other.slot_count(),
            forall|i: usize| #[trigger] self.managed(i) == other.managed(i),
            forall|i: usize| #[trigger] self.marked(i) == other.marked(i),
            self.managed_graph() == other.managed_graph(),
            self.unmanaged_graph() == other.unmanaged_graph(),
            forall|b: Self| #[trigger] self.unmanaged_before(&b) == other.unmanaged_before(&b),
    {
        assert forall|i: usize| #![trigger self.live(i)] #![trigger other.live(i)]
            self.live(i) == other.live(i) && self.managed(i) == other.managed(i) && self.marked(i) == other.marked(i) && self.edges(i) == other.edges(i) by {}
        if other.wf() {
            assert forall|i: usize, j: int| self.live(i) && 0 <= j < self.edges(i).len() implies #[trigger] self.edges(i)[j].index < self.slot_count() by {
                assert(other.edges(i)[j].index < other.slot_count());
            }
            assert forall|i: usize, j: int|
                self.managed(i) && 0 <= j < self.edges(i).len() && self.live(#[trigger] self.edges(i)[j].index) implies self.managed(self.edges(i)[j].index) by {
                assert(other.live(other.edges(i)[j].index));
            }
        }
        if self.wf() {
            assert forall|i: usize, j: int| other.live(i) && 0 <= j < other.edges(i).len() implies #[trigger] other.edges(i)[j].index < other.slot_count() by {
                assert(self.edges(i)[j].index < self.slot_count());
            }
            assert forall|i: usize, j: int|
                other.managed(i) && 0 <= j < other.edges(i).len() && other.live(#[trigger] other.edges(i)[j].index) implies other.managed(other.edges(i)[j].index) by {
                assert(self.live(self.edges(i)[j].index));
            }
        }
        assert(self.managed_graph() =~= other.managed_graph());
        assert(self.unmanaged_graph() =~= other.unmanaged_graph());
        assert forall|b: Self| #[trigger] self.unmanaged_before(&b) == other.unmanaged_before(&b) by {
            assert(self.unmanaged_before(&b) =~= other.unmanaged_before(&b));
        }
    }

    /// A path through allocations unmanaged in `before` either runs through
    /// allocations still unmanaged in `now`, or ends in a managed one: once an
    /// allocation is managed, so is all it points to.
    pub proof fn lemma_unmanaged_path_split(before: &Self, now: &Self, src: usize, dst: usize)
        requires
            now.wf(),
            now.same_payloads(before),
            forall|i: usize| before.managed(i) ==> #[trigger] now.managed(i),
            reaches(before.unmanaged_graph(), src, dst),
        ensures
            reaches(now.unmanaged_graph(), src, dst) || now.managed(dst),
    {
        let g0 = before.unmanaged_graph();
        let path = choose|path: Seq<usize>| #[trigger] crate::reach::is_path(g0, path) && path[0] == src && path.last() == dst;
        Self::lemma_path_split_prefix(before, now, path, path.len() - 1);
    }

    proof fn lemma_path_split_prefix(before: &Self, now: &Self, path: Seq<usize>, n: int)
        requires
            now.wf(),
            now.same_payloads(before),
            forall|i: usize| before.managed(i) ==> #[trigger] now.managed(i),
            crate::reach::is_path(before.unmanaged_graph(), path),
            0 <= n < path.len(),
        ensures
            reaches(now.unmanaged_graph(), path[0], path[n]) || now.managed(path[n]),
        decreases n,
    {
        let g0 = before.unmanaged_graph();
        let g1 = now.unmanaged_graph();
        if n == 0 {
            assert(g0.dom().contains(path[0]));
            assert(now.live(path[0]));
            if !now.managed(path[0]) {
                lemma_reaches_self(g1, path[0]);
            }
        } else {
            Self::lemma_path_split_prefix(before, now, path, n - 1);
            assert(crate::reach::step(g0, path, n - 1));
            let a = path[n - 1];
            let b = path[n];
            assert(g0[a].contains(GcPtr { index: b }));
            let j = choose|j: int| 0 <= j < g0[a].len() && g0[a][j] == GcPtr { index: b };
            assert(now.live(a));
            assert(now.live(b));
            assert(now.edges(a) == before.edges(a));
            assert(now.edges(a)[j].index == b);
            if now.managed(a) {
                assert(now.managed(now.edges(a)[j].index));
            } else if !now.managed(b) {
                crate::reach::lemma_reaches_dom(g1, path[0], a);
                assert(has_edge(g1, a, b));
                lemma_reaches_step(g1, path[0], a, b);
            }
        }
    }

    /// An empty heap with no roots.
    pub fn new() -> (r: GcState<T>)
        ensures
            r.wf(),
            r.slot_count() == 0,
            r.object_list().len() == 0,
            r.root_stack().len() == 0,
            r.finalized_log().len() == 0,
    {
        GcState { slots: Vec::new(), objects: Vec::new(), roots: Vec::new(), finalized: Ghost(Seq::empty()) }
    }

    /// Allocates `data` unmanaged: it is in no object list and belongs to the caller.
    pub fn alloc_unmanaged(&mut self, data: T) -> (p: GcPtr)
        where
            T: Trace,
        requires
            old(self).wf(),
        ensures
            final(self).wf(),
            p.index == old(self).slot_count(),
            final(self).slot_count() == old(self).slot_count() + 1,
            final(self).live(p.index),
            !final(self).managed(p.index),
            final(self).value(p.index) == data,
            final(self).edges(p.index) == pointers_below(data.pointers(), old(self).slot_count()),
            forall|i: usize| i < p.index ==> #[trigger] final(self).slots_view()[i as int] == old(self).slots_view()[i as int],
            final(self).object_list() == old(self).object_list(),
            final(self).root_stack() == old(self).root_stack(),
            final(self).finalized_log() == old(self).finalized_log(),
    {
        let n = self.slots.len();
        let mut allocation = Allocation::new(data);
        allocation.retain_edges_below(n);
        let ghost fresh = allocation;
        self.slots.push(Some(allocation));
        let p = GcPtr { index: n };
        proof {
            let old_self = *old(self);
            assert(self.slots@[n as int] == Some(fresh));
            assert forall|i: usize| i < p.index implies #[trigger] self.slots_view()[i as int] == old_self.slots_view()[i as int] by {
                assert(self.slots@[i as int] == old_self.slots@[i as int]);
            }
            assert forall|i: usize, j: int| self.live(i) && 0 <= j < self.edges(i).len() implies #[trigger] self.edges(i)[j].index < self.slot_count() by {
                if i == n {
                    assert(fresh.edge_list().contains(fresh.edge_list()[j]));
                } else {
                    assert(self.slots@[i as int] == old_self.slots@[i as int]);
                    assert(old_self.edges(i)[j].index < old_self.slot_count());
                }
            }
            assert forall|i: usize, j: int|
                self.managed(i) && 0 <= j < self.edges(i).len() && self.live(#[trigger] self.edges(i)[j].index) implies self.managed(self.edges(i)[j].index) by {
                assert(self.slots@[i as int] == old_self.slots@[i as int]);
                assert(old_self.live(i));
                assert(old_self.edges(i)[j].index < n);
            }
            assert forall|i: usize| self.live(i) implies !#[trigger] self.marked(i) by {
                if i != n {
                    assert(self.slots@[i as int] == old_self.slots@[i as int]);
                    assert(!old_self.marked(i));
                }
            }
            assert forall|i: usize| self.managed(i) implies #[trigger] self.object_list().contains(i) by {
                assert(self.slots@[i as int] == old_self.slots@[i as int]);
                assert(old_self.managed(i));
            }
        }
        p
    }

    /// The payload of `p`, if `p` designates a live allocation.
    pub fn get(&self, p: GcPtr) -> (r: Option<&T>)
        ensures
            r is Some <==> self.live(p.index),
            r is Some ==> *(r->0) == self.value(p.index),
    {
        if p.index < self.slots.len() {
            match &self.slots[p.index] {
                Some(a) => Some(a.data()),
                None => None,
            }
        } else {
            None
        }
    }

    /// Whether `from` designates a live allocation that points to `to`.
    pub fn points_to(&self, from: GcPtr, to: GcPtr) -> (r: bool)
        ensures
            r == (self.live(from.index) && self.edges(from.index).contains(to)),
    {
        if from.index >= self.slots.len() {
            return false;
        }
        match &self.slots[from.index] {
            Some(a) => {
                let es = a.edges();
                let mut j: usize = 0;
                while j < es.len()
                    invariant
                        0 <= j <= es@.len(),
                        es@ == self.edges(from.index),
                        forall|m: int| 0 <= m < j ==> es@[m] != to,
                        self.live(from.index),
                    decreases es@.len() - j,
                {
                    if es[j].index == to.index {
                        proof {
                            assert(es@[j as int] == to);
                            assert(self.edges(from.index).contains(to));
                        }
                        return true;
                    }
                    j = j + 1;
                }
                false
            },
            None => false,
        }
    }

    /// Whether `p` designates a live allocation that is not yet managed.
    pub fn is_unmanaged(&self, p: GcPtr) -> (r: bool)
        ensures
            r == (self.live(p.index) && !self.managed(p.index)),
    {
        if p.index < self.slots.len() {
            match &self.slots[p.index] {
                Some(a) => a.is_unmanaged(),
                None => false,
            }
        } else {
            false
        }
    }

    /// `self` and `other` have the same slots, each live in both or in neither,
    /// with the same payloads and edges.
    pub open spec fn same_payloads(&self, other: &Self) -> bool {
        &&& self.slot_count() == other.slot_count()
        &&& forall|i: usize| #[trigger] self.live(i) == other.live(i)
        &&& forall|i: usize| other.live(i) ==> #[trigger] self.value(i) == other.value(i)
        &&& forall|i: usize| other.live(i) ==> #[trigger] self.edges(i) == other.edges(i)
    }

    /// A copy of the edges recorded for slot `i`.
    fn edges_copy(&self, i: usize) -> (r: Vec<GcPtr>)
        requires
            self.live(i),
        ensures
            r@ == self.edges(i),
    {
        let mut r: Vec<GcPtr> = Vec::new();
        match &self.slots[i] {
            Some(a) => {
                let es = a.edges();
                let mut j: usize = 0;
                while j < es.len()
                    invariant
                        0 <= j <= es@.len(),
                        es@ == self.edges(i),
                        r@ == es@.subrange(0, j as int),
                    decreases es@.len() - j,
                {
                    r.push(es[j]);
                    proof {
                        assert(es@.subrange(0, j + 1) =~= es@.subrange(0, j as int).push(es@[j as int]));
                    }
                    j = j + 1;
                }
                proof {
                    assert(es@.subrange(0, es@.len() as int) =~= es@);
                }
            },
            None => {},
        }
        r
    }

    /// Links the unmanaged allocation in slot `i` into the object list.
    fn link(&mut self, i: usize)
        requires
            old(self).live(i),
        ensures
            final(self).slot_count() == old(self).slot_count(),
            forall|k: usize| k < old(self).slot_count() && k != i ==> #[trigger] final(self).slots_view()[k as int] == old(self).slots_view()[k as int],
            final(self).live(i),
            final(self).managed(i),
            final(self).value(i) == old(self).value(i),
            final(self).edges(i) == old(self).edges(i),
            final(self).marked(i) == old(self).marked(i),
            final(self).object_list() == old(self).object_list().push(i),
            final(self).root_stack() == old(self).root_stack(),
            final(self).finalized_log() == old(self).finalized_log(),
    {
        let mut slot: Option<Allocation<T>> = None;
        self.slots.set_and_swap(i, &mut slot);
        let mut a = slot.unwrap();
        a.set_managed();
        self.slots.set(i, Some(a));
        self.objects.push(i);
    }

    /// Whether `p` designates a live allocation whose mark bit is set; between
    /// collections none is.
    pub fn is_marked(&self, p: GcPtr) -> (r: bool)
        ensures
            r == self.marked(p.index),
    {
        if p.index < self.slots.len() {
            match &self.slots[p.index] {
                Some(a) => a.is_marked_now(),
                None => false,
            }
        } else {
            false
        }
    }

    /// Pushes an empty root slot and returns its index.
    pub fn new_root(&mut self) -> (idx: usize)
        ensures
            idx == old(self).root_stack().len(),
            final(self).root_stack() == old(self).root_stack().push(None),
            final(self).same_heap(old(self)),
            final(self).wf() == old(self).wf(),
    {
        let idx = self.roots.len();
        self.roots.push(None);
        proof {
            self.lemma_same_heap(old(self));
        }
        idx
    }

    /// Points root slot `idx` at `ptr`.
    pub fn set_root(&mut self, idx: usize, ptr: GcPtr)
        requires
            idx < old(self).root_stack().len(),
        ensures
            final(self).root_stack() == old(self).root_stack().update(idx as int, Some(ptr)),
            final(self).same_heap(old(self)),
            final(self).wf() == old(self).wf(),
    {
        self.roots.set(idx, Some(ptr));
        proof {
            self.lemma_same_heap(old(self));
        }
    }

    /// Pops root slot `idx`, which must be the top: roots are released in
    /// the reverse order of their creation.
    pub fn pop_root(&mut self, idx: usize)
        requires
            idx + 1 == old(self).root_stack().len(),
        ensures
            final(self).root_stack() == old(self).root_stack().drop_last(),
            final(self).same_heap(old(self)),
            final(self).wf() == old(self).wf(),
    {
        self.roots.pop();
        proof {
            self.lemma_same_heap(old(self));
        }
    }

    pub fn roots(&self) -> (r: &Vec<Option<GcPtr>>)
        ensures
            r@ == self.root_stack(),
    {
        &self.roots
    }

    /// How many allocations the heap manages.
    pub fn count_managed_objects(&self) -> (r: usize)
        ensures
            r == self.object_list().len(),
            self.wf() ==> r == self.managed_set().len(),
    {
        proof {
            if self.wf() {
                assert(self.object_list().to_set() =~= self.managed_set());
                self.object_list().unique_seq_to_set();
            }
        }
        self.objects.len()
    }

    pub fn count_roots(&self) -> (r: usize)
        ensures
            r == self.root_stack().len(),
    {
        self.roots.len()
    }
}

} // verus!
