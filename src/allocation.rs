use vstd::prelude::*;

use crate::gc_ptr::GcPtr;
use crate::trace::Trace;

verus! {

/// The pointers of `ptrs`, in order, whose slot number is below `bound`.
pub open spec fn pointers_below(ptrs: Seq<GcPtr>, bound: nat) -> Seq<GcPtr> {
    ptrs.filter(|e: GcPtr| e.index < bound)
}

/// One allocation of a collected heap: the payload, the pointers it reported
/// when it was allocated, its mark bit, and whether it is linked into the
/// heap's object list (managed) or still solely owned by its creator.
pub struct Allocation<T> {
    data: T,
    edges: Vec<GcPtr>,
    marked: bool,
    managed: bool,
}

impl<T> Allocation<T> {
    pub closed spec fn value(&self) -> T {
        self.data
    }

    pub closed spec fn edge_list(&self) -> Seq<GcPtr> {
        self.edges@
    }

    pub closed spec fn is_marked(&self) -> bool {
        self.marked
    }

    pub closed spec fn is_managed(&self) -> bool {
        self.managed
    }

    /// Allocates `data`, unmarked and unmanaged, recording the pointers that
    /// `data` reports through `Trace::trace`.
    pub fn new(data: T) -> (r: Allocation<T>)
        where
            T: Trace,
        ensures
            r.value() == data,
            r.edge_list() == data.pointers(),
            !r.is_marked(),
            !r.is_managed(),
    {
        let mut edges: Vec<GcPtr> = Vec::new();
        data.trace(&mut edges);
        proof {
            assert(Seq::<GcPtr>::empty() + data.pointers() =~= data.pointers());
        }
        Allocation { data, edges, marked: false, managed: false }
    }

    pub fn data(&self) -> (r: &T)
        ensures
            *r == self.value(),
    {
        &self.data
    }

    pub fn edges(&self) -> (r: &Vec<GcPtr>)
        ensures
            r@ == self.edge_list(),
    {
        &self.edges
    }

    /// Sets the mark bit; true when it was clear before, that is when the
    /// caller has to go on to the allocation's edges.
    pub fn mark(&mut self) -> (r: bool)
        ensures
            r == !old(self).is_marked(),
            final(self).is_marked(),
            final(self).value() == old(self).value(),
            final(self).edge_list() == old(self).edge_list(),
            final(self).is_managed() == old(self).is_managed(),
    {
        let was = self.marked;
        self.marked = true;
        !was
    }

    /// Reads the mark bit and clears it.
    pub fn marked(&mut self) -> (r: bool)
        ensures
            r == old(self).is_marked(),
            !final(self).is_marked(),
            final(self).value() == old(self).value(),
            final(self).edge_list() == old(self).edge_list(),
            final(self).is_managed() == old(self).is_managed(),
    {
        let was = self.marked;
        self.marked = false;
        was
    }

    pub(crate) fn is_marked_now(&self) -> (r: bool)
        ensures
            r == self.is_marked(),
    {
        self.marked
    }

    pub fn is_unmanaged(&self) -> (r: bool)
        ensures
            r == !self.is_managed(),
    {
        !self.managed
    }

    /// Links the allocation: from now on it is the heap's to collect.
    pub(crate) fn set_managed(&mut self)
        ensures
            final(self).is_managed(),
            final(self).is_marked() == old(self).is_marked(),
            final(self).value() == old(self).value(),
            final(self).edge_list() == old(self).edge_list(),
    {
        self.managed = true;
    }

    /// Forgets every recorded pointer whose slot number is not below `bound`:
    /// such a pointer designates no allocation that exists yet.
    pub(crate) fn retain_edges_below(&mut self, bound: usize)
        ensures
            final(self).edge_list() == pointers_below(old(self).edge_list(), bound as nat),
            final(self).value() == old(self).value(),
            final(self).is_marked() == old(self).is_marked(),
            final(self).is_managed() == old(self).is_managed(),
    {
        let ghost pred = |e: GcPtr| e.index < bound;
        let mut kept: Vec<GcPtr> = Vec::new();
        let mut i: usize = 0;
        proof {
            assert(self.edges@.subrange(0, 0) =~= Seq::<GcPtr>::empty());
            assert(Seq::<GcPtr>::empty().filter(pred) =~= Seq::<GcPtr>::empty()) by {
                reveal(Seq::filter);
            }
        }
        while i < self.edges.len()
            invariant
                0 <= i <= self.edges@.len(),
                pred == (|e: GcPtr| e.index < bound),
                kept@ == self.edges@.subrange(0, i as int).filter(pred),
            decreases self.edges@.len() - i,
        {
            let e = self.edges[i];
            proof {
                let seen = self.edges@.subrange(0, i as int);
                assert(self.edges@.subrange(0, i + 1) =~= seen.push(e));
                seen.lemma_filter_push(e, pred);
            }
            if e.index < bound {
                kept.push(e);
            }
            i = i + 1;
        }
        proof {
            assert(self.edges@.subrange(0, self.edges@.len() as int) =~= self.edges@);
            assert((|e: GcPtr| e.index < bound as nat) =~= pred);
        }
        self.edges = kept;
    }

    /// Gives the payload back without finalizing it.
    pub fn into_data(self) -> (r: T)
        ensures
            r == self.value(),
    {
        self.data
    }

    /// Runs the payload's finalizer, then releases the allocation.
    pub fn free(self)
        where
            T: Trace,
    {
        let mut data = self.data;
        data.finalize();
    }
}

} // verus!
