use vstd::prelude::*;

use crate::allocation::pointers_below;
use crate::gc::Gc;
use crate::gc_ptr::GcPtr;
use crate::ops::alloc_managed;
use crate::reach::{lemma_reaches_self, reaches};
use crate::state::GcState;
use crate::trace::Trace;

verus! {

/// A slot of a heap's root stack, owned by one scope. Roots are released in
/// the reverse order of their creation. The `Gc` a root hands out holds it
/// borrowed exclusively: it cannot outlive the root, and the root cannot be
/// pointed elsewhere while it lives.
pub struct Root {
    idx: usize,
}

impl View for Root {
    type V = usize;

    closed spec fn view(&self) -> usize {
        self.idx
    }
}

impl Root {
    /// Pushes a new, empty root onto `state`'s root stack.
    pub fn new<T>(state: &mut GcState<T>) -> (r: Root)
        ensures
            r@ == old(state).root_stack().len(),
            final(state).root_stack() == old(state).root_stack().push(None),
            final(state).same_heap(old(state)),
            final(state).wf() == old(state).wf(),
    {
        Root { idx: state.new_root() }
    }

    /// This root's slot in the root stack.
    pub fn index(&self) -> (r: usize)
        ensures
            r == self@,
    {
        self.idx
    }

    /// Points this root at `ptr`.
    pub fn enroot<T>(&mut self, state: &mut GcState<T>, ptr: GcPtr)
        requires
            old(self)@ < old(state).root_stack().len(),
        ensures
            final(state).root_stack() == old(state).root_stack().update(old(self)@ as int, Some(ptr)),
            final(self)@ == old(self)@,
            final(state).same_heap(old(state)),
            final(state).wf() == old(state).wf(),
    {
        state.set_root(self.idx, ptr)
    }

    /// Allocates `data`, manages it with every unmanaged allocation it owns,
    /// and roots it here.
    pub fn gc<'root, T: Trace>(&'root mut self, state: &mut GcState<T>, data: T) -> (g: Gc<'root>)
        requires
            old(state).wf(),
            old(self)@ < old(state).root_stack().len(),
        ensures
            final(state).wf(),
            g@.index == old(state).slot_count(),
            final(state).slot_count() == old(state).slot_count() + 1,
            final(state).managed(g@.index),
            final(state).value(g@.index) == data,
            final(state).edges(g@.index) == pointers_below(data.pointers(), old(state).slot_count()),
            final(state).root_stack() == old(state).root_stack().update(old(self)@ as int, Some(g@)),
            final(self)@ == old(self)@,
            final(state).root_reachable(g@.index),
            final(state).finalized_log() == old(state).finalized_log(),
            forall|i: usize| #[trigger] old(state).live(i) ==> final(state).live(i) && final(state).value(i) == old(state).value(i),
            forall|i: usize| #[trigger] final(state).managed(i) <==> (old(state).managed(i) || reaches(final(state).unmanaged_before(old(state)), g@.index, i)),
    {
        let ghost before = *state;
        let p = alloc_managed(state, data);
        let ghost mid = *state;
        state.set_root(self.idx, p);
        proof {
            let after = *state;
            after.lemma_same_heap(&mid);
            assert(after.root_stack()[self@ as int] == Some(GcPtr { index: p.index }));
            assert(after.is_root(p.index));
            lemma_reaches_self(after.managed_graph(), p.index);
        }
        Gc::rooted(p)
    }

    /// Roots here the allocation a `Gc` of another root designates, managing
    /// it first if it is not yet managed.
    pub fn reroot<'root, T>(&'root mut self, state: &mut GcState<T>, gc: Gc<'_>) -> (g: Gc<'root>)
        requires
            old(state).wf(),
            old(self)@ < old(state).root_stack().len(),
        ensures
            final(state).wf(),
            g@ == gc@,
            final(state).same_payloads(old(state)),
            final(state).finalized_log() == old(state).finalized_log(),
            final(state).root_stack() == old(state).root_stack().update(old(self)@ as int, Some(g@)),
            final(self)@ == old(self)@,
            forall|i: usize| #[trigger] final(state).managed(i) <==> (old(state).managed(i) || reaches(old(state).unmanaged_graph(), g@.index, i)),
            old(state).live(g@.index) ==> final(state).root_reachable(g@.index),
            !(old(state).live(gc@.index) && !old(state).managed(gc@.index)) ==> final(state).object_list() == old(state).object_list(),
    {
        self.adopt(state, Gc::raw(gc))
    }

    /// Roots here the allocation `ptr` designates, managing it first, with
    /// what it owns, if it is not yet managed.
    pub fn adopt<'root, T>(&'root mut self, state: &mut GcState<T>, ptr: GcPtr) -> (g: Gc<'root>)
        requires
            old(state).wf(),
            old(self)@ < old(state).root_stack().len(),
        ensures
            final(state).wf(),
            g@ == ptr,
            final(state).same_payloads(old(state)),
            final(state).finalized_log() == old(state).finalized_log(),
            final(state).root_stack() == old(state).root_stack().update(old(self)@ as int, Some(g@)),
            final(self)@ == old(self)@,
            forall|i: usize| #[trigger] final(state).managed(i) <==> (old(state).managed(i) || reaches(old(state).unmanaged_graph(), g@.index, i)),
            old(state).live(g@.index) ==> final(state).root_reachable(g@.index),
            !(old(state).live(ptr.index) && !old(state).managed(ptr.index)) ==> final(state).object_list() == old(state).object_list(),
    {
        let p = ptr;
        state.manage(p);
        let ghost mid = *state;
        state.set_root(self.idx, p);
        proof {
            let after = *state;
            after.lemma_same_heap(&mid);
            assert(after.root_stack()[self@ as int] == Some(GcPtr { index: p.index }));
            assert(after.is_root(p.index));
            if after.live(p.index) {
                if old(state).unmanaged_graph().dom().contains(p.index) {
                    lemma_reaches_self(old(state).unmanaged_graph(), p.index);
                }
                lemma_reaches_self(after.managed_graph(), p.index);
            }
        }
        Gc::rooted(p)
    }

    /// Releases this root; it must be the top of the root stack.
    pub fn release<T>(self, state: &mut GcState<T>)
        requires
            self@ + 1 == old(state).root_stack().len(),
        ensures
            final(state).root_stack() == old(state).root_stack().drop_last(),
            final(state).same_heap(old(state)),
            final(state).wf() == old(state).wf(),
    {
        state.pop_root(self.idx)
    }
}

} // verus!
