use vstd::prelude::*;

use std::marker::PhantomData;

use crate::allocation::pointers_below;
use crate::gc_ptr::GcPtr;
use crate::reach::reaches;
use crate::state::GcState;
use crate::trace::Trace;

verus! {

/// A live view of a managed allocation, branded with the lifetime of the
/// root that keeps it alive: the compiler refuses to let it outlive
/// that root.
#[derive(Clone, Copy)]
pub struct Gc<'root> {
    ptr: GcPtr,
    _root: PhantomData<&'root ()>,
}

impl<'root> View for Gc<'root> {
    type V = GcPtr;

    closed spec fn view(&self) -> GcPtr {
        self.ptr
    }
}

impl<'root> Gc<'root> {
    /// Brands `ptr` with a root's lifetime; the caller has set that root to it.
    pub(crate) fn rooted(ptr: GcPtr) -> (r: Gc<'root>)
        ensures
            r@ == ptr,
    {
        Gc { ptr, _root: PhantomData }
    }

    pub fn raw(this: Gc<'root>) -> (r: GcPtr)
        ensures
            r == this@,
    {
        this.ptr
    }

    /// The payload; the heap keeps it while the root does.
    pub fn get<'a, T>(&self, state: &'a GcState<T>) -> (r: &'a T)
        requires
            state.live(self@.index),
        ensures
            *r == state.value(self@.index),
    {
        state.get(self.ptr).unwrap()
    }
}

impl<'root> Trace for Gc<'root> {
    open spec fn pointers(&self) -> Seq<GcPtr> {
        seq![self@]
    }

    fn trace(&self, edges: &mut Vec<GcPtr>) {
        edges.push(self.ptr);
    }

    fn finalize(&mut self) {
    }
}

/// A uniquely owned handle to an allocation, meant as a field of a value that
/// is itself collected. While unmanaged the store owns its allocation and
/// reads it directly; once the value around it is rooted the heap manages it,
/// and it is read through a `Gc` instead.
pub struct GcStore {
    ptr: GcPtr,
}

impl View for GcStore {
    type V = GcPtr;

    closed spec fn view(&self) -> GcPtr {
        self.ptr
    }
}

impl GcStore {
    /// Allocates `data`, unmanaged, for this store alone.
    pub fn new<T: Trace>(state: &mut GcState<T>, data: T) -> (r: GcStore)
        requires
            old(state).wf(),
        ensures
            final(state).wf(),
            r@.index == old(state).slot_count(),
            final(state).slot_count() == old(state).slot_count() + 1,
            final(state).live(r@.index),
            !final(state).managed(r@.index),
            final(state).value(r@.index) == data,
            final(state).edges(r@.index) == pointers_below(data.pointers(), old(state).slot_count()),
            forall|i: usize| i < r@.index ==> #[trigger] final(state).slots_view()[i as int] == old(state).slots_view()[i as int],
            final(state).object_list() == old(state).object_list(),
            final(state).finalized_log() == old(state).finalized_log(),
            final(state).root_stack() == old(state).root_stack(),
    {
        GcStore { ptr: state.alloc_unmanaged(data) }
    }

    /// A store holding a rooted pointer, to put inside a value being built.
    pub fn from_gc(gc: Gc<'_>) -> (r: GcStore)
        ensures
            r@ == gc@,
    {
        GcStore { ptr: Gc::raw(gc) }
    }

    /// The payload, while the store still owns it: once managed it is read
    /// through a `Gc`.
    pub fn get<'a, T>(&self, state: &'a GcState<T>) -> (r: &'a T)
        requires
            state.live(self@.index),
            !state.managed(self@.index),
        ensures
            *r == state.value(self@.index),
    {
        state.get(self.ptr).unwrap()
    }

    /// The payload if the store still owns it, `None` once it is managed.
    pub fn get_maybe<'a, T>(&self, state: &'a GcState<T>) -> (r: Option<&'a T>)
        ensures
            r is Some <==> (state.live(self@.index) && !state.managed(self@.index)),
            r is Some ==> *(r->0) == state.value(self@.index),
    {
        if state.is_unmanaged(self.ptr) {
            state.get(self.ptr)
        } else {
            None
        }
    }

    /// This store as a field of the rooted value `parent`, branded with that
    /// value's root: what the value points to, its root keeps alive. `None`
    /// when `parent`'s allocation does not point to this store's.
    pub fn rooted<'root, T>(&self, state: &GcState<T>, parent: Gc<'root>) -> (r: Option<Gc<'root>>)
        ensures
            r is Some <==> (state.live(parent@.index) && state.edges(parent@.index).contains(self@)),
            r is Some ==> r->0@ == self@,
    {
        if state.points_to(Gc::raw(parent), self.ptr) {
            Some(Gc::rooted(self.ptr))
        } else {
            None
        }
    }

    pub fn raw(this: &GcStore) -> (r: GcPtr)
        ensures
            r == this@,
    {
        this.ptr
    }

    /// Lets go of the store: if it still owns its allocation, that allocation
    /// is released with every unmanaged one it owns in turn; if it is managed,
    /// it is left to the collector.
    pub fn discard<T>(self, state: &mut GcState<T>)
        requires
            old(state).wf(),
        ensures
            final(state).wf(),
            final(state).object_list() == old(state).object_list(),
            final(state).finalized_log() == old(state).finalized_log(),
            final(state).root_stack() == old(state).root_stack(),
            forall|i: usize| #[trigger] final(state).live(i) <==> (old(state).live(i) && !reaches(old(state).unmanaged_graph(), self@.index, i)),
            forall|i: usize| final(state).live(i) ==> #[trigger] final(state).slots_view()[i as int] == old(state).slots_view()[i as int],
            old(state).managed(self@.index) ==> *final(state) == *old(state),
    {
        state.deallocate(self.ptr)
    }
}

impl Trace for GcStore {
    open spec fn pointers(&self) -> Seq<GcPtr> {
        seq![self@]
    }

    fn trace(&self, edges: &mut Vec<GcPtr>) {
        edges.push(self.ptr);
    }

    fn finalize(&mut self) {
    }
}

} // verus!
