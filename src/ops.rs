use vstd::prelude::*;

use crate::allocation::pointers_below;
use crate::gc_ptr::GcPtr;
use crate::reach::{lemma_reaches_self, reaches};
use crate::state::GcState;
use crate::trace::Trace;

verus! {

/// What `alloc_managed` leaves behind: `p` designates a new managed allocation
/// of `data` in the next slot, recording the pointers of `data` to slots that
/// existed before; the allocations managed are those managed
/// before and those that `p` reaches through ones that were not; every
/// allocation live before keeps its payload and edges, and the roots stay.
pub open spec fn alloc_managed_result<T: Trace>(before: GcState<T>, after: GcState<T>, data: T, p: GcPtr) -> bool {
    &&& after.wf()
    &&& p.index == before.slot_count()
    &&& after.slot_count() == before.slot_count() + 1
    &&& after.live(p.index)
    &&& after.managed(p.index)
    &&& after.value(p.index) == data
    &&& after.edges(p.index) == pointers_below(data.pointers(), before.slot_count())
    &&& after.root_stack() == before.root_stack()
    &&& after.finalized_log() == before.finalized_log()
    &&& forall|i: usize| #[trigger] before.live(i) ==> after.live(i) && after.value(i) == before.value(i) && after.edges(i) == before.edges(i)
    &&& forall|i: usize| #[trigger] after.managed(i) <==> (before.managed(i) || reaches(after.unmanaged_before(&before), p.index, i))
}

/// What `alloc_unmanaged` leaves behind: `p` designates a new, unmanaged
/// allocation of `data` in the next slot, recording the pointers of `data` to
/// slots that existed before; nothing else changed.
pub open spec fn alloc_unmanaged_result<T: Trace>(before: GcState<T>, after: GcState<T>, data: T, p: GcPtr) -> bool {
    &&& after.wf()
    &&& p.index == before.slot_count()
    &&& after.slot_count() == before.slot_count() + 1
    &&& after.live(p.index)
    &&& !after.managed(p.index)
    &&& after.value(p.index) == data
    &&& after.edges(p.index) == pointers_below(data.pointers(), before.slot_count())
    &&& forall|i: usize| i < p.index ==> #[trigger] after.slots_view()[i as int] == before.slots_view()[i as int]
    &&& after.object_list() == before.object_list()
    &&& after.root_stack() == before.root_stack()
    &&& after.finalized_log() == before.finalized_log()
}

/// What `manage` leaves behind: the allocations managed before, and those
/// that `ptr` reaches through unmanaged ones, are managed; nothing else
/// changed, and nothing at all if `ptr` was not a live unmanaged allocation.
pub open spec fn manage_result<T>(before: GcState<T>, after: GcState<T>, ptr: GcPtr) -> bool {
    &&& after.wf()
    &&& after.same_payloads(&before)
    &&& after.root_stack() == before.root_stack()
    &&& after.finalized_log() == before.finalized_log()
    &&& forall|i: usize| #[trigger] after.managed(i) <==> (before.managed(i) || reaches(before.unmanaged_graph(), ptr.index, i))
    &&& !(before.live(ptr.index) && !before.managed(ptr.index)) ==> after == before
}

/// What `collect` leaves behind: the unmanaged allocations and the managed
/// ones that a root reaches are kept as they were, unmarked; the other
/// managed ones are finalized and freed, each once, in the order of the
/// object list, which they leave.
pub open spec fn collect_result<T>(before: GcState<T>, after: GcState<T>) -> bool {
    &&& after.wf()
    &&& after.root_stack() == before.root_stack()
    &&& forall|i: usize| #[trigger] after.live(i) <==> (before.live(i) && (!before.managed(i) || before.root_reachable(i)))
    &&& forall|i: usize| after.live(i) ==> #[trigger] after.value(i) == before.value(i)
    &&& forall|i: usize| after.live(i) ==> #[trigger] after.edges(i) == before.edges(i)
    &&& forall|i: usize| after.live(i) ==> #[trigger] after.managed(i) == before.managed(i)
    &&& forall|i: usize| after.live(i) ==> !#[trigger] after.marked(i)
    &&& after.object_list() == before.object_list().filter(|i: usize| before.root_reachable(i))
    &&& after.finalized_log() == before.finalized_log() + before.object_list().filter(|i: usize| !before.root_reachable(i))
}

/// Allocates `data` unmanaged; the caller owns it until it is managed.
pub fn alloc_unmanaged<T: Trace>(state: &mut GcState<T>, data: T) -> (p: GcPtr)
    requires
        old(state).wf(),
    ensures
        alloc_unmanaged_result(*old(state), *final(state), data, p),
{
    state.alloc_unmanaged(data)
}

/// Allocates `data` and manages it at once, with every unmanaged allocation
/// that it owns.
pub fn alloc_managed<T: Trace>(state: &mut GcState<T>, data: T) -> (p: GcPtr)
    requires
        old(state).wf(),
    ensures
        alloc_managed_result(*old(state), *final(state), data, p),
{
    let ghost before = *state;
    let p = state.alloc_unmanaged(data);
    let ghost mid = *state;
    state.manage(p);
    proof {
        let after = *state;
        assert(mid.unmanaged_graph().dom().contains(p.index));
        lemma_reaches_self(mid.unmanaged_graph(), p.index);
        assert(after.managed(p.index));
        assert(after.value(p.index) == mid.value(p.index));
        assert(after.edges(p.index) == mid.edges(p.index));
        assert forall|i: usize| #[trigger] before.live(i) implies after.live(i) && after.value(i) == before.value(i) && after.edges(i) == before.edges(i) by {
            assert(mid.slots_view()[i as int] == before.slots_view()[i as int]);
            assert(mid.live(i));
        }
        assert forall|i: usize| #[trigger] mid.managed(i) == before.managed(i) by {
            if i < p.index {
                assert(mid.slots_view()[i as int] == before.slots_view()[i as int]);
            }
        }
        assert(mid.unmanaged_graph() =~= after.unmanaged_before(&before)) by {
            assert forall|i: usize| #[trigger] mid.live(i) == after.live(i) by {}
            assert forall|i: usize| mid.live(i) implies #[trigger] mid.edges(i) == after.edges(i) by {}
        }
    }
    p
}

/// Manages `ptr` and every unmanaged allocation it reaches.
pub fn manage<T>(state: &mut GcState<T>, ptr: GcPtr)
    requires
        old(state).wf(),
    ensures
        manage_result(*old(state), *final(state), ptr),
{
    state.manage(ptr)
}

/// How many allocations the heap manages.
pub fn count_managed_objects<T>(state: &GcState<T>) -> (r: usize)
    ensures
        r == state.object_list().len(),
        state.wf() ==> r == state.managed_set().len(),
{
    state.count_managed_objects()
}

/// How many roots the heap has.
pub fn count_roots<T>(state: &GcState<T>) -> (r: usize)
    ensures
        r == state.root_stack().len(),
{
    state.count_roots()
}

/// Collects the heap: every managed allocation that no root reaches is
/// finalized and freed; the others stay as they were.
pub fn collect<T: Trace>(state: &mut GcState<T>)
    requires
        old(state).wf(),
    ensures
        collect_result(*old(state), *final(state)),
{
    state.collect()
}

} // verus!
