use vstd::prelude::*;

use crate::gc_ptr::GcPtr;
use crate::ops::{alloc_unmanaged_result, collect_result, manage_result};
use crate::reach::{lemma_reaches_self, lemma_reaches_step};
use crate::state::GcState;
use crate::trace::Trace;

verus! {

/// One root pushed: the stack grows by one slot, the slots below it unchanged
/// (the new slot may already be set).
pub open spec fn pushed_one(before: Seq<Option<GcPtr>>, after: Seq<Option<GcPtr>>) -> bool {
    after.len() == before.len() + 1 && after.subrange(0, before.len() as int) == before
}

proof fn lemma_push_phase<T>(states: Seq<GcState<T>>, k: int, j: int)
    requires
        0 <= j <= k,
        states.len() == 2 * k + 1,
        forall|m: int| 0 <= m < k ==> #[trigger] pushed_one(states[m].root_stack(), states[m + 1].root_stack()),
    ensures
        states[j].root_stack().len() == states[0].root_stack().len() + j,
        states[j].root_stack().subrange(0, states[0].root_stack().len() as int) == states[0].root_stack(),
    decreases j,
{
    let r0 = states[0].root_stack();
    if j == 0 {
        assert(r0.subrange(0, r0.len() as int) =~= r0);
    } else {
        lemma_push_phase(states, k, j - 1);
        assert(pushed_one(states[j - 1].root_stack(), states[(j - 1) + 1].root_stack()));
        assert((j - 1) + 1 == j);
        let prev = states[j - 1].root_stack();
        let cur = states[j].root_stack();
        assert(cur.subrange(0, r0.len() as int) =~= cur.subrange(0, prev.len() as int).subrange(0, r0.len() as int));
    }
}

proof fn lemma_pop_phase<T>(states: Seq<GcState<T>>, k: int, m: int)
    requires
        0 <= m <= k,
        states.len() == 2 * k + 1,
        forall|x: int| 0 <= x < k ==> #[trigger] pushed_one(states[x].root_stack(), states[x + 1].root_stack()),
        forall|x: int| 0 <= x < k ==> #[trigger] states[k + x + 1].root_stack() == states[k + x].root_stack().drop_last(),
    ensures
        states[k + m].root_stack().len() == states[0].root_stack().len() + k - m,
        states[k + m].root_stack().subrange(0, states[0].root_stack().len() as int) == states[0].root_stack(),
    decreases m,
{
    let r0 = states[0].root_stack();
    if m == 0 {
        lemma_push_phase(states, k, k);
    } else {
        lemma_pop_phase(states, k, m - 1);
        assert(states[k + (m - 1) + 1].root_stack() == states[k + (m - 1)].root_stack().drop_last());
        let prev = states[k + m - 1].root_stack();
        let cur = states[k + m].root_stack();
        assert(cur.subrange(0, r0.len() as int) =~= prev.subrange(0, r0.len() as int));
    }
}

/// Roots nest. Let `k` roots be pushed one after the other (`Root::new`, each
/// slot perhaps set at once), from `states[0]` to `states[k]`, and then
/// released (`release`) from `states[k]` to `states[2k]`. Then the `j`-th root
/// pushed stands at index `len + j`, where `len` is the height of the stack at
/// the start; each release in reverse order meets `release`'s demand that the
/// root be the top, and since only one root is the top, releasing an earlier
/// one while a later one stands is refused; and the stack ends as it began.
pub proof fn root_lifo<T>(states: Seq<GcState<T>>, k: int)
    requires
        k >= 0,
        states.len() == 2 * k + 1,
        forall|j: int| 0 <= j < k ==> #[trigger] pushed_one(states[j].root_stack(), states[j + 1].root_stack()),
        forall|m: int| 0 <= m < k ==> #[trigger] states[k + m + 1].root_stack() == states[k + m].root_stack().drop_last(),
    ensures
        forall|j: int| 0 <= j < k ==> #[trigger] states[j].root_stack().len() == states[0].root_stack().len() + j,
        forall|m: int| 0 <= m < k ==> (states[0].root_stack().len() + (k - 1 - m)) + 1 == #[trigger] states[k + m].root_stack().len(),
        states[2 * k].root_stack() == states[0].root_stack(),
{
    assert forall|j: int| 0 <= j < k implies #[trigger] states[j].root_stack().len() == states[0].root_stack().len() + j by {
        lemma_push_phase(states, k, j);
    }
    assert forall|m: int| 0 <= m < k implies (states[0].root_stack().len() + (k - 1 - m)) + 1 == #[trigger] states[k + m].root_stack().len() by {
        lemma_pop_phase(states, k, m);
    }
    lemma_pop_phase(states, k, k);
    let last = states[2 * k].root_stack();
    let r0 = states[0].root_stack();
    assert(last.subrange(0, r0.len() as int) =~= last);
}

/// An allocation made by `alloc_unmanaged` is unmanaged right after, and
/// becomes managed when `manage` is called on it.
pub proof fn unmanaged_until_managed<T: Trace>(s0: GcState<T>, s1: GcState<T>, s2: GcState<T>, data: T, p: GcPtr)
    requires
        s0.wf(),
        alloc_unmanaged_result(s0, s1, data, p),
        manage_result(s1, s2, p),
    ensures
        s1.live(p.index),
        !s1.managed(p.index),
        s2.managed(p.index),
        s2.object_list().contains(p.index),
{
    assert(s1.unmanaged_graph().dom().contains(p.index));
    lemma_reaches_self(s1.unmanaged_graph(), p.index);
}

/// Managing a pointer twice is managing it once: the second call leaves the
/// heap, and its object list, exactly as the first left them, and no
/// allocation is listed twice.
pub proof fn manage_idempotent<T>(s0: GcState<T>, s1: GcState<T>, s2: GcState<T>, p: GcPtr)
    requires
        s0.wf(),
        manage_result(s0, s1, p),
        manage_result(s1, s2, p),
    ensures
        s2 == s1,
        s2.object_list() == s1.object_list(),
        s2.object_list().no_duplicates(),
{
    if s0.live(p.index) && !s0.managed(p.index) {
        assert(s0.unmanaged_graph().dom().contains(p.index));
        lemma_reaches_self(s0.unmanaged_graph(), p.index);
        assert(s1.managed(p.index));
    }
}

/// A payload stays as it was allocated for as long as it is allocated:
/// managing and collecting never touch it, so when its finalizer finally runs
/// it sees the value that was allocated, its own fields intact.
pub proof fn payload_intact_until_freed<T: Trace>(s0: GcState<T>, s1: GcState<T>, s2: GcState<T>, s3: GcState<T>, data: T, p: GcPtr, q: GcPtr)
    requires
        s0.wf(),
        alloc_unmanaged_result(s0, s1, data, p),
        manage_result(s1, s2, q),
        collect_result(s2, s3),
        s3.live(p.index),
    ensures
        s3.value(p.index) == data,
{
    assert(s2.live(p.index));
}

/// A managed allocation enters the finalized log in a collection exactly when
/// no root reaches it, and never stood there before.
proof fn lemma_finalized_once<T>(s0: GcState<T>, s1: GcState<T>, i: usize)
    requires
        s0.wf(),
        s0.managed(i),
        collect_result(s0, s1),
    ensures
        !s0.finalized_log().contains(i),
        s1.finalized_log().contains(i) <==> !s0.root_reachable(i),
        s1.finalized_log().no_duplicates(),
{
    let dead = |x: usize| !s0.root_reachable(x);
    let log0 = s0.finalized_log();
    let objs = s0.object_list();
    if log0.contains(i) {
        let m = choose|m: int| 0 <= m < log0.len() && log0[m] == i;
        assert(!s0.live(log0[m]));
    }
    assert(objs.contains(i));
    let k = choose|k: int| 0 <= k < objs.len() && objs[k] == i;
    if !s0.root_reachable(i) {
        objs.lemma_filter_contains(dead, k);
        let m = choose|m: int| 0 <= m < objs.filter(dead).len() && objs.filter(dead)[m] == i;
        assert(s1.finalized_log()[log0.len() + m] == i);
    } else if s1.finalized_log().contains(i) {
        let m = choose|m: int| 0 <= m < s1.finalized_log().len() && s1.finalized_log()[m] == i;
        if m >= log0.len() {
            objs.lemma_filter_pred(dead, m - log0.len());
        } else {
            assert(log0[m] == i);
        }
    }
}

/// Two managed allocations that point to each other both survive a collection
/// while a root designates one of them.
pub proof fn rooted_cycle_survives<T>(s0: GcState<T>, s1: GcState<T>, a: usize, b: usize)
    requires
        s0.wf(),
        s0.managed(a),
        s0.managed(b),
        s0.edges(a).contains(GcPtr { index: b }),
        s0.edges(b).contains(GcPtr { index: a }),
        s0.is_root(a),
        collect_result(s0, s1),
    ensures
        s1.live(a),
        s1.live(b),
        s1.value(a) == s0.value(a),
        s1.value(b) == s0.value(b),
{
    let g = s0.managed_graph();
    lemma_reaches_self(g, a);
    lemma_reaches_step(g, a, a, b);
    assert(s0.root_reachable(a));
    assert(s0.root_reachable(b));
}

/// The same cycle, once no root reaches it, is freed whole by a collection,
/// and each of its finalizers runs once.
pub proof fn unrooted_cycle_freed<T>(s0: GcState<T>, s1: GcState<T>, a: usize, b: usize)
    requires
        s0.wf(),
        s0.managed(a),
        s0.managed(b),
        s0.edges(a).contains(GcPtr { index: b }),
        s0.edges(b).contains(GcPtr { index: a }),
        !s0.root_reachable(a),
        !s0.root_reachable(b),
        collect_result(s0, s1),
    ensures
        !s1.live(a),
        !s1.live(b),
        !s1.object_list().contains(a),
        !s1.object_list().contains(b),
        !s0.finalized_log().contains(a) && s1.finalized_log().contains(a),
        !s0.finalized_log().contains(b) && s1.finalized_log().contains(b),
        s1.finalized_log().no_duplicates(),
{
    lemma_finalized_once(s0, s1, a);
    lemma_finalized_once(s0, s1, b);
    if s1.object_list().contains(a) {
        let k = choose|k: int| 0 <= k < s1.object_list().len() && s1.object_list()[k] == a;
        assert(s1.managed(s1.object_list()[k]));
    }
    if s1.object_list().contains(b) {
        let k = choose|k: int| 0 <= k < s1.object_list().len() && s1.object_list()[k] == b;
        assert(s1.managed(s1.object_list()[k]));
    }
}

/// A collection keeps every allocation that a root reaches, with its payload,
/// unfinalized; and it frees every managed one that no root reaches, which
/// leaves the object list and enters the finalized log, where no slot stands
/// twice: its finalizer has run exactly once.
pub proof fn collect_frees_exactly_unreached<T>(s0: GcState<T>, s1: GcState<T>, i: usize)
    requires
        s0.wf(),
        s0.managed(i),
        collect_result(s0, s1),
    ensures
        s0.root_reachable(i) ==> s1.live(i) && s1.managed(i) && s1.value(i) == s0.value(i),
        s0.root_reachable(i) ==> !s1.finalized_log().contains(i),
        !s0.root_reachable(i) ==> !s1.live(i) && !s1.object_list().contains(i),
        !s0.root_reachable(i) ==> !s0.finalized_log().contains(i) && s1.finalized_log().contains(i),
        s1.finalized_log().no_duplicates(),
        s1.live(i) ==> !s1.marked(i),
{
    lemma_finalized_once(s0, s1, i);
    if !s0.root_reachable(i) && s1.object_list().contains(i) {
        let k = choose|k: int| 0 <= k < s1.object_list().len() && s1.object_list()[k] == i;
        assert(s1.managed(s1.object_list()[k]));
    }
}

} // verus!
