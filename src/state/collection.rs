use vstd::prelude::*;

use crate::allocation::Allocation;
use crate::gc_ptr::GcPtr;
use crate::reach::{closed_under, has_edge, lemma_closed_holds_reached, lemma_reaches_self, lemma_reaches_step, reaches};
use crate::trace::Trace;
use vstd::set_lib::{lemma_int_range, lemma_len_subset, set_int_range};

use super::GcState;

verus! {

proof fn lemma_push_contains<A>(s: Seq<A>, v: A, x: A)
    ensures
        s.push(v).contains(x) <==> (s.contains(x) || x == v),
{
    if s.push(v).contains(x) && x != v {
        let m = choose|m: int| 0 <= m < s.push(v).len() && s.push(v)[m] == x;
        assert(s[m] == x);
    }
    if s.contains(x) {
        let m = choose|m: int| 0 <= m < s.len() && s[m] == x;
        assert(s.push(v)[m] == x);
    }
    if x == v {
        assert(s.push(v)[s.len() as int] == x);
    }
}

impl<T> GcState<T> {
    /// Sets the mark bit of the live allocation in slot `i`.
    fn mark_slot(&mut self, i: usize)
        requires
            old(self).live(i),
        ensures
            final(self).slot_count() == old(self).slot_count(),
            forall|k: usize| k < old(self).slot_count() && k != i ==> #[trigger] final(self).slots_view()[k as int] == old(self).slots_view()[k as int],
            final(self).live(i),
            final(self).marked(i),
            final(self).managed(i) == old(self).managed(i),
            final(self).value(i) == old(self).value(i),
            final(self).edges(i) == old(self).edges(i),
            final(self).object_list() == old(self).object_list(),
            final(self).root_stack() == old(self).root_stack(),
            final(self).finalized_log() == old(self).finalized_log(),
    {
        let mut slot: Option<Allocation<T>> = None;
        self.slots.set_and_swap(i, &mut slot);
        let mut a = slot.unwrap();
        a.mark();
        self.slots.set(i, Some(a));
    }

    /// Whether slot `i` holds a managed allocation whose mark bit is clear.
    fn is_unmarked_managed(&self, i: usize) -> (r: bool)
        ensures
            r == (self.managed(i) && !self.marked(i)),
    {
        if i < self.slots.len() {
            match &self.slots[i] {
                Some(a) => !a.is_unmanaged() && !a.is_marked_now(),
                None => false,
            }
        } else {
            false
        }
    }

    /// The mark phase: marks exactly the allocations that a root reaches.
    fn mark_from_roots(&mut self)
        requires
            old(self).wf(),
        ensures
            final(self).same_payloads(old(self)),
            final(self).object_list() == old(self).object_list(),
            final(self).root_stack() == old(self).root_stack(),
            final(self).finalized_log() == old(self).finalized_log(),
            forall|i: usize| #[trigger] final(self).managed(i) == old(self).managed(i),
            forall|i: usize| #[trigger] final(self).marked(i) == old(self).root_reachable(i),
    {
        let ghost start = *self;
        let ghost g = start.managed_graph();
        let ghost n = start.slot_count();
        let mut stack: Vec<GcPtr> = Vec::new();
        let mut k: usize = 0;
        while k < self.roots.len()
            invariant
                *self == start,
                0 <= k <= self.root_stack().len(),
                forall|m: int| 0 <= m < stack@.len() ==> #[trigger] start.is_root(stack@[m].index),
                forall|m: int| 0 <= m < k && self.root_stack()[m] is Some ==> stack@.contains(#[trigger] self.root_stack()[m]->0),
            decreases self.root_stack().len() - k,
        {
            match self.roots[k] {
                Some(r) => {
                    let ghost before = stack@;
                    stack.push(r);
                    proof {
                        assert(start.root_stack()[k as int] == Some(GcPtr { index: r.index }));
                        assert forall|m: int| 0 <= m < k + 1 && self.root_stack()[m] is Some implies stack@.contains(#[trigger] self.root_stack()[m]->0) by {
                            if m == k {
                                assert(stack@[before.len() as int] == r);
                            } else {
                                let x = choose|x: int| 0 <= x < before.len() && before[x] == self.root_stack()[m]->0;
                                assert(stack@[x] == before[x]);
                            }
                        }
                    }
                },
                None => {},
            }
            k = k + 1;
        }
        let ghost mut unvisited: Set<int> = set_int_range(0, n as int);
        proof {
            lemma_int_range(0, n as int);
            assert forall|m: int| 0 <= m < stack@.len() && g.dom().contains(#[trigger] stack@[m].index) implies start.root_reachable(stack@[m].index) by {
                lemma_reaches_self(g, stack@[m].index);
                assert(start.is_root(stack@[m].index));
            }
            assert forall|i: usize| start.live(i) implies !#[trigger] start.marked(i) by {}
        }
        while stack.len() > 0
            invariant
                start.wf(),
                g == start.managed_graph(),
                n == start.slot_count(),
                self.same_payloads(&start),
                self.root_stack() == start.root_stack(),
                self.finalized_log() == start.finalized_log(),
                self.object_list() == start.object_list(),
                forall|i: usize| #[trigger] self.managed(i) == start.managed(i),
                unvisited.subset_of(set_int_range(0, n as int)),
                set_int_range(0, n as int).finite(),
                forall|i: usize| #[trigger] self.marked(i) <==> (g.dom().contains(i) && !unvisited.contains(i as int)),
                forall|i: usize| g.dom().contains(i) && !unvisited.contains(i as int) ==> #[trigger] start.root_reachable(i),
                forall|m: int| 0 <= m < stack@.len() && g.dom().contains(#[trigger] stack@[m].index) ==> start.root_reachable(stack@[m].index),
                forall|r: usize| #[trigger] start.is_root(r) && g.dom().contains(r) ==> !unvisited.contains(r as int) || stack@.contains(GcPtr { index: r }),
                forall|i: usize, j: int|
                    g.dom().contains(i) && !unvisited.contains(i as int) && 0 <= j < self.edges(i).len() && g.dom().contains(#[trigger] self.edges(i)[j].index)
                        ==> !unvisited.contains(self.edges(i)[j].index as int) || stack@.contains(self.edges(i)[j]),
            decreases unvisited.len(), stack@.len(),
        {
            let ghost old_stack = stack@;
            let q = stack.pop().unwrap();
            let ghost popped = stack@;
            proof {
                lemma_len_subset(unvisited, set_int_range(0, n as int));
                assert(old_stack == popped.push(q));
                assert(old_stack[old_stack.len() - 1] == q);
            }
            if self.is_unmarked_managed(q.index) {
                let mut es = self.edges_copy(q.index);
                let ghost before = *self;
                let ghost old_unvisited = unvisited;
                proof {
                    assert(g.dom().contains(q.index));
                    assert(unvisited.contains(q.index as int));
                    assert(start.root_reachable(q.index));
                }
                self.mark_slot(q.index);
                proof {
                    unvisited = old_unvisited.remove(q.index as int);
                    assert forall|i: usize| #[trigger] self.live(i) == start.live(i) by {
                        if i != q.index && i < n {
                            assert(self.slots_view()[i as int] == before.slots_view()[i as int]);
                            assert(before.live(i) == start.live(i));
                        }
                    }
                    assert forall|i: usize| start.live(i) implies #[trigger] self.value(i) == start.value(i) by {
                        if i != q.index {
                            assert(self.slots_view()[i as int] == before.slots_view()[i as int]);
                        }
                        assert(before.value(i) == start.value(i));
                    }
                    assert forall|i: usize| start.live(i) implies #[trigger] self.edges(i) == start.edges(i) by {
                        if i != q.index {
                            assert(self.slots_view()[i as int] == before.slots_view()[i as int]);
                        }
                        assert(before.edges(i) == start.edges(i));
                    }
                    assert forall|i: usize| #[trigger] self.managed(i) == start.managed(i) by {
                        if i != q.index && i < n {
                            assert(self.slots_view()[i as int] == before.slots_view()[i as int]);
                        }
                        assert(before.managed(i) == start.managed(i));
                    }
                    assert forall|i: usize| #[trigger] self.marked(i) <==> (g.dom().contains(i) && !unvisited.contains(i as int)) by {
                        if i != q.index {
                            if i < n {
                                assert(self.slots_view()[i as int] == before.slots_view()[i as int]);
                            }
                            assert(before.marked(i) == self.marked(i));
                        }
                    }
                    let obj = self.object_list();
                    assert(obj == start.object_list());
                }
                stack.append(&mut es);
                proof {
                    let new_stack = stack@;
                    assert(new_stack == popped + start.edges(q.index));
                    assert forall|i: usize| g.dom().contains(i) && !unvisited.contains(i as int) implies #[trigger] start.root_reachable(i) by {
                        if i != q.index {
                            assert(!old_unvisited.contains(i as int));
                        }
                    }
                    assert forall|m: int| 0 <= m < new_stack.len() && g.dom().contains(#[trigger] new_stack[m].index) implies start.root_reachable(new_stack[m].index) by {
                        if m < popped.len() {
                            assert(old_stack[m] == new_stack[m]);
                        } else {
                            let e = new_stack[m];
                            assert(start.edges(q.index)[m - popped.len()] == e);
                            assert(g[q.index] == start.edges(q.index));
                            assert(g[q.index].contains(GcPtr { index: e.index }));
                            let r = choose|r: usize| #[trigger] start.is_root(r) && reaches(g, r, q.index);
                            lemma_reaches_step(g, r, q.index, e.index);
                        }
                    }
                    assert forall|r: usize| #[trigger] start.is_root(r) && g.dom().contains(r) implies !unvisited.contains(r as int) || new_stack.contains(GcPtr { index: r }) by {
                        if unvisited.contains(r as int) {
                            let m = choose|m: int| 0 <= m < old_stack.len() && old_stack[m] == GcPtr { index: r };
                            assert(m < popped.len());
                            assert(new_stack[m] == GcPtr { index: r });
                        }
                    }
                    assert forall|i: usize, j: int|
                        g.dom().contains(i) && !unvisited.contains(i as int) && 0 <= j < self.edges(i).len() && g.dom().contains(#[trigger] self.edges(i)[j].index)
                        implies !unvisited.contains(self.edges(i)[j].index as int) || new_stack.contains(self.edges(i)[j]) by {
                        let e = self.edges(i)[j];
                        if i == q.index {
                            assert(new_stack[popped.len() + j] == e);
                        } else {
                            assert(!old_unvisited.contains(i as int));
                            assert(before.edges(i) == self.edges(i));
                            assert(before.edges(i)[j] == e);
                            if unvisited.contains(e.index as int) {
                                assert(old_stack.contains(e));
                                let m = choose|m: int| 0 <= m < old_stack.len() && old_stack[m] == e;
                                assert(m < popped.len());
                                assert(new_stack[m] == e);
                            }
                        }
                    }
                    lemma_len_subset(unvisited, set_int_range(0, n as int));
                }
            } else {
                proof {
                    assert forall|m: int| 0 <= m < popped.len() && g.dom().contains(#[trigger] popped[m].index) implies start.root_reachable(popped[m].index) by {
                        assert(old_stack[m] == popped[m]);
                    }
                    assert forall|r: usize| #[trigger] start.is_root(r) && g.dom().contains(r) implies !unvisited.contains(r as int) || popped.contains(GcPtr { index: r }) by {
                        if unvisited.contains(r as int) {
                            let m = choose|m: int| 0 <= m < old_stack.len() && old_stack[m] == GcPtr { index: r };
                            if m == popped.len() {
                                assert(self.managed(r));
                            } else {
                                assert(popped[m] == GcPtr { index: r });
                            }
                        }
                    }
                    assert forall|i: usize, j: int|
                        g.dom().contains(i) && !unvisited.contains(i as int) && 0 <= j < self.edges(i).len() && g.dom().contains(#[trigger] self.edges(i)[j].index)
                        implies !unvisited.contains(self.edges(i)[j].index as int) || popped.contains(self.edges(i)[j]) by {
                        let e = self.edges(i)[j];
                        if unvisited.contains(e.index as int) {
                            let m = choose|m: int| 0 <= m < old_stack.len() && old_stack[m] == e;
                            if m == popped.len() {
                                assert(self.managed(e.index));
                            } else {
                                assert(popped[m] == e);
                            }
                        }
                    }
                }
            }
        }
        proof {
            let s = Set::new(|i: usize| g.dom().contains(i) && !unvisited.contains(i as int));
            assert forall|a: usize, b: usize| #[trigger] s.contains(a) && #[trigger] has_edge(g, a, b) implies s.contains(b) by {
                let j = choose|j: int| 0 <= j < g[a].len() && g[a][j] == GcPtr { index: b };
                assert(self.edges(a)[j].index == b);
            }
            assert(closed_under(g, s));
            assert forall|i: usize| #[trigger] self.marked(i) == start.root_reachable(i) by {
                if start.root_reachable(i) {
                    let r = choose|r: usize| #[trigger] start.is_root(r) && reaches(g, r, i);
                    crate::reach::lemma_reaches_dom(g, r, i);
                    lemma_closed_holds_reached(g, s, r, i);
                }
            }
        }
    }

    /// What the mark phase leaves for the sweep: the heap's invariant, but
    /// with the mark bits set on a set of managed allocations closed under edges.
    pub open spec fn marked_for_sweep(&self) -> bool {
        &&& self.object_list().no_duplicates()
        &&& forall|k: int| 0 <= k < self.object_list().len() ==> self.managed(#[trigger] self.object_list()[k])
        &&& forall|i: usize| self.managed(i) ==> #[trigger] self.object_list().contains(i)
        &&& forall|i: usize| #[trigger] self.marked(i) ==> self.managed(i)
        &&& forall|i: usize, j: int| self.live(i) && 0 <= j < self.edges(i).len() ==> #[trigger] self.edges(i)[j].index < self.slot_count()
        &&& forall|i: usize, j: int|
            self.managed(i) && 0 <= j < self.edges(i).len() && self.live(#[trigger] self.edges(i)[j].index) ==> self.managed(self.edges(i)[j].index)
        &&& forall|i: usize, j: int|
            self.marked(i) && 0 <= j < self.edges(i).len() && self.live(#[trigger] self.edges(i)[j].index) ==> self.marked(self.edges(i)[j].index)
        &&& self.finalized_log().no_duplicates()
        &&& forall|k: int| 0 <= k < self.finalized_log().len() ==> #[trigger] self.finalized_log()[k] < self.slot_count()
        &&& forall|k: int| 0 <= k < self.finalized_log().len() ==> !self.live(#[trigger] self.finalized_log()[k])
    }

    /// The sweep phase: frees, finalizer first, every managed allocation whose
    /// mark bit is clear, and clears the bit on the others.
    fn sweep(&mut self)
        where
            T: Trace,
        requires
            old(self).marked_for_sweep(),
        ensures
            final(self).wf(),
            final(self).root_stack() == old(self).root_stack(),
            final(self).slot_count() == old(self).slot_count(),
            forall|i: usize| #[trigger] final(self).live(i) <==> (old(self).live(i) && (!old(self).managed(i) || old(self).marked(i))),
            forall|i: usize| final(self).live(i) ==> #[trigger] final(self).value(i) == old(self).value(i),
            forall|i: usize| final(self).live(i) ==> #[trigger] final(self).edges(i) == old(self).edges(i),
            forall|i: usize| final(self).live(i) ==> #[trigger] final(self).managed(i) == old(self).managed(i),
            final(self).object_list() == old(self).object_list().filter(|i: usize| old(self).marked(i)),
            final(self).finalized_log() == old(self).finalized_log() + old(self).object_list().filter(|i: usize| !old(self).marked(i)),
    {
        let ghost start = *self;
        let ghost objs = start.object_list();
        let ghost n = start.slot_count();
        let ghost pred = |i: usize| start.marked(i);
        let ghost dead = |i: usize| !start.marked(i);
        proof {
            assert(objs.subrange(0, 0) =~= Seq::<usize>::empty());
            assert(Seq::<usize>::empty().filter(dead) =~= Seq::<usize>::empty()) by {
                reveal(Seq::filter);
            }
            assert(start.finalized_log() + Seq::<usize>::empty() =~= start.finalized_log());
        }
        let mut kept: Vec<usize> = Vec::new();
        let mut k: usize = 0;
        while k < self.objects.len()
            invariant
                start.marked_for_sweep(),
                objs == start.object_list(),
                n == start.slot_count(),
                pred == (|i: usize| start.marked(i)),
                dead == (|i: usize| !start.marked(i)),
                self.finalized_log() == start.finalized_log() + objs.subrange(0, k as int).filter(dead),
                self.finalized_log().no_duplicates(),
                forall|m: int| 0 <= m < self.finalized_log().len() ==> #[trigger] self.finalized_log()[m] < n,
                forall|m: int| 0 <= m < self.finalized_log().len() ==> !self.live(#[trigger] self.finalized_log()[m]),
                self.object_list() == objs,
                self.root_stack() == start.root_stack(),
                self.slot_count() == n,
                0 <= k <= objs.len(),
                forall|i: usize| i < n && !objs.subrange(0, k as int).contains(i) ==> #[trigger] self.slots_view()[i as int] == start.slots_view()[i as int],
                forall|i: usize| #[trigger] objs.subrange(0, k as int).contains(i) ==> (self.live(i) <==> start.marked(i)),
                forall|i: usize| objs.subrange(0, k as int).contains(i) && self.live(i) ==> {
                    &&& #[trigger] self.value(i) == start.value(i)
                    &&& self.edges(i) == start.edges(i)
                    &&& self.managed(i) == start.managed(i)
                    &&& !self.marked(i)
                },
                kept@ == objs.subrange(0, k as int).filter(pred),
                kept@.no_duplicates(),
                forall|x: usize| #[trigger] kept@.contains(x) <==> (objs.subrange(0, k as int).contains(x) && start.marked(x)),
            decreases objs.len() - k,
        {
            let i = self.objects[k];
            let ghost done = objs.subrange(0, k as int);
            proof {
                assert(objs.subrange(0, k + 1) =~= done.push(i));
                done.lemma_filter_push(i, pred);
                done.lemma_filter_push(i, dead);
                if done.contains(i) {
                    let m = choose|m: int| 0 <= m < done.len() && done[m] == i;
                    assert(objs[m] == objs[k as int]);
                }
                assert(self.slots_view()[i as int] == start.slots_view()[i as int]);
                assert(start.managed(objs[k as int]));
            }
            let ghost before = *self;
            let ghost kept_before = kept@;
            proof {
                assert(before.live(i));
                if before.finalized_log().contains(i) {
                    let m = choose|m: int| 0 <= m < before.finalized_log().len() && before.finalized_log()[m] == i;
                    assert(!before.live(before.finalized_log()[m]));
                }
            }
            let mut slot: Option<Allocation<T>> = None;
            self.slots.set_and_swap(i, &mut slot);
            let mut a = slot.unwrap();
            let ghost a0 = a;
            proof {
                assert(a0 == start.alloc_at(i));
            }
            if a.marked() {
                self.slots.set(i, Some(a));
                kept.push(i);
                proof {
                    assert(self.slots_view()[i as int] == Some(a));
                    assert(self.value(i) == start.value(i));
                    assert(self.edges(i) == start.edges(i));
                    assert(self.managed(i) == start.managed(i));
                    assert(!self.marked(i));
                    assert forall|x: usize| #[trigger] kept@.contains(x) <==> (objs.subrange(0, k + 1).contains(x) && start.marked(x)) by {
                        lemma_push_contains(kept_before, i, x);
                        lemma_push_contains(done, i, x);
                    }
                    assert forall|a1: int, b1: int| 0 <= a1 < b1 < kept@.len() implies kept@[a1] != kept@[b1] by {
                        if b1 == kept@.len() - 1 {
                            assert(kept_before[a1] == kept@[a1]);
                            assert(kept_before.contains(kept_before[a1]));
                        } else {
                            assert(kept_before[a1] == kept@[a1]);
                            assert(kept_before[b1] == kept@[b1]);
                        }
                    }
                }
                proof {
                    assert forall|m: int| 0 <= m < self.finalized_log().len() implies !self.live(#[trigger] self.finalized_log()[m]) by {
                        let x = self.finalized_log()[m];
                        assert(!before.live(x));
                        assert(x != i);
                        assert(self.slots_view()[x as int] == before.slots_view()[x as int]);
                    }
                }
            } else {
                a.free();
                self.finalized = Ghost(self.finalized@.push(i));
                proof {
                    assert(kept@ == kept_before);
                    let log0 = before.finalized_log();
                    assert(self.finalized_log() == log0.push(i));
                    assert(self.finalized_log() =~= start.finalized_log() + objs.subrange(0, k + 1).filter(dead));
                    assert forall|a1: int, b1: int| 0 <= a1 < b1 < self.finalized_log().len() implies self.finalized_log()[a1] != self.finalized_log()[b1] by {
                        if b1 == log0.len() {
                            assert(log0.contains(log0[a1]));
                        } else {
                            assert(log0[a1] == self.finalized_log()[a1]);
                            assert(log0[b1] == self.finalized_log()[b1]);
                        }
                    }
                    assert forall|m: int| 0 <= m < self.finalized_log().len() implies #[trigger] self.finalized_log()[m] < n by {
                        if m < log0.len() {
                            assert(log0[m] == self.finalized_log()[m]);
                        }
                    }
                    assert forall|m: int| 0 <= m < self.finalized_log().len() implies !self.live(#[trigger] self.finalized_log()[m]) by {
                        let x = self.finalized_log()[m];
                        if m < log0.len() {
                            assert(log0[m] == x);
                            assert(!before.live(x));
                            if x != i {
                                assert(self.slots_view()[x as int] == before.slots_view()[x as int]);
                            }
                        }
                    }
                }
            }
            proof {
                assert forall|x: usize| x < n && x != i implies #[trigger] self.slots_view()[x as int] == before.slots_view()[x as int] by {}
                assert forall|x: usize| x < n && !objs.subrange(0, k + 1).contains(x) implies #[trigger] self.slots_view()[x as int] == start.slots_view()[x as int] by {
                    lemma_push_contains(done, i, x);
                    lemma_push_contains(done, i, i);
                    assert(x != i);
                    assert(!done.contains(x));
                    assert(before.slots_view()[x as int] == start.slots_view()[x as int]);
                }
                assert forall|x: usize| #[trigger] objs.subrange(0, k + 1).contains(x) implies (self.live(x) <==> start.marked(x)) by {
                    lemma_push_contains(done, i, x);
                    if x != i {
                        assert(done.contains(x));
                        assert(before.slots_view()[x as int] == self.slots_view()[x as int]);
                    }
                }
                assert forall|x: usize| objs.subrange(0, k + 1).contains(x) && self.live(x) implies {
                    &&& #[trigger] self.value(x) == start.value(x)
                    &&& self.edges(x) == start.edges(x)
                    &&& self.managed(x) == start.managed(x)
                    &&& !self.marked(x)
                } by {
                    lemma_push_contains(done, i, x);
                    if x != i {
                        assert(done.contains(x));
                        assert(before.slots_view()[x as int] == self.slots_view()[x as int]);
                        assert(before.live(x));
                        assert(before.value(x) == start.value(x));
                    }
                }
            }
            k = k + 1;
        }
        let ghost last = *self;
        self.objects = kept;
        proof {
            assert(self.finalized_log() == last.finalized_log());
            assert forall|m: int| 0 <= m < self.finalized_log().len() implies !self.live(#[trigger] self.finalized_log()[m]) by {
                assert(!last.live(last.finalized_log()[m]));
            }
            assert(self.slots_view() == last.slots_view());
            assert(objs.subrange(0, objs.len() as int) =~= objs);
            assert forall|i: usize| #[trigger] self.live(i) <==> (start.live(i) && (!start.managed(i) || start.marked(i))) by {
                if objs.contains(i) {
                    assert(start.managed(objs[choose|m: int| 0 <= m < objs.len() && objs[m] == i]));
                } else if i < n {
                    assert(self.slots_view()[i as int] == start.slots_view()[i as int]);
                }
            }
            assert forall|i: usize| self.live(i) implies #[trigger] self.value(i) == start.value(i) && self.edges(i) == start.edges(i) && self.managed(i) == start.managed(i) && !self.marked(i) by {
                if objs.contains(i) {
                    assert(objs.subrange(0, k as int).contains(i));
                    assert(last.live(i));
                    assert(last.value(i) == start.value(i));
                    assert(self.value(i) == start.value(i));
                    assert(self.edges(i) == start.edges(i));
                    assert(self.managed(i) == start.managed(i));
                } else {
                    assert(self.slots_view()[i as int] == start.slots_view()[i as int]);
                    if start.marked(i) {
                        assert(start.object_list().contains(i));
                    }
                }
            }
            assert forall|i: usize| self.live(i) implies #[trigger] self.edges(i) == start.edges(i) by {
                assert(self.value(i) == start.value(i));
            }
            assert forall|i: usize| self.live(i) implies #[trigger] self.managed(i) == start.managed(i) by {
                assert(self.value(i) == start.value(i));
            }
            assert forall|i: usize| self.live(i) implies !#[trigger] self.marked(i) by {
                assert(self.value(i) == start.value(i));
            }
            assert forall|m: int| 0 <= m < self.object_list().len() implies self.managed(#[trigger] self.object_list()[m]) by {
                let x = self.object_list()[m];
                assert(kept@.contains(x));
                assert(self.value(x) == start.value(x));
            }
            assert forall|i: usize| self.managed(i) implies #[trigger] self.object_list().contains(i) by {
                assert(self.value(i) == start.value(i));
                assert(start.object_list().contains(i));
            }
            assert forall|i: usize, j: int| self.live(i) && 0 <= j < self.edges(i).len() implies #[trigger] self.edges(i)[j].index < self.slot_count() by {
                assert(self.value(i) == start.value(i));
                assert(start.edges(i)[j].index < start.slot_count());
            }
            assert forall|i: usize, j: int|
                self.managed(i) && 0 <= j < self.edges(i).len() && self.live(#[trigger] self.edges(i)[j].index) implies self.managed(self.edges(i)[j].index) by {
                let e = self.edges(i)[j];
                assert(self.value(i) == start.value(i));
                assert(start.edges(i)[j] == e);
                assert(start.live(e.index));
                assert(start.object_list().contains(i));
                assert(start.marked(i));
                assert(start.marked(e.index));
                assert(self.value(e.index) == start.value(e.index));
            }
        }
    }

    /// Collects the heap: frees every managed allocation that no root reaches,
    /// running its finalizer once first, and keeps all the others as they were.
    pub fn collect(&mut self)
        where
            T: Trace,
        requires
            old(self).wf(),
        ensures
            final(self).wf(),
            final(self).root_stack() == old(self).root_stack(),
            final(self).slot_count() == old(self).slot_count(),
            forall|i: usize| #[trigger] final(self).live(i) <==> (old(self).live(i) && (!old(self).managed(i) || old(self).root_reachable(i))),
            forall|i: usize| final(self).live(i) ==> #[trigger] final(self).value(i) == old(self).value(i),
            forall|i: usize| final(self).live(i) ==> #[trigger] final(self).edges(i) == old(self).edges(i),
            forall|i: usize| final(self).live(i) ==> #[trigger] final(self).managed(i) == old(self).managed(i),
            forall|i: usize| final(self).live(i) ==> !#[trigger] final(self).marked(i),
            final(self).object_list() == old(self).object_list().filter(|i: usize| old(self).root_reachable(i)),
            final(self).finalized_log() == old(self).finalized_log() + old(self).object_list().filter(|i: usize| !old(self).root_reachable(i)),
    {
        let ghost start = *self;
        self.mark_from_roots();
        proof {
            let g = start.managed_graph();
            assert forall|i: usize| #[trigger] self.marked(i) implies self.managed(i) by {
                let r = choose|r: usize| #[trigger] start.is_root(r) && reaches(g, r, i);
                crate::reach::lemma_reaches_dom(g, r, i);
            }
            assert forall|i: usize, j: int| self.live(i) && 0 <= j < self.edges(i).len() implies #[trigger] self.edges(i)[j].index < self.slot_count() by {
                assert(start.edges(i)[j].index < start.slot_count());
            }
            assert forall|i: usize, j: int|
                self.managed(i) && 0 <= j < self.edges(i).len() && self.live(#[trigger] self.edges(i)[j].index) implies self.managed(self.edges(i)[j].index) by {
                assert(start.edges(i)[j] == self.edges(i)[j]);
            }
            assert forall|i: usize, j: int|
                self.marked(i) && 0 <= j < self.edges(i).len() && self.live(#[trigger] self.edges(i)[j].index) implies self.marked(self.edges(i)[j].index) by {
                let e = self.edges(i)[j];
                assert(start.edges(i)[j] == e);
                assert(start.managed(e.index));
                let r = choose|r: usize| #[trigger] start.is_root(r) && reaches(g, r, i);
                assert(g[i].contains(GcPtr { index: e.index }));
                lemma_reaches_step(g, r, i, e.index);
            }
            assert forall|m: int| 0 <= m < self.object_list().len() implies self.managed(#[trigger] self.object_list()[m]) by {
                assert(start.managed(start.object_list()[m]));
            }
            assert forall|m: int| 0 <= m < self.finalized_log().len() implies !self.live(#[trigger] self.finalized_log()[m]) by {
                assert(!start.live(start.finalized_log()[m]));
            }
        }
        let ghost mid = *self;
        self.sweep();
        proof {
            assert((|i: usize| mid.marked(i)) =~= (|i: usize| start.root_reachable(i)));
            assert((|i: usize| !mid.marked(i)) =~= (|i: usize| !start.root_reachable(i)));
        }
    }
}

} // verus!
