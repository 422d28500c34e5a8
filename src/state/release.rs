use vstd::prelude::*;

use crate::allocation::{pointers_below, Allocation};
use crate::gc_ptr::GcPtr;
use crate::reach::{closed_under, has_edge, lemma_closed_holds_reached, lemma_reaches_self, lemma_reaches_step, reaches};
use crate::trace::Trace;
use vstd::set_lib::{lemma_int_range, lemma_len_subset, set_int_range};

use super::GcState;

verus! {

impl<T> GcState<T> {
    /// Releases the allocation `p` designates if it is live and unmanaged, as
    /// its sole owner does when it lets go of it, together with every unmanaged
    /// allocation it owns: those it reaches through unmanaged allocations.
    /// Payloads are dropped, not finalized. A pointer that is managed, or
    /// designates nothing, changes nothing.
    pub fn deallocate(&mut self, p: GcPtr)
        requires
            old(self).wf(),
        ensures
            final(self).wf(),
            final(self).slot_count() == old(self).slot_count(),
            final(self).object_list() == old(self).object_list(),
            final(self).root_stack() == old(self).root_stack(),
            final(self).finalized_log() == old(self).finalized_log(),
            forall|i: usize| #[trigger] final(self).live(i) <==> (old(self).live(i) && !reaches(old(self).unmanaged_graph(), p.index, i)),
            forall|i: usize| final(self).live(i) ==> #[trigger] final(self).slots_view()[i as int] == old(self).slots_view()[i as int],
            !(old(self).live(p.index) && !old(self).managed(p.index)) ==> *final(self) == *old(self),
    {
        if !self.is_unmanaged(p) {
            proof {
                assert forall|i: usize| #[trigger] self.live(i) <==> (self.live(i) && !reaches(self.unmanaged_graph(), p.index, i)) by {
                    if reaches(self.unmanaged_graph(), p.index, i) {
                        crate::reach::lemma_reaches_dom(self.unmanaged_graph(), p.index, i);
                    }
                }
            }
            return;
        }
        let ghost start = *self;
        let ghost g = start.unmanaged_graph();
        let ghost n = start.slot_count();
        let mut stack: Vec<GcPtr> = Vec::new();
        stack.push(p);
        let ghost mut unvisited: Set<int> = set_int_range(0, n as int);
        proof {
            lemma_int_range(0, n as int);
            lemma_reaches_self(g, p.index);
            assert(stack@[0] == p);
        }
        while stack.len() > 0
            invariant
                start.wf(),
                g == start.unmanaged_graph(),
                n == start.slot_count(),
                g.dom().contains(p.index),
                self.slot_count() == n,
                self.object_list() == start.object_list(),
                self.root_stack() == start.root_stack(),
                self.finalized_log() == start.finalized_log(),
                unvisited.subset_of(set_int_range(0, n as int)),
                set_int_range(0, n as int).finite(),
                forall|i: usize| i < n && !(g.dom().contains(i) && !unvisited.contains(i as int)) ==> #[trigger] self.slots_view()[i as int] == start.slots_view()[i as int],
                forall|i: usize| g.dom().contains(i) && !unvisited.contains(i as int) ==> !#[trigger] self.live(i),
                forall|i: usize| g.dom().contains(i) && !unvisited.contains(i as int) ==> #[trigger] reaches(g, p.index, i),
                forall|k: int| 0 <= k < stack@.len() && g.dom().contains(#[trigger] stack@[k].index) ==> reaches(g, p.index, stack@[k].index),
                !unvisited.contains(p.index as int) || stack@.contains(p),
                forall|i: usize, j: int|
                    g.dom().contains(i) && !unvisited.contains(i as int) && 0 <= j < g[i].len() && g.dom().contains(#[trigger] g[i][j].index)
                        ==> !unvisited.contains(g[i][j].index as int) || stack@.contains(g[i][j]),
            decreases unvisited.len(), stack@.len(),
        {
            let ghost old_stack = stack@;
            let q = stack.pop().unwrap();
            let ghost popped = stack@;
            proof {
                lemma_len_subset(unvisited, set_int_range(0, n as int));
                assert(old_stack == popped.push(q));
                assert(old_stack[old_stack.len() - 1] == q);
            }
            if self.is_unmanaged(q) {
                let mut es = self.edges_copy(q.index);
                let ghost before = *self;
                let ghost old_unvisited = unvisited;
                proof {
                    if !(g.dom().contains(q.index) && unvisited.contains(q.index as int)) {
                        assert(self.slots_view()[q.index as int] == start.slots_view()[q.index as int]);
                    }
                    assert(g.dom().contains(q.index));
                    assert(unvisited.contains(q.index as int));
                    assert(self.slots_view()[q.index as int] == start.slots_view()[q.index as int]);
                    assert(es@ == g[q.index]);
                }
                self.slots.set(q.index, None);
                proof {
                    unvisited = old_unvisited.remove(q.index as int);
                    assert forall|i: usize| i < n && i != q.index implies #[trigger] self.slots_view()[i as int] == before.slots_view()[i as int] by {}
                    assert forall|i: usize| i < n && !(g.dom().contains(i) && !unvisited.contains(i as int)) implies #[trigger] self.slots_view()[i as int] == start.slots_view()[i as int] by {
                        assert(before.slots_view()[i as int] == start.slots_view()[i as int]);
                    }
                    assert forall|i: usize| g.dom().contains(i) && !unvisited.contains(i as int) implies !#[trigger] self.live(i) by {
                        if i != q.index {
                            assert(self.slots_view()[i as int] == before.slots_view()[i as int]);
                            assert(!before.live(i));
                        }
                    }
                }
                stack.append(&mut es);
                proof {
                    let new_stack = stack@;
                    assert(new_stack == popped + g[q.index]);
                    assert forall|i: usize| g.dom().contains(i) && !unvisited.contains(i as int) implies #[trigger] reaches(g, p.index, i) by {
                        if i != q.index {
                            assert(!old_unvisited.contains(i as int));
                        }
                    }
                    assert forall|k: int| 0 <= k < new_stack.len() && g.dom().contains(#[trigger] new_stack[k].index) implies reaches(g, p.index, new_stack[k].index) by {
                        if k < popped.len() {
                            assert(old_stack[k] == new_stack[k]);
                        } else {
                            let e = new_stack[k];
                            assert(g[q.index][k - popped.len()] == e);
                            assert(g[q.index].contains(GcPtr { index: e.index }));
                            lemma_reaches_step(g, p.index, q.index, e.index);
                        }
                    }
                    if unvisited.contains(p.index as int) {
                        let k = choose|k: int| 0 <= k < old_stack.len() && old_stack[k] == p;
                        assert(k < popped.len());
                        assert(new_stack[k] == p);
                    }
                    assert forall|i: usize, j: int|
                        g.dom().contains(i) && !unvisited.contains(i as int) && 0 <= j < g[i].len() && g.dom().contains(#[trigger] g[i][j].index)
                        implies !unvisited.contains(g[i][j].index as int) || new_stack.contains(g[i][j]) by {
                        let e = g[i][j];
                        if i == q.index {
                            assert(new_stack[popped.len() + j] == e);
                        } else {
                            assert(!old_unvisited.contains(i as int));
                            if unvisited.contains(e.index as int) {
                                assert(old_stack.contains(e));
                                let k = choose|k: int| 0 <= k < old_stack.len() && old_stack[k] == e;
                                assert(k < popped.len());
                                assert(new_stack[k] == e);
                            }
                        }
                    }
                    lemma_len_subset(unvisited, set_int_range(0, n as int));
                }
            } else {
                proof {
                    assert forall|k: int| 0 <= k < popped.len() && g.dom().contains(#[trigger] popped[k].index) implies reaches(g, p.index, popped[k].index) by {
                        assert(old_stack[k] == popped[k]);
                    }
                    if unvisited.contains(p.index as int) {
                        let k = choose|k: int| 0 <= k < old_stack.len() && old_stack[k] == p;
                        if k == popped.len() {
                            assert(self.slots_view()[p.index as int] == start.slots_view()[p.index as int]);
                        } else {
                            assert(popped[k] == p);
                        }
                    }
                    assert forall|i: usize, j: int|
                        g.dom().contains(i) && !unvisited.contains(i as int) && 0 <= j < g[i].len() && g.dom().contains(#[trigger] g[i][j].index)
                        implies !unvisited.contains(g[i][j].index as int) || popped.contains(g[i][j]) by {
                        let e = g[i][j];
                        if unvisited.contains(e.index as int) {
                            let k = choose|k: int| 0 <= k < old_stack.len() && old_stack[k] == e;
                            if k == popped.len() {
                                assert(self.slots_view()[e.index as int] == start.slots_view()[e.index as int]);
                            } else {
                                assert(popped[k] == e);
                            }
                        }
                    }
                }
            }
        }
        proof {
            let s = Set::new(|i: usize| g.dom().contains(i) && !unvisited.contains(i as int));
            assert forall|a: usize, b: usize| #[trigger] s.contains(a) && #[trigger] has_edge(g, a, b) implies s.contains(b) by {
                let j = choose|j: int| 0 <= j < g[a].len() && g[a][j] == GcPtr { index: b };
                assert(g[a][j].index == b);
            }
            assert(closed_under(g, s));
            assert forall|i: usize| #[trigger] self.live(i) <==> (start.live(i) && !reaches(g, p.index, i)) by {
                if reaches(g, p.index, i) {
                    lemma_closed_holds_reached(g, s, p.index, i);
                } else if i < n {
                    assert(self.slots_view()[i as int] == start.slots_view()[i as int]);
                }
            }
            assert forall|i: usize| self.live(i) implies #[trigger] self.slots_view()[i as int] == start.slots_view()[i as int] by {}
            assert forall|i: usize| #[trigger] self.managed(i) == start.managed(i) by {
                if i < n && !(g.dom().contains(i) && !unvisited.contains(i as int)) {
                    assert(self.slots_view()[i as int] == start.slots_view()[i as int]);
                }
            }
            assert forall|i: usize| self.live(i) implies !#[trigger] self.marked(i) by {
                assert(!start.marked(i));
            }
            assert forall|k: int| 0 <= k < self.object_list().len() implies self.managed(#[trigger] self.object_list()[k]) by {
                assert(start.managed(start.object_list()[k]));
            }
            assert forall|i: usize| self.managed(i) implies #[trigger] self.object_list().contains(i) by {
                assert(start.managed(i));
            }
            assert forall|i: usize, j: int| self.live(i) && 0 <= j < self.edges(i).len() implies #[trigger] self.edges(i)[j].index < self.slot_count() by {
                assert(start.edges(i)[j].index < start.slot_count());
            }
            assert forall|k: int| 0 <= k < self.finalized_log().len() implies !self.live(#[trigger] self.finalized_log()[k]) by {
                assert(!start.live(start.finalized_log()[k]));
            }
            assert forall|i: usize, j: int|
                self.managed(i) && 0 <= j < self.edges(i).len() && self.live(#[trigger] self.edges(i)[j].index) implies self.managed(self.edges(i)[j].index) by {
                let e = self.edges(i)[j];
                assert(start.edges(i)[j] == e);
                assert(start.managed(e.index));
            }
        }
    }

    /// Puts `data` in place of the payload of the live allocation `p` and
    /// hands the old payload back, unfinalized; the edges are recorded anew.
    /// If `p` is managed, what `data` owns is managed first, so that a managed
    /// allocation still points only to managed ones. If `p` designates no live
    /// allocation, `data` comes back as the error and nothing changes.
    pub fn replace(&mut self, p: GcPtr, data: T) -> (r: Result<T, T>)
        where
            T: Trace,
        requires
            old(self).wf(),
        ensures
            final(self).wf(),
            r is Ok <==> old(self).live(p.index),
            r is Err ==> r->Err_0 == data && *final(self) == *old(self),
            r is Ok ==> {
                &&& r->Ok_0 == old(self).value(p.index)
                &&& final(self).live(p.index)
                &&& final(self).value(p.index) == data
                &&& final(self).edges(p.index) == pointers_below(data.pointers(), old(self).slot_count())
                &&& final(self).managed(p.index) == old(self).managed(p.index)
                &&& final(self).slot_count() == old(self).slot_count()
                &&& final(self).root_stack() == old(self).root_stack()
                &&& final(self).finalized_log() == old(self).finalized_log()
                &&& forall|i: usize| #[trigger] final(self).live(i) == old(self).live(i)
                &&& forall|i: usize| i != p.index && old(self).live(i) ==> #[trigger] final(self).value(i) == old(self).value(i)
                &&& forall|i: usize| i != p.index && old(self).live(i) ==> #[trigger] final(self).edges(i) == old(self).edges(i)
                &&& forall|i: usize| #[trigger] final(self).managed(i) <==> (old(self).managed(i) || (old(self).managed(p.index) && exists|k: int|
                    0 <= k < final(self).edges(p.index).len() && #[trigger] reaches(old(self).unmanaged_graph(), final(self).edges(p.index)[k].index, i)))
            },
    {
        if !(p.index < self.slots.len()) {
            return Err(data);
        }
        let is_live = match &self.slots[p.index] {
            Some(_) => true,
            None => false,
        };
        if !is_live {
            return Err(data);
        }
        let ghost start = *self;
        let n = self.slots.len();
        let mut fresh = Allocation::new(data);
        fresh.retain_edges_below(n);
        let was_managed = !self.is_unmanaged(p);
        if was_managed {
            let es = fresh.edges();
            let mut j: usize = 0;
            while j < es.len()
                invariant
                    self.wf(),
                    self.same_payloads(&start),
                    self.root_stack() == start.root_stack(),
                    self.finalized_log() == start.finalized_log(),
                    self.managed(p.index),
                    es@ == fresh.edge_list(),
                    0 <= j <= es@.len(),
                    forall|i: usize| start.managed(i) ==> #[trigger] self.managed(i),
                    forall|k: int| 0 <= k < j && self.live(#[trigger] es@[k].index) ==> self.managed(es@[k].index),
                    forall|i: usize| #[trigger] self.managed(i) <==> (start.managed(i) || exists|k: int|
                        0 <= k < j && #[trigger] reaches(start.unmanaged_graph(), es@[k].index, i)),
                decreases es@.len() - j,
            {
                let ghost before = *self;
                self.manage(es[j]);
                proof {
                    let e = es@[j as int];
                    let g0 = start.unmanaged_graph();
                    if self.live(e.index) && !before.managed(e.index) {
                        assert(before.unmanaged_graph().dom().contains(e.index));
                        lemma_reaches_self(before.unmanaged_graph(), e.index);
                    }
                    assert forall|i: usize| #[trigger] before.unmanaged_graph().dom().contains(i) implies g0.dom().contains(i) && g0[i] == before.unmanaged_graph()[i] by {}
                    assert forall|i: usize| #[trigger] self.managed(i) <==> (start.managed(i) || exists|k: int|
                        0 <= k < j + 1 && #[trigger] reaches(g0, es@[k].index, i)) by {
                        if self.managed(i) && !before.managed(i) {
                            assert(reaches(before.unmanaged_graph(), e.index, i));
                            crate::reach::lemma_reaches_subgraph(before.unmanaged_graph(), g0, e.index, i);
                            assert(0 <= j < j + 1 && reaches(g0, es@[j as int].index, i));
                        }
                        if exists|k: int| 0 <= k < j + 1 && #[trigger] reaches(g0, es@[k].index, i) {
                            let k = choose|k: int| 0 <= k < j + 1 && #[trigger] reaches(g0, es@[k].index, i);
                            if k < j {
                                assert(before.managed(i));
                            } else {
                                Self::lemma_unmanaged_path_split(&start, &before, e.index, i);
                            }
                        }
                    }
                }
                j = j + 1;
            }
            fresh.set_managed();
        }
        let ghost mid = *self;
        let ghost installed = fresh;
        let mut slot = Some(fresh);
        self.slots.set_and_swap(p.index, &mut slot);
        proof {
            assert(mid.live(p.index));
            assert(slot == mid.slots_view()[p.index as int]);
            assert(self.slots_view()[p.index as int] == Some(installed));
            assert forall|i: usize| i < n && i != p.index implies #[trigger] self.slots_view()[i as int] == mid.slots_view()[i as int] by {}
            assert forall|i: usize| #[trigger] self.managed(i) == mid.managed(i) by {
                if i != p.index && i < n {
                    assert(self.slots_view()[i as int] == mid.slots_view()[i as int]);
                }
            }
            assert forall|i: usize| #[trigger] self.live(i) == mid.live(i) by {
                if i != p.index && i < n {
                    assert(self.slots_view()[i as int] == mid.slots_view()[i as int]);
                }
            }
            assert forall|i: usize| self.live(i) implies !#[trigger] self.marked(i) by {
                if i != p.index {
                    assert(self.slots_view()[i as int] == mid.slots_view()[i as int]);
                    assert(!mid.marked(i));
                }
            }
            assert forall|i: usize| self.managed(i) implies #[trigger] self.object_list().contains(i) by {
                assert(mid.managed(i));
            }
            assert forall|k: int| 0 <= k < self.object_list().len() implies self.managed(#[trigger] self.object_list()[k]) by {
                assert(mid.managed(mid.object_list()[k]));
            }
            assert forall|i: usize, j: int| self.live(i) && 0 <= j < self.edges(i).len() implies #[trigger] self.edges(i)[j].index < self.slot_count() by {
                if i == p.index {
                    assert(installed.edge_list().contains(installed.edge_list()[j]));
                } else {
                    assert(self.slots_view()[i as int] == mid.slots_view()[i as int]);
                    assert(mid.edges(i)[j].index < mid.slot_count());
                }
            }
            assert forall|i: usize, j: int|
                self.managed(i) && 0 <= j < self.edges(i).len() && self.live(#[trigger] self.edges(i)[j].index) implies self.managed(self.edges(i)[j].index) by {
                let e = self.edges(i)[j];
                if i == p.index {
                    assert(installed.edge_list()[j] == e);
                    assert(mid.live(e.index));
                } else {
                    assert(self.slots_view()[i as int] == mid.slots_view()[i as int]);
                    assert(mid.edges(i)[j] == e);
                    assert(mid.live(e.index));
                    assert(mid.managed(e.index));
                }
            }
            assert forall|i: usize| i != p.index && start.live(i) implies #[trigger] self.value(i) == start.value(i) by {
                assert(self.slots_view()[i as int] == mid.slots_view()[i as int]);
                assert(mid.value(i) == start.value(i));
            }
            assert forall|i: usize| i != p.index && start.live(i) implies #[trigger] self.edges(i) == start.edges(i) by {
                assert(self.slots_view()[i as int] == mid.slots_view()[i as int]);
                assert(mid.edges(i) == start.edges(i));
            }
            if !start.managed(p.index) {
                assert(mid == start);
            }
            assert(installed.value() == data);
            assert(installed.is_managed() == start.managed(p.index));
            assert(self.managed(p.index) == start.managed(p.index));
            assert(mid.value(p.index) == start.value(p.index));
            assert forall|i: usize| #[trigger] self.managed(i) <==> (start.managed(i) || (start.managed(p.index) && exists|k: int|
                0 <= k < self.edges(p.index).len() && #[trigger] reaches(start.unmanaged_graph(), self.edges(p.index)[k].index, i))) by {
                assert(mid.managed(i) == self.managed(i));
                assert(self.edges(p.index) == installed.edge_list());
            }
            assert forall|i: usize| #[trigger] self.live(i) == start.live(i) by {
                assert(mid.live(i) == start.live(i));
            }
        }
        let previous = slot.unwrap();
        Ok(previous.into_data())
    }
}

} // verus!
