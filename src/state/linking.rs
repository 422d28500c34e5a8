use vstd::prelude::*;

use crate::gc_ptr::GcPtr;
use crate::reach::{closed_under, has_edge, lemma_closed_holds_reached, lemma_reaches_self, lemma_reaches_step, reaches};
use vstd::set_lib::{lemma_int_range, lemma_len_subset, set_int_range};

use super::GcState;

verus! {

impl<T> GcState<T> {
    /// Manages `p` and, through the recorded edges, every unmanaged allocation
    /// it reaches: they are linked into the object list, each once. A pointer
    /// that is already managed, or designates nothing, changes nothing.
    pub fn manage(&mut self, p: GcPtr)
        requires
            old(self).wf(),
        ensures
            final(self).wf(),
            final(self).same_payloads(old(self)),
            final(self).root_stack() == old(self).root_stack(),
            final(self).finalized_log() == old(self).finalized_log(),
            forall|i: usize| #[trigger] final(self).managed(i) <==> (old(self).managed(i) || reaches(old(self).unmanaged_graph(), p.index, i)),
            old(self).object_list().len() <= final(self).object_list().len(),
            final(self).object_list().subrange(0, old(self).object_list().len() as int) == old(self).object_list(),
            !(old(self).live(p.index) && !old(self).managed(p.index)) ==> *final(self) == *old(self),
    {
        if !self.is_unmanaged(p) {
            proof {
                assert forall|i: usize| #[trigger] self.managed(i) <==> (self.managed(i) || reaches(self.unmanaged_graph(), p.index, i)) by {
                    if reaches(self.unmanaged_graph(), p.index, i) {
                        crate::reach::lemma_reaches_dom(self.unmanaged_graph(), p.index, i);
                    }
                }
                assert(self.object_list().subrange(0, self.object_list().len() as int) =~= self.object_list());
            }
            return;
        }
        let ghost start = *self;
        let ghost g = start.unmanaged_graph();
        let ghost n = start.slot_count();
        let ghost old_len = start.object_list().len();
        let mut stack: Vec<GcPtr> = Vec::new();
        stack.push(p);
        let ghost mut unvisited: Set<int> = set_int_range(0, n as int);
        proof {
            lemma_int_range(0, n as int);
            lemma_reaches_self(g, p.index);
            assert(stack@[0] == p);
        }
        while stack.len() > 0
            invariant
                start.wf(),
                g == start.unmanaged_graph(),
                n == start.slot_count(),
                old_len == start.object_list().len(),
                g.dom().contains(p.index),
                self.same_payloads(&start),
                self.root_stack() == start.root_stack(),
                self.finalized_log() == start.finalized_log(),
                unvisited.subset_of(set_int_range(0, n as int)),
                set_int_range(0, n as int).finite(),
                forall|i: usize| #[trigger] self.managed(i) <==> (start.managed(i) || (g.dom().contains(i) && !unvisited.contains(i as int))),
                forall|i: usize| self.live(i) ==> !#[trigger] self.marked(i),
                forall|i: usize| g.dom().contains(i) && !unvisited.contains(i as int) ==> #[trigger] reaches(g, p.index, i),
                forall|k: int| 0 <= k < stack@.len() && g.dom().contains(#[trigger] stack@[k].index) ==> reaches(g, p.index, stack@[k].index),
                !unvisited.contains(p.index as int) || stack@.contains(p),
                forall|i: usize, j: int|
                    g.dom().contains(i) && !unvisited.contains(i as int) && 0 <= j < self.edges(i).len() && g.dom().contains(#[trigger] self.edges(i)[j].index)
                        ==> !unvisited.contains(self.edges(i)[j].index as int) || stack@.contains(self.edges(i)[j]),
                self.object_list().no_duplicates(),
                forall|k: int| 0 <= k < self.object_list().len() ==> self.managed(#[trigger] self.object_list()[k]),
                forall|i: usize| self.managed(i) ==> #[trigger] self.object_list().contains(i),
                old_len <= self.object_list().len(),
                self.object_list().subrange(0, old_len as int) == start.object_list(),
            decreases unvisited.len(), stack@.len(),
        {
            let ghost old_stack = stack@;
            let q = stack.pop().unwrap();
            let ghost popped = stack@;
            proof {
                lemma_len_subset(unvisited, set_int_range(0, n as int));
                assert(old_stack == popped.push(q));
                assert(old_stack[old_stack.len() - 1] == q);
            }
            if self.is_unmanaged(q) {
                let mut es = self.edges_copy(q.index);
                let ghost before = *self;
                let ghost old_unvisited = unvisited;
                proof {
                    assert(g.dom().contains(q.index));
                    assert(unvisited.contains(q.index as int));
                    assert(reaches(g, p.index, q.index));
                    if self.object_list().contains(q.index) {
                        let k = choose|k: int| 0 <= k < self.object_list().len() && self.object_list()[k] == q.index;
                        assert(self.managed(self.object_list()[k]));
                    }
                }
                self.link(q.index);
                proof {
                    unvisited = old_unvisited.remove(q.index as int);
                    assert forall|i: usize| i < n && i != q.index implies #[trigger] self.slots_view()[i as int] == before.slots_view()[i as int] by {}
                    assert forall|i: usize| #[trigger] self.live(i) == start.live(i) by {
                        if i != q.index && i < n {
                            assert(self.slots_view()[i as int] == before.slots_view()[i as int]);
                            assert(before.live(i) == start.live(i));
                        }
                    }
                    assert forall|i: usize| start.live(i) implies #[trigger] self.value(i) == start.value(i) by {
                        if i != q.index {
                            assert(self.slots_view()[i as int] == before.slots_view()[i as int]);
                        }
                        assert(before.value(i) == start.value(i));
                    }
                    assert forall|i: usize| start.live(i) implies #[trigger] self.edges(i) == start.edges(i) by {
                        if i != q.index {
                            assert(self.slots_view()[i as int] == before.slots_view()[i as int]);
                        }
                        assert(before.edges(i) == start.edges(i));
                    }
                    assert forall|i: usize| #[trigger] self.managed(i) <==> (start.managed(i) || (g.dom().contains(i) && !unvisited.contains(i as int))) by {
                        if i != q.index {
                            if i < n {
                                assert(self.slots_view()[i as int] == before.slots_view()[i as int]);
                            }
                            assert(before.managed(i) == self.managed(i));
                        }
                    }
                    assert forall|i: usize| self.live(i) implies !#[trigger] self.marked(i) by {
                        if i != q.index {
                            assert(self.slots_view()[i as int] == before.slots_view()[i as int]);
                        }
                        assert(!before.marked(i));
                    }
                    assert(self.object_list() == before.object_list().push(q.index));
                    assert forall|a: int, b: int| 0 <= a < b < self.object_list().len() implies self.object_list()[a] != self.object_list()[b] by {
                        if b == self.object_list().len() - 1 {
                            assert(before.object_list()[a] == self.object_list()[a]);
                            assert(before.object_list().contains(before.object_list()[a]));
                        } else {
                            assert(before.object_list()[a] == self.object_list()[a]);
                            assert(before.object_list()[b] == self.object_list()[b]);
                        }
                    }
                    assert forall|k: int| 0 <= k < self.object_list().len() implies self.managed(#[trigger] self.object_list()[k]) by {
                        if k < before.object_list().len() {
                            assert(before.object_list()[k] == self.object_list()[k]);
                            assert(before.managed(before.object_list()[k]));
                        }
                    }
                    assert forall|i: usize| self.managed(i) implies #[trigger] self.object_list().contains(i) by {
                        if i == q.index {
                            assert(self.object_list()[self.object_list().len() - 1] == i);
                        } else {
                            assert(self.slots_view()[i as int] == before.slots_view()[i as int]);
                            assert(before.managed(i));
                            assert(before.object_list().contains(i));
                            let k = choose|k: int| 0 <= k < before.object_list().len() && before.object_list()[k] == i;
                            assert(self.object_list()[k] == i);
                        }
                    }
                    assert(self.object_list().subrange(0, old_len as int) =~= before.object_list().subrange(0, old_len as int));
                }
                stack.append(&mut es);
                proof {
                    let new_stack = stack@;
                    assert(new_stack == popped + start.edges(q.index));
                    assert forall|i: usize| g.dom().contains(i) && !unvisited.contains(i as int) implies #[trigger] reaches(g, p.index, i) by {
                        if i != q.index {
                            assert(!old_unvisited.contains(i as int));
                        }
                    }
                    assert forall|k: int| 0 <= k < new_stack.len() && g.dom().contains(#[trigger] new_stack[k].index) implies reaches(g, p.index, new_stack[k].index) by {
                        if k < popped.len() {
                            assert(old_stack[k] == new_stack[k]);
                        } else {
                            let e = new_stack[k];
                            assert(start.edges(q.index)[k - popped.len()] == e);
                            assert(g[q.index] == start.edges(q.index));
                            assert(g[q.index].contains(GcPtr { index: e.index }));
                            lemma_reaches_step(g, p.index, q.index, e.index);
                        }
                    }
                    if unvisited.contains(p.index as int) {
                        let k = choose|k: int| 0 <= k < old_stack.len() && old_stack[k] == p;
                        assert(k < popped.len());
                        assert(new_stack[k] == p);
                    }
                    assert forall|i: usize, j: int|
                        g.dom().contains(i) && !unvisited.contains(i as int) && 0 <= j < self.edges(i).len() && g.dom().contains(#[trigger] self.edges(i)[j].index)
                        implies !unvisited.contains(self.edges(i)[j].index as int) || new_stack.contains(self.edges(i)[j]) by {
                        let e = self.edges(i)[j];
                        if i == q.index {
                            assert(new_stack[popped.len() + j] == e);
                        } else {
                            assert(!old_unvisited.contains(i as int));
                            assert(before.edges(i) == self.edges(i));
                            assert(before.edges(i)[j] == e);
                            if unvisited.contains(e.index as int) {
                                assert(old_stack.contains(e));
                                let k = choose|k: int| 0 <= k < old_stack.len() && old_stack[k] == e;
                                assert(k < popped.len());
                                assert(new_stack[k] == e);
                            }
                        }
                    }
                    lemma_len_subset(unvisited, set_int_range(0, n as int));
                }
            } else {
                proof {
                    assert forall|k: int| 0 <= k < popped.len() && g.dom().contains(#[trigger] popped[k].index) implies reaches(g, p.index, popped[k].index) by {
                        assert(old_stack[k] == popped[k]);
                    }
                    if unvisited.contains(p.index as int) {
                        let k = choose|k: int| 0 <= k < old_stack.len() && old_stack[k] == p;
                        assert(k < popped.len());
                        assert(popped[k] == p);
                    }
                    assert forall|i: usize, j: int|
                        g.dom().contains(i) && !unvisited.contains(i as int) && 0 <= j < self.edges(i).len() && g.dom().contains(#[trigger] self.edges(i)[j].index)
                        implies !unvisited.contains(self.edges(i)[j].index as int) || popped.contains(self.edges(i)[j]) by {
                        let e = self.edges(i)[j];
                        if unvisited.contains(e.index as int) {
                            let k = choose|k: int| 0 <= k < old_stack.len() && old_stack[k] == e;
                            if k == popped.len() {
                                assert(self.live(e.index));
                            } else {
                                assert(popped[k] == e);
                            }
                        }
                    }
                }
            }
        }
        proof {
            let s = Set::new(|i: usize| g.dom().contains(i) && !unvisited.contains(i as int));
            assert(s.contains(p.index));
            assert forall|a: usize, b: usize| #[trigger] s.contains(a) && #[trigger] has_edge(g, a, b) implies s.contains(b) by {
                let j = choose|j: int| 0 <= j < g[a].len() && g[a][j] == GcPtr { index: b };
                assert(self.edges(a)[j].index == b);
            }
            assert(closed_under(g, s));
            assert forall|i: usize| #[trigger] self.managed(i) <==> (start.managed(i) || reaches(g, p.index, i)) by {
                if reaches(g, p.index, i) {
                    lemma_closed_holds_reached(g, s, p.index, i);
                }
            }
            assert forall|i: usize, j: int| self.live(i) && 0 <= j < self.edges(i).len() implies #[trigger] self.edges(i)[j].index < self.slot_count() by {
                assert(start.edges(i)[j].index < start.slot_count());
            }
            assert forall|k: int| 0 <= k < self.finalized_log().len() implies !self.live(#[trigger] self.finalized_log()[k]) by {
                assert(!start.live(start.finalized_log()[k]));
            }
            assert forall|i: usize, j: int|
                self.managed(i) && 0 <= j < self.edges(i).len() && self.live(#[trigger] self.edges(i)[j].index) implies self.managed(self.edges(i)[j].index) by {
                let e = self.edges(i)[j];
                if start.managed(i) {
                    assert(start.edges(i)[j] == e);
                    assert(start.managed(e.index));
                } else if !start.managed(e.index) {
                    assert(start.live(e.index));
                    assert(g.dom().contains(e.index));
                }
            }
        }
    }
}

} // verus!
