use nocturne::{alloc_unmanaged, collect, count_managed_objects, Allocation, Gc, GcPtr, GcState, GcStore, Root, Trace};

struct Pair {
    left: Option<GcStore>,
    right: Option<GcPtr>,
}

impl Trace for Pair {
    fn trace(&self, edges: &mut Vec<GcPtr>) {
        self.left.trace(edges);
        self.right.trace(edges);
    }

    fn finalize(&mut self) {}
}

#[test]
fn allocation_records_edges_and_mark_bit() {
    let mut alloc = Allocation::new((GcPtr { index: 3 }, 8_u8));
    assert_eq!(alloc.data().1, 8);
    assert_eq!(*alloc.edges(), vec![GcPtr { index: 3 }]);
    assert!(alloc.is_unmanaged());
    assert!(!alloc.marked());
    assert!(alloc.mark());
    assert!(!alloc.mark());
    assert!(alloc.marked());
    assert!(!alloc.marked());
    assert_eq!(alloc.into_data().0, GcPtr { index: 3 });
}

#[test]
fn scalar_payloads_report_no_edges() {
    let alloc = Allocation::new(vec![String::from("a"), String::from("b")]);
    assert!(alloc.edges().is_empty());
    let alloc = Allocation::new((1_i64, true, 'c'));
    assert!(alloc.edges().is_empty());
    let alloc = Allocation::new(Some(Box::new(GcPtr { index: 0 })));
    assert_eq!(alloc.edges().len(), 1);
}

#[test]
fn pointers_to_slots_not_yet_made_are_dropped() {
    let mut state: GcState<Option<GcPtr>> = GcState::new();
    let a = alloc_unmanaged(&mut state, Some(GcPtr { index: 5 }));
    let b = alloc_unmanaged(&mut state, Some(a));
    assert_eq!(a, GcPtr { index: 0 });
    assert_eq!(b, GcPtr { index: 1 });
    let mut r = Root::new(&mut state);
    let g = r.adopt(&mut state, b);
    assert_eq!(count_managed_objects(&state), 2);
    let _c = alloc_unmanaged(&mut state, None);
    let _d = alloc_unmanaged(&mut state, None);
    let _e = alloc_unmanaged(&mut state, None);
    let f = alloc_unmanaged(&mut state, None);
    assert_eq!(f, GcPtr { index: 5 });
    collect(&mut state);
    assert!(state.is_unmanaged(f));
    assert_eq!(count_managed_objects(&state), 2);
    assert_eq!(*g.get(&state), Some(a));
    r.release(&mut state);
}

#[test]
fn dangling_pointers_resolve_to_nothing() {
    let mut state: GcState<i32> = GcState::new();
    assert!(state.get(GcPtr { index: 0 }).is_none());
    assert!(!state.is_unmanaged(GcPtr { index: 7 }));
    let p = nocturne::alloc_managed(&mut state, 1);
    collect(&mut state);
    assert!(state.get(p).is_none());
    assert!(!state.is_unmanaged(p));
    assert_eq!(state.replace(p, 2), Err(2));
    state.deallocate(p);
    assert_eq!(count_managed_objects(&state), 0);
}

#[test]
fn replace_hands_back_old_payload() {
    let mut state: GcState<i32> = GcState::new();
    let mut r = Root::new(&mut state);
    let g = r.gc(&mut state, 10);
    assert_eq!(state.replace(Gc::raw(g), 11), Ok(10));
    assert_eq!(*g.get(&state), 11);
    assert_eq!(count_managed_objects(&state), 1);
    r.release(&mut state);
}

#[test]
fn replace_manages_what_a_managed_payload_owns() {
    let mut state: GcState<Pair> = GcState::new();
    let mut r = Root::new(&mut state);
    let leaf = GcStore::new(&mut state, Pair { left: None, right: Some(GcPtr { index: 9 }) });
    let spare = GcStore::new(&mut state, Pair { left: None, right: Some(GcPtr { index: 9 }) });
    let top = r.gc(&mut state, Pair { left: Some(leaf), right: None });
    assert_eq!(count_managed_objects(&state), 2);
    let spare_ptr = GcStore::raw(&spare);
    let old = state.replace(Gc::raw(top), Pair { left: Some(spare), right: None });
    assert!(old.is_ok());
    assert!(!state.is_unmanaged(spare_ptr));
    assert_eq!(count_managed_objects(&state), 3);
    collect(&mut state);
    assert_eq!(count_managed_objects(&state), 2);
    r.release(&mut state);
}

#[test]
fn discarding_a_managed_store_leaves_it_to_the_collector() {
    let mut state: GcState<i32> = GcState::new();
    let mut r = Root::new(&mut state);
    let g = r.gc(&mut state, 6);
    let store = GcStore::from_gc(g);
    assert!(store.get_maybe(&state).is_none());
    store.discard(&mut state);
    assert_eq!(*g.get(&state), 6);
    assert_eq!(count_managed_objects(&state), 1);
    r.release(&mut state);
}

#[test]
fn reroot_moves_a_value_to_another_root() {
    let mut state: GcState<i32> = GcState::new();
    let mut outer = Root::new(&mut state);
    let kept;
    {
        let mut inner = Root::new(&mut state);
        let g = inner.gc(&mut state, 21);
        kept = Gc::raw(outer.reroot(&mut state, g));
        inner.release(&mut state);
    }
    collect(&mut state);
    assert_eq!(state.get(kept), Some(&21));
    assert_eq!(count_managed_objects(&state), 1);
    let mut root = Root::new(&mut state);
    root.enroot(&mut state, kept);
    root.release(&mut state);
    root = Root::new(&mut state);
    root.release(&mut state);
    outer.release(&mut state);
    collect(&mut state);
    assert!(state.get(kept).is_none());
}

#[test]
fn discarding_an_unrooted_value_releases_what_it_owns() {
    let mut state: GcState<Pair> = GcState::new();
    let shared = nocturne::alloc_managed(&mut state, Pair { left: None, right: Some(GcPtr { index: 100 }) });
    let mut keeper = Root::new(&mut state);
    let shared_gc = keeper.adopt(&mut state, shared);
    let inner = GcStore::new(&mut state, Pair { left: Some(GcStore::from_gc(shared_gc)), right: None });
    let inner_ptr = GcStore::raw(&inner);
    let outer = GcStore::new(&mut state, Pair { left: Some(inner), right: None });
    let unrelated = alloc_unmanaged(&mut state, Pair { left: None, right: Some(GcPtr { index: 100 }) });
    let outer_ptr = GcStore::raw(&outer);
    outer.discard(&mut state);
    assert!(state.get(outer_ptr).is_none());
    assert!(state.get(inner_ptr).is_none());
    assert!(state.get(shared).is_some());
    assert!(state.get(unrelated).is_some());
    assert_eq!(count_managed_objects(&state), 1);
    keeper.release(&mut state);
}

#[test]
fn arrays_report_each_element() {
    let alloc = Allocation::new([GcPtr { index: 1 }, GcPtr { index: 2 }, GcPtr { index: 4 }]);
    assert_eq!(*alloc.edges(), vec![GcPtr { index: 1 }, GcPtr { index: 2 }, GcPtr { index: 4 }]);
    let alloc = Allocation::new([7_u32; 4]);
    assert!(alloc.edges().is_empty());
}

#[test]
fn a_store_is_branded_only_through_its_parent() {
    let mut state: GcState<Pair> = GcState::new();
    let child = GcStore::new(&mut state, Pair { left: None, right: None });
    let stranger = GcStore::new(&mut state, Pair { left: None, right: None });
    let mut r = Root::new(&mut state);
    let parent = r.gc(&mut state, Pair { left: Some(child), right: None });
    match parent.get(&state) {
        Pair { left: Some(c), .. } => {
            let branded = c.rooted(&state, parent);
            assert_eq!(branded.map(Gc::raw), Some(GcStore::raw(c)));
            assert!(stranger.rooted(&state, parent).is_none());
        }
        Pair { left: None, .. } => panic!("the parent holds its child"),
    }
    r.release(&mut state);
}
