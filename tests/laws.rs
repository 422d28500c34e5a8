use nocturne::{alloc_managed, alloc_unmanaged, collect, count_managed_objects, count_roots, manage, Gc, GcPtr, GcState, Root, Trace};

struct Link {
    next: Option<GcPtr>,
}

impl Trace for Link {
    fn trace(&self, edges: &mut Vec<GcPtr>) {
        self.next.trace(edges);
    }

    fn finalize(&mut self) {}
}

#[test]
fn roots_release_in_reverse_order() {
    let mut state: GcState<i32> = GcState::new();
    assert_eq!(count_roots(&state), 0);
    let outer = Root::new(&mut state);
    let mut inner = Root::new(&mut state);
    assert_eq!(count_roots(&state), 2);
    assert_eq!(state.roots().len(), 2);
    let g = inner.gc(&mut state, 5);
    assert_eq!(state.roots()[1], Some(Gc::raw(g)));
    assert_eq!(state.roots()[0], None);
    inner.release(&mut state);
    assert_eq!(count_roots(&state), 1);
    outer.release(&mut state);
    assert_eq!(count_roots(&state), 0);
}

#[test]
fn unmanaged_until_manage_is_called() {
    let mut state: GcState<i32> = GcState::new();
    let p = alloc_unmanaged(&mut state, 3);
    assert!(state.is_unmanaged(p));
    assert_eq!(count_managed_objects(&state), 0);
    let other = alloc_unmanaged(&mut state, 4);
    assert!(state.is_unmanaged(p));
    manage(&mut state, p);
    assert!(!state.is_unmanaged(p));
    assert!(state.is_unmanaged(other));
    assert_eq!(count_managed_objects(&state), 1);
}

#[test]
fn manage_twice_is_manage_once() {
    let mut state: GcState<Link> = GcState::new();
    let tail = alloc_unmanaged(&mut state, Link { next: None });
    let head = alloc_unmanaged(&mut state, Link { next: Some(tail) });
    manage(&mut state, head);
    assert_eq!(count_managed_objects(&state), 2);
    assert!(!state.is_unmanaged(tail));
    manage(&mut state, head);
    manage(&mut state, tail);
    assert_eq!(count_managed_objects(&state), 2);
}

#[test]
fn unreachable_freed_and_reachable_kept() {
    let mut state: GcState<Link> = GcState::new();
    let mut r = Root::new(&mut state);
    let kept_tail = alloc_managed(&mut state, Link { next: None });
    let kept = r.gc(&mut state, Link { next: Some(kept_tail) });
    let lost_tail = alloc_managed(&mut state, Link { next: None });
    let lost = alloc_managed(&mut state, Link { next: Some(lost_tail) });
    let loose = alloc_unmanaged(&mut state, Link { next: None });
    assert_eq!(count_managed_objects(&state), 4);
    collect(&mut state);
    assert_eq!(count_managed_objects(&state), 2);
    assert!(state.get(Gc::raw(kept)).is_some());
    assert!(state.get(kept_tail).is_some());
    assert!(state.get(lost).is_none());
    assert!(state.get(lost_tail).is_none());
    assert!(state.get(loose).is_some());
    r.release(&mut state);
}

#[test]
fn marks_are_clear_after_collect() {
    let mut state: GcState<Link> = GcState::new();
    let mut r = Root::new(&mut state);
    let tail = alloc_managed(&mut state, Link { next: None });
    let head = r.gc(&mut state, Link { next: Some(tail) });
    collect(&mut state);
    assert!(!state.is_marked(Gc::raw(head)));
    assert!(!state.is_marked(tail));
    collect(&mut state);
    assert_eq!(count_managed_objects(&state), 2);
    r.release(&mut state);
}

#[test]
fn cycle_survives_while_rooted_and_is_freed_after() {
    let mut state: GcState<Link> = GcState::new();
    let mut r = Root::new(&mut state);
    let a = r.gc(&mut state, Link { next: None });
    let b = alloc_managed(&mut state, Link { next: Some(Gc::raw(a)) });
    assert!(state.replace(Gc::raw(a), Link { next: Some(b) }).is_ok());
    collect(&mut state);
    collect(&mut state);
    assert_eq!(count_managed_objects(&state), 2);
    r.release(&mut state);
    collect(&mut state);
    assert_eq!(count_managed_objects(&state), 0);
    assert!(state.get(b).is_none());
}

#[test]
fn payload_stays_as_allocated() {
    let mut state: GcState<Link> = GcState::new();
    let mut r = Root::new(&mut state);
    let target = alloc_unmanaged(&mut state, Link { next: None });
    let p = alloc_unmanaged(&mut state, Link { next: Some(target) });
    let g = r.adopt(&mut state, p);
    collect(&mut state);
    collect(&mut state);
    assert_eq!(g.get(&state).next, Some(target));
    assert!(state.get(target).map(|l| l.next.is_none()).unwrap_or(false));
    r.release(&mut state);
}
