use std::cell::RefCell;
use std::rc::Rc;

use nocturne::{alloc_managed, collect, count_managed_objects, Gc, GcPtr, GcState, GcStore, Root, Trace};

enum Obj {
    Int(i32),
    Foo { item: GcStore, vec: Vec<GcStore>, option: Option<GcStore>, local: i32 },
}

impl Trace for Obj {
    fn trace(&self, edges: &mut Vec<GcPtr>) {
        match self {
            Obj::Int(_) => {}
            Obj::Foo { item, vec, option, local } => {
                item.trace(edges);
                vec.trace(edges);
                option.trace(edges);
                local.trace(edges);
            }
        }
    }

    fn finalize(&mut self) {}
}

fn int_of(obj: &Obj) -> i32 {
    match obj {
        Obj::Int(v) => *v,
        Obj::Foo { local, .. } => *local,
    }
}

struct Node {
    id: i32,
    next: Option<GcPtr>,
    log: Rc<RefCell<Vec<i32>>>,
}

impl Trace for Node {
    fn trace(&self, edges: &mut Vec<GcPtr>) {
        self.next.trace(edges);
    }

    fn finalize(&mut self) {
        self.log.borrow_mut().push(self.id);
    }
}

#[test]
fn simple_retention() {
    let mut state: GcState<i32> = GcState::new();
    let mut r = Root::new(&mut state);
    let g = r.gc(&mut state, 42_i32);
    collect(&mut state);
    assert_eq!(*g.get(&state), 42);
    assert_eq!(count_managed_objects(&state), 1);
    r.release(&mut state);
    collect(&mut state);
    assert_eq!(count_managed_objects(&state), 0);
}

#[test]
fn unreached_sweep() {
    let mut state: GcState<i32> = GcState::new();
    let mut r1 = Root::new(&mut state);
    let g1 = r1.gc(&mut state, 1);
    {
        let mut r2 = Root::new(&mut state);
        let g2 = r2.gc(&mut state, 2);
        assert_eq!(*g2.get(&state), 2);
        r2.release(&mut state);
    }
    collect(&mut state);
    assert_eq!(count_managed_objects(&state), 1);
    assert_eq!(*g1.get(&state), 1);
    r1.release(&mut state);
}

#[test]
fn transitive_managing() {
    let mut state: GcState<Obj> = GcState::new();
    let item = GcStore::new(&mut state, Obj::Int(10));
    let v1 = GcStore::new(&mut state, Obj::Int(20));
    let v2 = GcStore::new(&mut state, Obj::Int(30));
    let opt = GcStore::new(&mut state, Obj::Int(40));
    assert_eq!(count_managed_objects(&state), 0);
    assert_eq!(int_of(item.get(&state)), 10);
    let mut r = Root::new(&mut state);
    let foo = r.gc(&mut state, Obj::Foo { item, vec: vec![v1, v2], option: Some(opt), local: 50 });
    collect(&mut state);
    assert_eq!(count_managed_objects(&state), 5);
    match foo.get(&state) {
        Obj::Foo { item, vec, option, local } => {
            assert_eq!(int_of(item.rooted(&state, foo).unwrap().get(&state)), 10);
            assert_eq!(int_of(vec[1].rooted(&state, foo).unwrap().get(&state)), 30);
            let inner = option.as_ref().map(|s| int_of(s.rooted(&state, foo).unwrap().get(&state)));
            assert_eq!(inner, Some(40));
            assert_eq!(*local, 50);
            assert!(item.get_maybe(&state).is_none());
        }
        Obj::Int(_) => panic!("the rooted value is a Foo"),
    }
    r.release(&mut state);
    collect(&mut state);
    assert_eq!(count_managed_objects(&state), 0);
}

#[test]
fn cycle() {
    let log = Rc::new(RefCell::new(Vec::new()));
    let mut state: GcState<Node> = GcState::new();
    let mut r = Root::new(&mut state);
    let a = r.gc(&mut state, Node { id: 1, next: None, log: log.clone() });
    let b = alloc_managed(&mut state, Node { id: 2, next: Some(Gc::raw(a)), log: log.clone() });
    let previous = state.replace(Gc::raw(a), Node { id: 1, next: Some(b), log: log.clone() });
    assert!(previous.is_ok());
    collect(&mut state);
    assert_eq!(count_managed_objects(&state), 2);
    assert_eq!(a.get(&state).next, Some(b));
    assert_eq!(state.get(b).map(|n| n.next), Some(Some(Gc::raw(a))));
    assert!(log.borrow().is_empty());
    r.release(&mut state);
    collect(&mut state);
    assert_eq!(count_managed_objects(&state), 0);
    let mut freed = log.borrow().clone();
    freed.sort();
    assert_eq!(freed, vec![1, 2]);
}

#[test]
fn finalizer_ordering() {
    let log = Rc::new(RefCell::new(Vec::new()));
    let mut state: GcState<Node> = GcState::new();
    {
        let mut r = Root::new(&mut state);
        let g = r.gc(&mut state, Node { id: 7, next: None, log: log.clone() });
        collect(&mut state);
        assert_eq!(g.get(&state).id, 7);
        assert!(log.borrow().is_empty());
        r.release(&mut state);
    }
    collect(&mut state);
    assert_eq!(*log.borrow(), vec![7]);
    collect(&mut state);
    assert_eq!(*log.borrow(), vec![7]);
}

#[test]
fn accidentally_unmanaged_drop() {
    let mut state: GcState<i32> = GcState::new();
    let store = GcStore::new(&mut state, 99);
    let ptr = GcStore::raw(&store);
    assert_eq!(*store.get(&state), 99);
    assert_eq!(store.get_maybe(&state), Some(&99));
    store.discard(&mut state);
    assert!(state.get(ptr).is_none());
    assert_eq!(count_managed_objects(&state), 0);
    collect(&mut state);
    assert_eq!(count_managed_objects(&state), 0);
}
