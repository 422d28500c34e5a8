use vstd::prelude::*;

use crate::gc_ptr::GcPtr;

verus! {

/// What the collector needs of a value it manages.
///
/// `pointers` is every collected pointer the value holds, in order, and
/// `trace` appends exactly those to `edges`; the collector records them once,
/// when the value is allocated, and marks and manages through that record.
/// An impl verified here defines `pointers`: left to its default, an unknown
/// sequence, no body of `trace` can be shown to meet its contract.
/// `finalize` releases what the value owns outside the collected heap; the
/// collector calls it once, just before the value is freed, and hands it the
/// value alone, never the heap around it (see `GcState::finalized_log`).
pub trait Trace {
    open spec fn pointers(&self) -> Seq<GcPtr> {
        arbitrary()
    }

    fn trace(&self, edges: &mut Vec<GcPtr>)
        ensures
            final(edges)@ == old(edges)@ + self.pointers(),
    ;

    fn finalize(&mut self);
}

/// A value that holds no collected pointer: it reports none.
pub trait NullTrace: Trace {
}

/// The pointers of each element of `s`, one element after the other.
pub open spec fn pointers_of_all<T: Trace>(s: Seq<T>) -> Seq<GcPtr>
    decreases s.len(),
{
    if s.len() == 0 {
        Seq::empty()
    } else {
        pointers_of_all(s.drop_last()) + s.last().pointers()
    }
}

impl Trace for GcPtr {
    open spec fn pointers(&self) -> Seq<GcPtr> {
        seq![*self]
    }

    fn trace(&self, edges: &mut Vec<GcPtr>) {
        edges.push(*self);
    }

    fn finalize(&mut self) {
    }
}

impl Trace for i8 {
    open spec fn pointers(&self) -> Seq<GcPtr> {
        Seq::empty()
    }

    fn trace(&self, edges: &mut Vec<GcPtr>) {
        proof {
            assert(edges@ + Seq::<GcPtr>::empty() =~= edges@);
        }
    }

    fn finalize(&mut self) {
    }
}

impl NullTrace for i8 {
}

impl Trace for i16 {
    open spec fn pointers(&self) -> Seq<GcPtr> {
        Seq::empty()
    }

    fn trace(&self, edges: &mut Vec<GcPtr>) {
        proof {
            assert(edges@ + Seq::<GcPtr>::empty() =~= edges@);
        }
    }

    fn finalize(&mut self) {
    }
}

impl NullTrace for i16 {
}

impl Trace for i32 {
    open spec fn pointers(&self) -> Seq<GcPtr> {
        Seq::empty()
    }

    fn trace(&self, edges: &mut Vec<GcPtr>) {
        proof {
            assert(edges@ + Seq::<GcPtr>::empty() =~= edges@);
        }
    }

    fn finalize(&mut self) {
    }
}

impl NullTrace for i32 {
}

impl Trace for i64 {
    open spec fn pointers(&self) -> Seq<GcPtr> {
        Seq::empty()
    }

    fn trace(&self, edges: &mut Vec<GcPtr>) {
        proof {
            assert(edges@ + Seq::<GcPtr>::empty() =~= edges@);
        }
    }

    fn finalize(&mut self) {
    }
}

impl NullTrace for i64 {
}

impl Trace for isize {
    open spec fn pointers(&self) -> Seq<GcPtr> {
        Seq::empty()
    }

    fn trace(&self, edges: &mut Vec<GcPtr>) {
        proof {
            assert(edges@ + Seq::<GcPtr>::empty() =~= edges@);
        }
    }

    fn finalize(&mut self) {
    }
}

impl NullTrace for isize {
}

impl Trace for u8 {
    open spec fn pointers(&self) -> Seq<GcPtr> {
        Seq::empty()
    }

    fn trace(&self, edges: &mut Vec<GcPtr>) {
        proof {
            assert(edges@ + Seq::<GcPtr>::empty() =~= edges@);
        }
    }

    fn finalize(&mut self) {
    }
}

impl NullTrace for u8 {
}

impl Trace for u16 {
    open spec fn pointers(&self) -> Seq<GcPtr> {
        Seq::empty()
    }

    fn trace(&self, edges: &mut Vec<GcPtr>) {
        proof {
            assert(edges@ + Seq::<GcPtr>::empty() =~= edges@);
        }
    }

    fn finalize(&mut self) {
    }
}

impl NullTrace for u16 {
}

impl Trace for u32 {
    open spec fn pointers(&self) -> Seq<GcPtr> {
        Seq::empty()
    }

    fn trace(&self, edges: &mut Vec<GcPtr>) {
        proof {
            assert(edges@ + Seq::<GcPtr>::empty() =~= edges@);
        }
    }

    fn finalize(&mut self) {
    }
}

impl NullTrace for u32 {
}

impl Trace for u64 {
    open spec fn pointers(&self) -> Seq<GcPtr> {
        Seq::empty()
    }

    fn trace(&self, edges: &mut Vec<GcPtr>) {
        proof {
            assert(edges@ + Seq::<GcPtr>::empty() =~= edges@);
        }
    }

    fn finalize(&mut self) {
    }
}

impl NullTrace for u64 {
}

impl Trace for usize {
    open spec fn pointers(&self) -> Seq<GcPtr> {
        Seq::empty()
    }

    fn trace(&self, edges: &mut Vec<GcPtr>) {
        proof {
            assert(edges@ + Seq::<GcPtr>::empty() =~= edges@);
        }
    }

    fn finalize(&mut self) {
    }
}

impl NullTrace for usize {
}

impl Trace for bool {
    open spec fn pointers(&self) -> Seq<GcPtr> {
        Seq::empty()
    }

    fn trace(&self, edges: &mut Vec<GcPtr>) {
        proof {
            assert(edges@ + Seq::<GcPtr>::empty() =~= edges@);
        }
    }

    fn finalize(&mut self) {
    }
}

impl NullTrace for bool {
}

impl Trace for char {
    open spec fn pointers(&self) -> Seq<GcPtr> {
        Seq::empty()
    }

    fn trace(&self, edges: &mut Vec<GcPtr>) {
        proof {
            assert(edges@ + Seq::<GcPtr>::empty() =~= edges@);
        }
    }

    fn finalize(&mut self) {
    }
}

impl NullTrace for char {
}

impl Trace for String {
    open spec fn pointers(&self) -> Seq<GcPtr> {
        Seq::empty()
    }

    fn trace(&self, edges: &mut Vec<GcPtr>) {
        proof {
            assert(edges@ + Seq::<GcPtr>::empty() =~= edges@);
        }
    }

    fn finalize(&mut self) {
    }
}

impl NullTrace for String {
}

impl Trace for () {
    open spec fn pointers(&self) -> Seq<GcPtr> {
        Seq::empty()
    }

    fn trace(&self, edges: &mut Vec<GcPtr>) {
        proof {
            assert(edges@ + Seq::<GcPtr>::empty() =~= edges@);
        }
    }

    fn finalize(&mut self) {
    }
}

impl NullTrace for () {
}

impl<T: Trace> Trace for Box<T> {
    open spec fn pointers(&self) -> Seq<GcPtr> {
        (**self).pointers()
    }

    fn trace(&self, edges: &mut Vec<GcPtr>) {
        (**self).trace(edges);
    }

    fn finalize(&mut self) {
        (**self).finalize();
    }
}

impl<T: NullTrace> NullTrace for Box<T> {
}

impl<T: Trace, E: Trace> Trace for Result<T, E> {
    open spec fn pointers(&self) -> Seq<GcPtr> {
        match self {
            Ok(inner) => inner.pointers(),
            Err(error) => error.pointers(),
        }
    }

    fn trace(&self, edges: &mut Vec<GcPtr>) {
        match self {
            Ok(inner) => inner.trace(edges),
            Err(error) => error.trace(edges),
        }
    }

    fn finalize(&mut self) {
        match self {
            Ok(inner) => inner.finalize(),
            Err(error) => error.finalize(),
        }
    }
}

impl<T: NullTrace, E: NullTrace> NullTrace for Result<T, E> {
}

impl<A: Trace, B: Trace> Trace for (A, B) {
    open spec fn pointers(&self) -> Seq<GcPtr> {
        self.0.pointers() + self.1.pointers()
    }

    fn trace(&self, edges: &mut Vec<GcPtr>) {
        let ghost start = edges@;
        self.0.trace(edges);
        self.1.trace(edges);
        proof {
            assert(edges@ =~= start + (self.0.pointers() + self.1.pointers()));
        }
    }

    fn finalize(&mut self) {
        self.0.finalize();
        self.1.finalize();
    }
}

impl<A: NullTrace, B: NullTrace> NullTrace for (A, B) {
}

impl<A: Trace, B: Trace, C: Trace> Trace for (A, B, C) {
    open spec fn pointers(&self) -> Seq<GcPtr> {
        self.0.pointers() + self.1.pointers() + self.2.pointers()
    }

    fn trace(&self, edges: &mut Vec<GcPtr>) {
        let ghost start = edges@;
        self.0.trace(edges);
        self.1.trace(edges);
        self.2.trace(edges);
        proof {
            assert(edges@ =~= start + (self.0.pointers() + self.1.pointers() + self.2.pointers()));
        }
    }

    fn finalize(&mut self) {
        self.0.finalize();
        self.1.finalize();
        self.2.finalize();
    }
}

impl<A: NullTrace, B: NullTrace, C: NullTrace> NullTrace for (A, B, C) {
}

impl<T: Trace> Trace for Option<T> {
    open spec fn pointers(&self) -> Seq<GcPtr> {
        match self {
            Some(inner) => inner.pointers(),
            None => Seq::empty(),
        }
    }

    fn trace(&self, edges: &mut Vec<GcPtr>) {
        match self {
            Some(inner) => inner.trace(edges),
            None => {
                proof {
                    assert(edges@ + Seq::<GcPtr>::empty() =~= edges@);
                }
            },
        }
    }

    fn finalize(&mut self) {
        match self {
            Some(inner) => inner.finalize(),
            None => {},
        }
    }
}

impl<T: NullTrace> NullTrace for Option<T> {
}

impl<T: Trace> Trace for Vec<T> {
    open spec fn pointers(&self) -> Seq<GcPtr> {
        pointers_of_all(self@)
    }

    fn trace(&self, edges: &mut Vec<GcPtr>) {
        let ghost start = edges@;
        let mut i: usize = 0;
        proof {
            assert(self@.subrange(0, 0) =~= Seq::<T>::empty());
            assert(start + Seq::<GcPtr>::empty() =~= start);
        }
        while i < self.len()
            invariant
                0 <= i <= self@.len(),
                edges@ == start + pointers_of_all(self@.subrange(0, i as int)),
            decreases self.len() - i,
        {
            self[i].trace(edges);
            proof {
                let next = self@.subrange(0, i + 1);
                assert(next.drop_last() =~= self@.subrange(0, i as int));
                assert(next.last() == self@[i as int]);
                assert(edges@ =~= start + pointers_of_all(next));
            }
            i = i + 1;
        }
        proof {
            assert(self@.subrange(0, self@.len() as int) =~= self@);
        }
    }

    fn finalize(&mut self) {
        let mut i: usize = 0;
        let n = self.len();
        while i < n
            invariant
                self.len() == n,
            decreases n - i,
        {
            self[i].finalize();
            i = i + 1;
        }
    }
}

impl<T: NullTrace> NullTrace for Vec<T> {
}

impl<T: Trace, const N: usize> Trace for [T; N] {
    open spec fn pointers(&self) -> Seq<GcPtr> {
        pointers_of_all(self@)
    }

    fn trace(&self, edges: &mut Vec<GcPtr>) {
        let ghost start = edges@;
        let mut i: usize = 0;
        proof {
            assert(self@.subrange(0, 0) =~= Seq::<T>::empty());
            assert(start + Seq::<GcPtr>::empty() =~= start);
        }
        while i < N
            invariant
                0 <= i <= N,
                self@.len() == N,
                edges@ == start + pointers_of_all(self@.subrange(0, i as int)),
            decreases N - i,
        {
            self[i].trace(edges);
            proof {
                let next = self@.subrange(0, i + 1);
                assert(next.drop_last() =~= self@.subrange(0, i as int));
                assert(next.last() == self@[i as int]);
                assert(edges@ =~= start + pointers_of_all(next));
            }
            i = i + 1;
        }
        proof {
            assert(self@.subrange(0, self@.len() as int) =~= self@);
        }
    }

    fn finalize(&mut self) {
        let mut i: usize = 0;
        while i < N
            decreases N - i,
        {
            self[i].finalize();
            i = i + 1;
        }
    }
}

impl<T: NullTrace, const N: usize> NullTrace for [T; N] {
}

} // verus!
