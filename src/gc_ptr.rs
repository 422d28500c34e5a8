use vstd::prelude::*;

verus! {

/// A copyable handle to one slot of a collected heap.
///
/// A handle carries no lifetime and owns nothing: one whose slot has been
/// freed, or that was never handed out, simply resolves to no allocation.
#[derive(Clone, Copy, PartialEq, Eq, Debug, Hash, Structural)]
pub struct GcPtr {
    pub index: usize,
}

impl GcPtr {
    /// The slot this handle designates.
    pub fn slot(&self) -> (r: usize)
        ensures
            r == self.index,
    {
        self.index
    }
}

} // verus!
