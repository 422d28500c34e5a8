//! A precise, single-threaded, mark-and-sweep garbage collector.
//!
//! A `GcState` is one heap: an arena of allocations, the list of those it
//! manages, and a LIFO stack of roots. A value starts unmanaged, solely owned
//! by the `GcStore` (or raw `GcPtr`) it was allocated for; rooting it through a
//! `Root` manages it together with every unmanaged allocation it owns, and a
//! collection then frees, finalizer first, each managed allocation that no
//! root reaches.

mod allocation;
mod gc;
mod gc_ptr;
mod laws;
mod ops;
mod reach;
mod root;
mod state;
mod trace;

pub use crate::allocation::Allocation;
pub use crate::gc::{Gc, GcStore};
pub use crate::gc_ptr::GcPtr;
pub use crate::laws::{
    collect_frees_exactly_unreached, manage_idempotent, payload_intact_until_freed, pushed_one, root_lifo, rooted_cycle_survives, unmanaged_until_managed,
    unrooted_cycle_freed,
};
pub use crate::ops::{
    alloc_managed, alloc_managed_result, alloc_unmanaged, alloc_unmanaged_result, collect, collect_result, count_managed_objects,
    count_roots, manage, manage_result,
};
pub use crate::reach::{closed_under, has_edge, is_path, lemma_closed_holds_reached, lemma_reaches_from_leaf, lemma_reaches_self, lemma_reaches_step, reaches, step, Graph};
pub use crate::root::Root;
pub use crate::state::GcState;
pub use crate::trace::{NullTrace, Trace};
