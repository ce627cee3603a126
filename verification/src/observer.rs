//! Observation of durability.

use vstd::prelude::*;

use crate::lsn::Lsn;

verus! {

/// Notified on the writer's thread after each advance of durability.
///
/// An implementation must be cheap, must not block, do I/O or panic. The observer
/// sees the durable LSN only, and nothing that it does reaches back into the log.
pub trait DurabilityObserver: Sized {
    /// Whether an observer may have become `after` by being told `durable_lsn`. An
    /// implementation that says nothing of this may become anything.
    open spec fn told(&self, durable_lsn: Lsn, after: Self) -> bool {
        true
    }

    /// Takes note that everything up to `durable_lsn` is durable. The number never
    /// falls from one call to the next.
    fn on_durable(&mut self, durable_lsn: Lsn)
        ensures
            old(self).told(durable_lsn, *final(self)),
    ;
}

/// The observer that does nothing.
#[derive(Debug, Clone, Copy)]
pub struct NullObserver;

impl Default for NullObserver {
    fn default() -> (o: Self) {
        NullObserver
    }
}

impl DurabilityObserver for NullObserver {
    open spec fn told(&self, durable_lsn: Lsn, after: Self) -> bool {
        after == *self
    }

    #[inline]
    fn on_durable(&mut self, durable_lsn: Lsn) {
    }
}

} // verus!
