//! Transaction identifiers.
//!
//! A transaction id is a monotonically assigned 64-bit counter value; the
//! numeric order is the sole input to the WAIT-DIE policy (smaller = older).

use vstd::prelude::*;

verus! {

/// Identifier of one transaction. Ordering by numeric value is the sole
/// input to the WAIT-DIE policy: a smaller id means an older transaction.
#[derive(Debug, Clone, Copy, PartialEq, Eq, Hash, PartialOrd, Ord, Structural)]
pub struct TransactionId {
    pub tid: u64,
}

impl TransactionId {
    /// Mints the next transaction id from a monotonic counter owned by the
    /// caller, and advances the counter.
    pub fn new(counter: &mut u64) -> (t: TransactionId)
        requires
            *old(counter) < u64::MAX,
        ensures
            t.tid == *old(counter),
            *final(counter) == *old(counter) + 1,
    {
        let tid = *counter;
        *counter = *counter + 1;
        TransactionId { tid }
    }

    /// The numeric value of this id.
    pub fn get_tid(&self) -> (t: u64)
        ensures
            t == self.tid,
    {
        self.tid
    }
}

} // verus!
