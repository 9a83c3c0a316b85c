//! Transactional storage core of a small relational engine: a page-oriented
//! heap-file store with a shared buffer pool, strict two-phase page locking
//! under the WAIT-DIE deadlock-avoidance policy, and per-page before-images
//! for undo on abort.

pub mod buffer_pool;
pub mod catalog;
pub mod codec;
pub mod lock_manager;
pub mod fields;
pub mod heap_file;
pub mod heap_page;
pub mod transaction;
pub mod tuple;
pub mod types;

use vstd::prelude::*;

verus! {

/// The failures the storage core distinguishes.
///
/// `TransactionAborted` carries the numeric id of the transaction that the
/// WAIT-DIE policy chose to abort; it is fatal for that transaction.
/// `LockWait` is not a failure of the data: it tells the caller that the
/// requested lock is currently held by a strictly younger transaction and
/// that the request should be retried once the holder releases it (the
/// bounded sleep between retries lives outside the core).
#[derive(Debug, Clone, Copy, PartialEq, Eq, Structural)]
pub enum Error {
    /// The heap page has no free slot.
    PageFull,
    /// A delete target is not occupied on the addressed page.
    NotOnPage,
    /// Page or field bytes are malformed.
    DecodeError,
    /// An underlying read or write failed; raised only by callers that
    /// persist file images outside the core.
    IoError,
    /// The WAIT-DIE policy aborted this transaction.
    TransactionAborted(u64),
    /// The lock is held by younger transactions; retry after they release.
    LockWait,
}

} // verus!
