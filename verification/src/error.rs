use vstd::prelude::*;

verus! {

/// Error signal of the storage engine.
///
/// Page-level kinds (`DuplicateKey`, `CapacityExceeded`) are returned to the
/// immediate caller of the page API; pool-level kinds (`PoolExhausted`,
/// `Busy`, `NotFound`, `IoFailure`) are returned to the fetch/unpin/flush
/// caller.
#[derive(Debug, Clone, Copy, PartialEq, Eq, Structural)]
pub enum QcBupoError {
    /// Insert of a key already present in the page.
    DuplicateKey,
    /// The record would not fit in the page (value too long for the 16-bit
    /// length field, or slot directory and data region would overlap).
    CapacityExceeded,
    /// No free frame and no evictable page: every resident page is pinned.
    PoolExhausted,
    /// Flush requested on a page whose pin count is nonzero.
    Busy,
    /// The page id is not resident, or an unpin was requested on a page
    /// whose pin count is already zero.
    NotFound,
    /// The page id lies outside the backing store.
    IoFailure,
}

} // verus!
