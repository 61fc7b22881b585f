//! The unit of data the endpoint serves: a vote record tagged with the
//! source that produced it.

use vstd::prelude::*;

verus! {

/// Which source produced a record: the finalized ("canonical") set or the
/// not-yet-finalized ("pending") set.
#[derive(Clone, Copy, PartialEq, Eq, Structural, Debug)]
pub enum Status {
    Canonical,
    Pending,
}

/// One vote record as returned by the store. `identity` is the logical key
/// under which canonical and pending representations of the same vote
/// coincide; `payload` is the substantive content, opaque to reconciliation.
#[derive(PartialEq, Eq, Debug)]
pub struct VoteRecord {
    pub identity: u64,
    pub status: Status,
    pub payload: String,
}

impl Clone for VoteRecord {
    fn clone(&self) -> (r: Self)
        ensures
            r == *self,
    {
        VoteRecord { identity: self.identity, status: self.status, payload: self.payload.clone() }
    }
}

} // verus!
