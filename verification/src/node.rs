//! Peer records and the clock they are stamped with.

use std::time::Instant;
use vstd::prelude::*;

use crate::key::Key;

verus! {

/// `std::time::Instant` declared for use in verified code; a value of it is
/// an opaque timestamp.
#[verifier::external_type_specification]
#[verifier::external_body]
pub struct ExInstant(Instant);

/// Relies on `std::time::Instant::now`: a reading of the monotonic clock.
/// Nothing is assumed about its value.
pub assume_specification[ Instant::now ]() -> Instant;

/// A record of one known peer: its identifier and the time it was last
/// observed.
#[derive(Clone, Copy)]
pub struct Node {
    pub id: Key,
    pub last_update: Instant,
}

impl Node {
    /// Record a peer with the given identifier as observed now.
    pub fn new(id: Key) -> (r: Node)
        ensures
            r.id == id,
    {
        Node { id, last_update: Instant::now() }
    }
}

} // verus!
