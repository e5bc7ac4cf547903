//! Transactions as the gossip layer sees them: opaque 64-bit identifiers,
//! proposed by a sender in a round.

use vstd::prelude::*;

verus! {

/// A transaction identifier.
pub type Tx = u64;

/// A proposal observed in one round: a transaction and the index of the node
/// that sent it.
pub struct Candidate {
    pub tx: Tx,
    pub sender: u64,
}

impl Candidate {
    /// A proposal of `tx` by node `sender`.
    pub fn new(tx: Tx, sender: u64) -> (r: Self)
        ensures
            r.tx == tx,
            r.sender == sender,
    {
        Candidate { tx, sender }
    }
}

} // verus!
