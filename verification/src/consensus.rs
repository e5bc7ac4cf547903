//! The gossip consensus subsystem: trusted and byzantine nodes exchanging
//! proposed transaction identifiers over a directed follow graph in
//! synchronous rounds.

pub mod node;
pub mod tx;
