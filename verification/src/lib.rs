//! A pedagogical UTXO coin: transaction validation over single-signature and
//! threshold multi-signature outputs, dependency-aware batch handling, a
//! fork-aware blockchain with a bounded retention window, and a round-based
//! gossip consensus between trusted and byzantine nodes.

pub mod assoc;
pub mod bytes;
pub mod crypto;
pub mod key;
pub mod tx;
pub mod utxo;
pub mod handler;
pub mod blockchain;
pub mod multisig;
pub mod consensus;
