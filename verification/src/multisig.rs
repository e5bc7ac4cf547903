//! The threshold multi-signature coin: outputs locked to a set of verifiers
//! with an m-of-n threshold, its validator and batch handler, and a block
//! chain over those transactions.

pub mod block;
pub mod block_handler;
pub mod blockchain;
pub mod handler;
pub mod tx;
pub mod tx_pool;
pub mod utxo;
