//! The single-signature block chain: blocks over `crate::tx` transactions,
//! a fork tree with a bounded retention window, and the block handler that
//! assembles and commits blocks.

pub mod block;
pub mod blockchain;
pub mod handler;
pub mod tx_pool;
