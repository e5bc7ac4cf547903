//! The block handler: assembles candidate blocks from the mempool and feeds
//! received blocks to the chain.
//!
//! A candidate produced by `create_block` or `create_fork` is not committed;
//! the caller feeds it back through `process_block`, mirroring mining, where
//! a block is produced first and validated on receipt.

use vstd::prelude::*;

use crate::blockchain::block::{block_preimage, block_wf, Block, IncompleteBlock, COINBASE};
use crate::blockchain::blockchain::{
    accepts, first_hash_idx, has_hash, lemma_first_hash_idx_props, remove_hashes, tip_idx,
    Blockchain,
};
use crate::bytes::zero_digest;
use crate::crypto::sha256_spec;
use crate::handler::{tx_views, waves, Handler, TxHandler};
use crate::key::VerifierKey;
use crate::tx::{OutputModel, Tx, TxModel};

verus! {

/// Drives a fork-aware chain: accepts transactions and blocks, and builds
/// new candidate blocks over the canonical tip or over a named parent.
pub struct BlockHandler {
    chain: Blockchain,
}

impl BlockHandler {
    /// The chain this handler drives.
    pub closed spec fn spec_chain(&self) -> Blockchain {
        self.chain
    }

    /// Well-formed: the chain is.
    pub open spec fn wf(&self) -> bool {
        self.spec_chain().wf()
    }

    /// A handler over the given chain.
    pub fn new(chain: Blockchain) -> (r: Self)
        ensures
            r.spec_chain() == chain,
    {
        BlockHandler { chain }
    }

    /// The hash of the canonical tip.
    pub fn hash_at_max_height(&self) -> (r: [u8; 32])
        requires
            self.wf(),
        ensures
            r@ == self.spec_chain().spec_chain()[tip_idx(self.spec_chain().spec_heights())].0@.hash,
    {
        self.chain.block_at_max_height().hash()
    }

    /// Feeds a received block to the chain.
    pub fn process_block(&mut self, block: Block) -> (r: bool)
        requires
            old(self).wf(),
            block_wf(block@),
        ensures
            final(self).wf(),
            r == accepts(
                old(self).spec_chain().spec_chain(),
                old(self).spec_chain().spec_heights(),
                block@,
            ),
            block@.prev == zero_digest() ==> !r,
            has_hash(old(self).spec_chain().spec_chain(), block@.hash) ==> !r,
            !r ==> final(self).spec_chain().spec_chain() == old(self).spec_chain().spec_chain()
                && final(self).spec_chain().spec_heights() == old(self).spec_chain().spec_heights()
                && final(self).spec_chain().spec_mempool() == old(
                self,
            ).spec_chain().spec_mempool(),
            r ==> ({
                &&& final(self).spec_chain().spec_chain().last().0@ == block@
                &&& final(self).spec_chain().spec_mempool()@ == remove_hashes(
                    old(self).spec_chain().spec_mempool()@,
                    block@.txs,
                )
            }),
    {
        self.chain.add_block(block)
    }

    /// Submits a transaction to the mempool.
    pub fn process_tx(&mut self, tx: Tx)
        requires
            old(self).wf(),
        ensures
            final(self).wf(),
            final(self).spec_chain().spec_mempool()@ == old(
                self,
            ).spec_chain().spec_mempool()@.insert(tx@.hash, tx@),
            final(self).spec_chain().spec_chain() == old(self).spec_chain().spec_chain(),
            final(self).spec_chain().spec_heights() == old(self).spec_chain().spec_heights(),
    {
        self.chain.add_tx(tx);
    }

    /// Assembles a candidate block over the canonical tip: drains a snapshot
    /// of the mempool through the wave loop against the tip's pool and
    /// packages the admitted transactions behind a fresh coinbase for
    /// `address`. The chain itself is not touched.
    pub fn create_block(&self, address: &VerifierKey) -> (r: Block)
        requires
            self.wf(),
        ensures
            ({
                let tip = self.spec_chain().spec_chain()[tip_idx(self.spec_chain().spec_heights())];
                let w = waves(tip.1@, self.spec_chain().spec_mempool().values(), Seq::empty());
                &&& r@.prev == tip.0@.hash
                &&& r@.txs == w.0
                &&& r@.coinbase.inputs.len() == 0
                &&& r@.coinbase.outputs == seq![
                    OutputModel { value: COINBASE, verifying_key: address@ },
                ]
                &&& r@.hash == sha256_spec(block_preimage(tip.0@.hash, w.0))
                &&& block_wf(r@)
            }),
    {
        let parent = self.chain.block_at_max_height();
        let mut new_b = IncompleteBlock::new(parent.hash(), address);
        let utxo_pool = self.chain.utxo_pool_at_max_height();
        let mut handler = Handler::new(utxo_pool.clone());
        let tx_pool = self.chain.tx_pool_at_max_height();
        let txs = tx_pool.txs();
        let handled = handler.handle(txs);
        let ghost w = waves(
            self.spec_chain().spec_chain()[tip_idx(self.spec_chain().spec_heights())].1@,
            self.spec_chain().spec_mempool().values(),
            Seq::empty(),
        );
        let mut k: usize = 0;
        proof {
            assert(w.0.take(0) =~= Seq::<TxModel>::empty());
        }
        while k < handled.len()
            invariant
                k <= handled.len(),
                tx_views(handled@) == w.0,
                handled@.len() == w.0.len(),
                new_b@.txs == w.0.take(k as int),
                new_b@.prev == self.spec_chain().spec_chain()[tip_idx(
                    self.spec_chain().spec_heights(),
                )].0@.hash,
                new_b@.coinbase.inputs.len() == 0,
                new_b@.coinbase.outputs == seq![
                    OutputModel { value: COINBASE, verifying_key: address@ },
                ],
                new_b.wf(),
            decreases handled.len() - k,
        {
            new_b.add_tx(handled[k].clone());
            proof {
                assert(tx_views(handled@)[k as int] == handled@[k as int]@);
                assert(w.0.take(k + 1) =~= w.0.take(k as int).push(w.0[k as int]));
            }
            k += 1;
        }
        proof {
            assert(w.0.take(w.0.len() as int) =~= w.0);
        }
        new_b.finalize()
    }

    /// Like `create_block`, but parented on the retained node with hash
    /// `parent_hash`; nothing when that hash has left the retention window.
    pub fn create_fork(&self, parent_hash: [u8; 32], address: &VerifierKey) -> (r: Option<Block>)
        requires
            self.wf(),
        ensures
            r is Some <==> has_hash(self.spec_chain().spec_chain(), parent_hash@),
            r matches Some(b) ==> ({
                let parent = self.spec_chain().spec_chain()[first_hash_idx(
                    self.spec_chain().spec_chain(),
                    parent_hash@,
                )];
                let w = waves(parent.1@, self.spec_chain().spec_mempool().values(), Seq::empty());
                &&& b@.prev == parent.0@.hash
                &&& b@.txs == w.0
                &&& b@.coinbase.inputs.len() == 0
                &&& b@.coinbase.outputs == seq![
                    OutputModel { value: COINBASE, verifying_key: address@ },
                ]
                &&& b@.hash == sha256_spec(block_preimage(parent.0@.hash, w.0))
                &&& block_wf(b@)
            }),
    {
        let node = match self.chain.at_block_hash(parent_hash) {
            Some(n) => n,
            None => {
                return None;
            },
        };
        proof {
            lemma_first_hash_idx_props(self.spec_chain().spec_chain(), parent_hash@);
        }
        let mut new_b = IncompleteBlock::new(node.0.hash(), address);
        let mut handler = Handler::new(node.1.clone());
        let tx_pool = self.chain.tx_pool_at_max_height();
        let txs = tx_pool.txs();
        let handled = handler.handle(txs);
        let ghost w = waves(
            self.spec_chain().spec_chain()[first_hash_idx(
                self.spec_chain().spec_chain(),
                parent_hash@,
            )].1@,
            self.spec_chain().spec_mempool().values(),
            Seq::empty(),
        );
        let mut k: usize = 0;
        proof {
            assert(w.0.take(0) =~= Seq::<TxModel>::empty());
        }
        while k < handled.len()
            invariant
                k <= handled.len(),
                tx_views(handled@) == w.0,
                handled@.len() == w.0.len(),
                new_b@.txs == w.0.take(k as int),
                new_b@.prev == self.spec_chain().spec_chain()[first_hash_idx(
                    self.spec_chain().spec_chain(),
                    parent_hash@,
                )].0@.hash,
                new_b@.coinbase.inputs.len() == 0,
                new_b@.coinbase.outputs == seq![
                    OutputModel { value: COINBASE, verifying_key: address@ },
                ],
                new_b.wf(),
            decreases handled.len() - k,
        {
            new_b.add_tx(handled[k].clone());
            proof {
                assert(tx_views(handled@)[k as int] == handled@[k as int]@);
                assert(w.0.take(k + 1) =~= w.0.take(k as int).push(w.0[k as int]));
            }
            k += 1;
        }
        proof {
            assert(w.0.take(w.0.len() as int) =~= w.0);
        }
        Some(new_b.finalize())
    }
}

} // verus!
