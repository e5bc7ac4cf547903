//! Blocks: a coinbase, an ordered list of transactions, and a hash over the
//! canonical block preimage.
//!
//! The preimage is the parent hash — omitted entirely for a genesis block,
//! whose parent is the all-zeros sentinel — followed by the hash of each
//! non-coinbase transaction in order. The coinbase is never hashed into the
//! block.

use vstd::prelude::*;

use crate::bytes::{extend_digest, is_zero_digest, zero_digest};
use crate::crypto::{sha256, sha256_spec};
use crate::key::VerifierKey;
use crate::multisig::tx::{tx_hash_consistent, OutputModel, Tx, TxModel};

verus! {

/// The fixed value of every coinbase output.
pub const COINBASE: u32 = 625;

/// A SHA-256 digest.
pub type Sha256Digest = [u8; 32];

/// The concatenated hashes of a sequence of transactions.
pub open spec fn tx_hashes_bytes(txs: Seq<TxModel>) -> Seq<u8>
    decreases txs.len(),
{
    if txs.len() == 0 {
        Seq::empty()
    } else {
        tx_hashes_bytes(txs.drop_last()) + txs.last().hash
    }
}

/// The canonical preimage of a block: the parent hash unless the block is
/// genesis, then each transaction hash in order.
pub open spec fn block_preimage(prev: Seq<u8>, txs: Seq<TxModel>) -> Seq<u8> {
    (if prev == zero_digest() {
        Seq::<u8>::empty()
    } else {
        prev
    }) + tx_hashes_bytes(txs)
}

/// The mathematical content of a block.
#[verifier::ext_equal]
pub struct BlockModel {
    pub hash: Seq<u8>,
    pub prev: Seq<u8>,
    pub coinbase: TxModel,
    pub txs: Seq<TxModel>,
}

/// A block as this library builds it: the coinbase has no inputs and exactly
/// one output.
pub open spec fn block_wf(b: BlockModel) -> bool {
    &&& b.coinbase.inputs.len() == 0
    &&& b.coinbase.outputs.len() == 1
}

/// A block under construction: transactions may still be added and no hash
/// has been fixed yet.
pub struct IncompleteBlock {
    prev: Sha256Digest,
    coinbase: Tx,
    txs: Vec<Tx>,
}

/// The mathematical content of a block under construction.
#[verifier::ext_equal]
pub struct IncompleteBlockModel {
    pub prev: Seq<u8>,
    pub coinbase: TxModel,
    pub txs: Seq<TxModel>,
}

impl View for IncompleteBlock {
    type V = IncompleteBlockModel;

    closed spec fn view(&self) -> IncompleteBlockModel {
        IncompleteBlockModel {
            prev: self.prev@,
            coinbase: self.coinbase@,
            txs: self.txs@.map_values(|t: Tx| t@),
        }
    }
}

impl IncompleteBlock {
    /// The coinbase of this block under construction has the required shape.
    pub open spec fn wf(&self) -> bool {
        &&& self@.coinbase.inputs.len() == 0
        &&& self@.coinbase.outputs.len() == 1
    }

    /// An empty block on parent `prev`, with a fresh coinbase of `COINBASE`
    /// locked to `address` with the given threshold.
    pub fn new(prev: Sha256Digest, address: Vec<&VerifierKey>, threshold: usize) -> (r: Self)
        ensures
            r.wf(),
            r@.prev == prev@,
            r@.txs.len() == 0,
            r@.coinbase.inputs.len() == 0,
            r@.coinbase.outputs == seq![
                OutputModel {
                    value: COINBASE,
                    verifiers: address@.map_values(|v: &VerifierKey| v@),
                    threshold,
                },
            ],
            tx_hash_consistent(r@.coinbase),
    {
        let coinbase = Tx::coinbase(COINBASE, address, threshold);
        let r = IncompleteBlock { prev, coinbase, txs: Vec::new() };
        proof {
            assert(r@.txs =~= Seq::<TxModel>::empty());
        }
        r
    }

    /// Appends a transaction.
    pub fn add_tx(&mut self, tx: Tx)
        ensures
            final(self)@.txs == old(self)@.txs.push(tx@),
            final(self)@.prev == old(self)@.prev,
            final(self)@.coinbase == old(self)@.coinbase,
            final(self).wf() == old(self).wf(),
    {
        self.txs.push(tx);
        proof {
            assert(final(self)@.txs =~= old(self)@.txs.push(final(self).txs@.last()@));
        }
    }

    /// The canonical preimage bytes of this block.
    fn raw(&self) -> (r: Vec<u8>)
        ensures
            r@ == block_preimage(self@.prev, self@.txs),
    {
        let ghost txm = self@.txs;
        let mut b: Vec<u8> = Vec::new();
        if !is_zero_digest(&self.prev) {
            // not a genesis block: the parent hash leads the preimage
            extend_digest(&mut b, &self.prev);
        }
        let ghost head = b@;
        let mut i: usize = 0;
        while i < self.txs.len()
            invariant
                i <= self.txs.len(),
                txm == self@.txs,
                self.txs@.len() == txm.len(),
                b@ == head + tx_hashes_bytes(txm.take(i as int)),
            decreases self.txs.len() - i,
        {
            let h = self.txs[i].hash();
            extend_digest(&mut b, &h);
            proof {
                assert(txm[i as int] == self.txs@[i as int]@);
                assert(txm.take(i + 1).drop_last() =~= txm.take(i as int));
                assert(txm.take(i + 1).last() == txm[i as int]);
                assert(b@ =~= head + tx_hashes_bytes(txm.take(i + 1)));
            }
            i += 1;
        }
        proof {
            assert(txm.take(txm.len() as int) =~= txm);
            assert(head + tx_hashes_bytes(txm) =~= block_preimage(self@.prev, self@.txs));
            assert(Seq::<u8>::empty() + tx_hashes_bytes(txm) =~= tx_hashes_bytes(txm));
        }
        b
    }

    /// Hashes the preimage and fixes the block.
    pub fn finalize(self) -> (r: Block)
        ensures
            r@.prev == self@.prev,
            r@.coinbase == self@.coinbase,
            r@.txs == self@.txs,
            r@.hash == sha256_spec(block_preimage(self@.prev, self@.txs)),
            self.wf() ==> block_wf(r@),
    {
        let raw = self.raw();
        let hash = sha256(&raw);
        Block { hash, prev: self.prev, coinbase: self.coinbase, txs: self.txs }
    }
}

/// A finalized block.
pub struct Block {
    hash: Sha256Digest,
    prev: Sha256Digest,
    coinbase: Tx,
    txs: Vec<Tx>,
}

impl View for Block {
    type V = BlockModel;

    closed spec fn view(&self) -> BlockModel {
        BlockModel {
            hash: self.hash@,
            prev: self.prev@,
            coinbase: self.coinbase@,
            txs: self.txs@.map_values(|t: Tx| t@),
        }
    }
}

impl Block {
    /// The block hash.
    pub fn hash(&self) -> (r: [u8; 32])
        ensures
            r@ == self@.hash,
    {
        self.hash
    }

    /// The coinbase transaction.
    pub fn coinbase(&self) -> (r: &Tx)
        ensures
            r@ == self@.coinbase,
    {
        &self.coinbase
    }

    /// The non-coinbase transactions, in order.
    pub fn txs(&self) -> (r: &Vec<Tx>)
        ensures
            r@.map_values(|t: Tx| t@) == self@.txs,
    {
        &self.txs
    }

    /// The parent hash; all zeros on a genesis block.
    pub fn prev(&self) -> (r: [u8; 32])
        ensures
            r@ == self@.prev,
    {
        self.prev
    }

    /// Overwrites the parent hash without re-hashing; this deliberately
    /// desynchronizes hash and content and exists for tests.
    pub fn set_prev(&mut self, prev: Sha256Digest)
        ensures
            final(self)@.prev == prev@,
            final(self)@.hash == old(self)@.hash,
            final(self)@.coinbase == old(self)@.coinbase,
            final(self)@.txs == old(self)@.txs,
    {
        self.prev = prev;
    }
}

} // verus!
