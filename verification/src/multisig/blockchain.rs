//! The fork-aware chain with a bounded history window.
//!
//! Every accepted block carries its own post-state UTXO pool. The chain
//! retains at most `CUT_OFF_AGE` nodes: after each append it evicts every
//! node whose height has fallen `CUT_OFF_AGE` or more below the maximum, and
//! then, if still over the cap, the oldest-appended nodes. The canonical tip
//! is the oldest node at maximal height: a later sibling at the same height
//! never displaces it.

use vstd::prelude::*;

use crate::multisig::block::{block_wf, Block, BlockModel};
use crate::multisig::tx_pool::TxPool;
use crate::bytes::{digest_eq, is_zero_digest, zero_digest};
use crate::multisig::handler::{handle_in, tx_views, waves};
use crate::multisig::tx::{Tx, TxModel, OutputModel};
use crate::multisig::utxo::UTXOPool;
use crate::utxo::{UTXOModel, UTXO};

verus! {

/// The retention window: a node this far or further below the maximum height
/// can no longer be a parent.
pub const CUT_OFF_AGE: usize = 12;

/// A retained node: a block and its post-state pool.
pub type BlockNode = (Block, UTXOPool);

/// The largest element of a height sequence (zero when empty).
pub open spec fn seq_max(s: Seq<u64>) -> int
    decreases s.len(),
{
    if s.len() == 0 {
        0
    } else if s.last() as int > seq_max(s.drop_last()) {
        s.last() as int
    } else {
        seq_max(s.drop_last())
    }
}

/// Every element is bounded by the maximum.
pub proof fn lemma_seq_max_le(s: Seq<u64>, i: int)
    requires
        0 <= i < s.len(),
    ensures
        s[i] as int <= seq_max(s),
    decreases s.len(),
{
    if i < s.len() - 1 {
        assert(s.drop_last()[i] == s[i]);
        lemma_seq_max_le(s.drop_last(), i);
    }
}

/// `i` is the first index attaining the maximum height.
pub open spec fn is_first_max(s: Seq<u64>, i: int) -> bool {
    &&& 0 <= i < s.len()
    &&& forall|j: int| 0 <= j < s.len() ==> (#[trigger] s[j]) <= s[i]
    &&& forall|j: int| 0 <= j < i ==> (#[trigger] s[j]) < s[i]
}

/// The index of the oldest node at maximal height.
pub open spec fn tip_idx(s: Seq<u64>) -> int {
    choose|i: int| is_first_max(s, i)
}

/// A nonempty height sequence has a first maximum.
pub proof fn lemma_first_max_exists(s: Seq<u64>)
    requires
        s.len() > 0,
    ensures
        is_first_max(s, tip_idx(s)),
    decreases s.len(),
{
    if s.len() == 1 {
        assert(is_first_max(s, 0));
    } else {
        lemma_first_max_exists(s.drop_last());
        let i = tip_idx(s.drop_last());
        if s.last() > s.drop_last()[i] {
            assert(forall|j: int|
                0 <= j < s.len() - 1 ==> (#[trigger] s[j]) == s.drop_last()[j]);
            assert(is_first_max(s, s.len() - 1));
        } else {
            assert(forall|j: int|
                0 <= j < s.len() - 1 ==> (#[trigger] s[j]) == s.drop_last()[j]);
            assert(is_first_max(s, i));
        }
    }
}

/// At most one index is the first maximum.
pub proof fn lemma_first_max_unique(s: Seq<u64>, a: int, b: int)
    requires
        is_first_max(s, a),
        is_first_max(s, b),
    ensures
        a == b,
{
    if a < b {
        assert(s[a] < s[b]);
        assert(s[b] <= s[a]);
    }
    if b < a {
        assert(s[b] < s[a]);
        assert(s[a] <= s[b]);
    }
}

/// Whether some retained node's block carries the given hash.
pub open spec fn has_hash(s: Seq<BlockNode>, h: Seq<u8>) -> bool {
    exists|i: int| 0 <= i < s.len() && (#[trigger] s[i]).0@.hash == h
}

/// The index of the oldest retained node with the given hash.
pub open spec fn first_hash_idx(s: Seq<BlockNode>, h: Seq<u8>) -> int
    decreases s.len(),
{
    if s.len() == 0 {
        0
    } else if s.first().0@.hash == h {
        0
    } else {
        1 + first_hash_idx(s.drop_first(), h)
    }
}

/// When some node carries the hash, the first-hash index names the oldest.
pub proof fn lemma_first_hash_idx_props(s: Seq<BlockNode>, h: Seq<u8>)
    requires
        has_hash(s, h),
    ensures
        0 <= first_hash_idx(s, h) < s.len(),
        s[first_hash_idx(s, h)].0@.hash == h,
    decreases s.len(),
{
    if s.len() > 0 && s.first().0@.hash != h {
        let i = choose|i: int| 0 <= i < s.len() && (#[trigger] s[i]).0@.hash == h;
        assert(s.drop_first()[i - 1] == s[i]);
        lemma_first_hash_idx_props(s.drop_first(), h);
        assert(s[1 + first_hash_idx(s.drop_first(), h)] == s.drop_first()[first_hash_idx(
            s.drop_first(),
            h,
        )]);
    }
}

/// A first match at `i` makes `i` the first-hash index.
pub proof fn lemma_first_hash_idx_at(s: Seq<BlockNode>, h: Seq<u8>, i: int)
    requires
        0 <= i < s.len(),
        s[i].0@.hash == h,
        forall|j: int| 0 <= j < i ==> (#[trigger] s[j]).0@.hash != h,
    ensures
        first_hash_idx(s, h) == i,
        has_hash(s, h),
    decreases s.len(),
{
    if i > 0 {
        assert(s[0].0@.hash != h);
        assert(s.drop_first()[i - 1] == s[i]);
        assert(forall|j: int|
            0 <= j < i - 1 ==> (#[trigger] s.drop_first()[j]).0@.hash != h);
        lemma_first_hash_idx_at(s.drop_first(), h, i - 1);
    }
}

/// Law: a block whose hash is already retained is never accepted — adding
/// the same block a second time returns false while its first copy stays in
/// the window.
pub proof fn lemma_duplicate_block_rejected(
    nodes: Seq<BlockNode>,
    heights: Seq<u64>,
    b: BlockModel,
)
    requires
        has_hash(nodes, b.hash),
    ensures
        !accepts(nodes, heights, b),
{
}

/// Law: a sibling no taller than the tip never displaces it — appending a
/// node of height at most the first maximum keeps the same tip index.
pub proof fn lemma_sibling_keeps_tip(hs: Seq<u64>, i: int, h: u64)
    requires
        is_first_max(hs, i),
        h <= hs[i],
    ensures
        is_first_max(hs.push(h), i),
        tip_idx(hs.push(h)) == i,
{
    let pushed = hs.push(h);
    assert forall|j: int| 0 <= j < pushed.len() implies (#[trigger] pushed[j]) <= pushed[i] by {
        if j < hs.len() {
            assert(pushed[j] == hs[j]);
        } else {
            assert(pushed[j] == h);
        }
    }
    assert forall|j: int| 0 <= j < i implies (#[trigger] pushed[j]) < pushed[i] by {
        assert(pushed[j] == hs[j]);
    }
    lemma_first_max_exists(pushed);
    lemma_first_max_unique(pushed, i, tip_idx(pushed));
}

/// Keeps the nodes whose height lies above the floor, in order.
pub open spec fn retain_above<T>(xs: Seq<T>, hs: Seq<u64>, floor: int) -> (Seq<T>, Seq<u64>)
    decreases hs.len(),
{
    if hs.len() == 0 || xs.len() != hs.len() {
        (xs, hs)
    } else {
        let (rx, rh) = retain_above(xs.drop_last(), hs.drop_last(), floor);
        if hs.last() as int > floor {
            (rx.push(xs.last()), rh.push(hs.last()))
        } else {
            (rx, rh)
        }
    }
}

/// Retention commutes with taking node views.
pub proof fn lemma_retain_above_views(xs: Seq<BlockNode>, hs: Seq<u64>, floor: int)
    requires
        xs.len() == hs.len(),
    ensures
        retain_above(node_views(xs), hs, floor).0 == node_views(retain_above(xs, hs, floor).0),
        retain_above(node_views(xs), hs, floor).1 == retain_above(xs, hs, floor).1,
    decreases hs.len(),
{
    if hs.len() > 0 {
        assert(node_views(xs).drop_last() =~= node_views(xs.drop_last()));
        lemma_retain_above_views(xs.drop_last(), hs.drop_last(), floor);
        if hs.last() as int > floor {
            assert(node_views(xs).last() == (xs.last().0@, xs.last().1@));
            assert(node_views(retain_above(xs, hs, floor).0) =~= node_views(
                retain_above(xs.drop_last(), hs.drop_last(), floor).0,
            ).push((xs.last().0@, xs.last().1@)));
        }
    }
}

/// A bound on every element bounds the maximum.
pub proof fn lemma_seq_max_upper(s: Seq<u64>, b: int)
    requires
        b >= 0,
        forall|i: int| 0 <= i < s.len() ==> (#[trigger] s[i]) as int <= b,
    ensures
        seq_max(s) <= b,
    decreases s.len(),
{
    if s.len() > 0 {
        assert(forall|i: int|
            0 <= i < s.drop_last().len() ==> (#[trigger] s.drop_last()[i]) == s[i]);
        lemma_seq_max_upper(s.drop_last(), b);
    }
}

/// What retention promises of the kept heights.
pub proof fn lemma_retain_above_heights<T>(xs: Seq<T>, hs: Seq<u64>, floor: int)
    requires
        xs.len() == hs.len(),
    ensures
        ({
            let (rx, rh) = retain_above(xs, hs, floor);
            &&& rx.len() == rh.len() <= hs.len()
            &&& forall|i: int| 0 <= i < rh.len() ==> (#[trigger] rh[i]) as int > floor
            &&& forall|i: int|
                0 <= i < rh.len() ==> exists|j: int|
                    0 <= j < hs.len() && (#[trigger] rh[i]) == hs[j] && rx[i] == xs[j]
        }),
    decreases hs.len(),
{
    if hs.len() > 0 {
        lemma_retain_above_heights(xs.drop_last(), hs.drop_last(), floor);
        let (rx0, rh0) = retain_above(xs.drop_last(), hs.drop_last(), floor);
        let (rx, rh) = retain_above(xs, hs, floor);
        assert forall|i: int| 0 <= i < rh.len() implies exists|j: int|
            0 <= j < hs.len() && (#[trigger] rh[i]) == hs[j] && rx[i] == xs[j] by {
            if i < rh0.len() {
                let j = choose|j: int|
                    0 <= j < hs.drop_last().len() && (#[trigger] rh0[i]) == hs.drop_last()[j]
                        && rx0[i] == xs.drop_last()[j];
                assert(rh[i] == hs[j] && rx[i] == xs[j]);
            } else {
                assert(rh[i] == hs[hs.len() - 1] && rx[i] == xs[xs.len() - 1]);
            }
        }
    }
}

/// The mempool after the hashes of the given transactions are dropped.
pub open spec fn remove_hashes(m: Map<Seq<u8>, TxModel>, txs: Seq<TxModel>) -> Map<
    Seq<u8>,
    TxModel,
>
    decreases txs.len(),
{
    if txs.len() == 0 {
        m
    } else {
        remove_hashes(m, txs.drop_last()).remove(txs.last().hash)
    }
}

/// The views of a node sequence.
pub open spec fn node_views(s: Seq<BlockNode>) -> Seq<(BlockModel, Map<UTXOModel, OutputModel>)> {
    s.map_values(|n: BlockNode| (n.0@, n.1@))
}

/// The post-handling pool of an accepted block: the wave-loop result with the
/// coinbase's single output credited under the coinbase hash.
pub open spec fn credited_pool(parent: Map<UTXOModel, OutputModel>, b: BlockModel) -> Map<
    UTXOModel,
    OutputModel,
> {
    waves(parent, b.txs, Seq::empty()).1.insert(
        UTXOModel { tx_hash: b.coinbase.hash, output_idx: 0 },
        b.coinbase.outputs[0],
    )
}

/// Whether a block extends the chain: a non-genesis parent hash found in the
/// window, a hash not already retained (a duplicate is rejected explicitly),
/// every transaction admitted, and the parent height not yet at the numeric
/// limit.
pub open spec fn accepts(nodes: Seq<BlockNode>, heights: Seq<u64>, b: BlockModel) -> bool {
    &&& b.prev != zero_digest()
    &&& !has_hash(nodes, b.hash)
    &&& has_hash(nodes, b.prev)
    &&& ({
        let p = first_hash_idx(nodes, b.prev);
        &&& heights[p] < u64::MAX
        &&& waves(nodes[p].1@, b.txs, Seq::empty()).0.len() == b.txs.len()
    })
}

/// The fork tree: retained nodes, their heights, and the shared mempool.
pub struct Blockchain {
    chain: Vec<BlockNode>,
    levels: Vec<u64>,
    mempool: TxPool,
}

impl Blockchain {
    /// The retained nodes, oldest-appended first.
    pub closed spec fn spec_chain(&self) -> Seq<BlockNode> {
        self.chain@
    }

    /// The height of each retained node.
    pub closed spec fn spec_heights(&self) -> Seq<u64> {
        self.levels@
    }

    /// The mempool.
    pub closed spec fn spec_mempool(&self) -> TxPool {
        self.mempool
    }

    /// Well-formed: at least one node and at most `CUT_OFF_AGE`; every pool
    /// well-formed; heights start at one; and every retained node lies within
    /// the window below the maximum height.
    pub open spec fn wf(&self) -> bool {
        &&& self.spec_chain().len() == self.spec_heights().len()
        &&& 1 <= self.spec_chain().len() <= CUT_OFF_AGE
        &&& forall|i: int|
            0 <= i < self.spec_chain().len() ==> (#[trigger] self.spec_chain()[i]).1.wf()
        &&& self.spec_mempool().wf()
        &&& forall|i: int| 0 <= i < self.spec_heights().len() ==> 1 <= (#[trigger] self.spec_heights()[i])
        &&& forall|i: int|
            0 <= i < self.spec_heights().len() ==> seq_max(self.spec_heights()) - (
            #[trigger] self.spec_heights()[i]) < CUT_OFF_AGE
    }

    /// A chain holding the genesis block at height one over its pool.
    pub fn new(genesis: Block, utxo_pool: UTXOPool) -> (r: Self)
        requires
            utxo_pool.wf(),
        ensures
            r.wf(),
            r.spec_chain() == seq![(genesis, utxo_pool)],
            r.spec_heights() == seq![1u64],
            r.spec_mempool()@ == Map::<Seq<u8>, TxModel>::empty(),
    {
        let mut chain: Vec<BlockNode> = Vec::new();
        chain.push((genesis, utxo_pool));
        let mut levels: Vec<u64> = Vec::new();
        levels.push(1);
        let r = Blockchain { chain, levels, mempool: TxPool::new() };
        proof {
            assert(r.spec_chain() =~= seq![(genesis, utxo_pool)]);
            assert(r.spec_heights() =~= seq![1u64]);
            assert(r.spec_heights().drop_last() =~= Seq::<u64>::empty());
            assert(seq_max(r.spec_heights().drop_last()) == 0);
            assert(r.spec_heights().last() == 1u64);
            assert(seq_max(r.spec_heights()) == 1);
        }
        r
    }

    /// The index of the oldest retained node with the given hash, if any.
    fn find_index(&self, hash: &[u8; 32]) -> (r: Option<usize>)
        ensures
            match r {
                Some(i) => i < self.spec_chain().len() && has_hash(self.spec_chain(), hash@) && i
                    == first_hash_idx(self.spec_chain(), hash@),
                None => !has_hash(self.spec_chain(), hash@),
            },
    {
        let mut i: usize = 0;
        while i < self.chain.len()
            invariant
                i <= self.chain.len(),
                forall|j: int|
                    0 <= j < i ==> (#[trigger] self.spec_chain()[j]).0@.hash != hash@,
            decreases self.chain.len() - i,
        {
            let h = self.chain[i].0.hash();
            if digest_eq(&h, hash) {
                proof {
                    lemma_first_hash_idx_at(self.spec_chain(), hash@, i as int);
                }
                return Some(i);
            }
            i += 1;
        }
        None
    }

    /// The oldest retained node whose block has the given hash, if any.
    pub fn at_block_hash(&self, hash: [u8; 32]) -> (r: Option<&BlockNode>)
        ensures
            match r {
                Some(n) => has_hash(self.spec_chain(), hash@) && *n == self.spec_chain()[
                    first_hash_idx(self.spec_chain(), hash@)
                ],
                None => !has_hash(self.spec_chain(), hash@),
            },
    {
        match self.find_index(&hash) {
            Some(i) => Some(&self.chain[i]),
            None => None,
        }
    }

    /// The index of the canonical tip: the oldest node at maximal height.
    fn tip_index(&self) -> (r: usize)
        requires
            self.wf(),
        ensures
            r == tip_idx(self.spec_heights()),
            r < self.spec_chain().len(),
            is_first_max(self.spec_heights(), r as int),
    {
        let ghost hs = self.spec_heights();
        let mut best: usize = 0;
        let mut i: usize = 1;
        while i < self.levels.len()
            invariant
                self.wf(),
                hs == self.spec_heights(),
                best < i <= self.levels.len(),
                forall|j: int| 0 <= j < i ==> (#[trigger] hs[j]) <= hs[best as int],
                forall|j: int| 0 <= j < best ==> (#[trigger] hs[j]) < hs[best as int],
            decreases self.levels.len() - i,
        {
            if self.levels[i] > self.levels[best] {
                best = i;
            }
            i += 1;
        }
        proof {
            assert(is_first_max(hs, best as int));
            lemma_first_max_exists(hs);
            lemma_first_max_unique(hs, best as int, tip_idx(hs));
        }
        best
    }

    /// The block of the canonical tip.
    pub fn block_at_max_height(&self) -> (r: &Block)
        requires
            self.wf(),
        ensures
            *r == self.spec_chain()[tip_idx(self.spec_heights())].0,
            is_first_max(self.spec_heights(), tip_idx(self.spec_heights())),
    {
        let i = self.tip_index();
        &self.chain[i].0
    }

    /// The post-state pool of the canonical tip.
    pub fn utxo_pool_at_max_height(&self) -> (r: &UTXOPool)
        requires
            self.wf(),
        ensures
            *r == self.spec_chain()[tip_idx(self.spec_heights())].1,
            r.wf(),
    {
        let i = self.tip_index();
        &self.chain[i].1
    }

    /// The shared mempool.
    pub fn tx_pool_at_max_height(&self) -> (r: &TxPool)
        ensures
            *r == self.spec_mempool(),
    {
        &self.mempool
    }

    /// Submits a transaction to the mempool.
    pub fn add_tx(&mut self, tx: Tx)
        requires
            old(self).wf(),
        ensures
            final(self).wf(),
            final(self).spec_mempool()@ == old(self).spec_mempool()@.insert(tx@.hash, tx@),
            final(self).spec_chain() == old(self).spec_chain(),
            final(self).spec_heights() == old(self).spec_heights(),
    {
        self.mempool.add(tx);
    }

    /// Validates a block against its parent's post-state and, when every
    /// transaction is admitted, appends it, credits the coinbase, removes the
    /// included transactions from the mempool, and slides the window.
    ///
    /// A block whose parent is the all-zeros sentinel is always rejected: the
    /// genesis block enters through `new` alone. A block whose hash is
    /// already retained is rejected too, so adding the same block twice
    /// returns false the second time.
    pub fn add_block(&mut self, block: Block) -> (r: bool)
        requires
            old(self).wf(),
            block_wf(block@),
        ensures
            final(self).wf(),
            r == accepts(old(self).spec_chain(), old(self).spec_heights(), block@),
            block@.prev == zero_digest() ==> !r,
            has_hash(old(self).spec_chain(), block@.hash) ==> !r,
            r ==> has_hash(final(self).spec_chain(), block@.hash),
            !r ==> final(self).spec_chain() == old(self).spec_chain() && final(self).spec_heights()
                == old(self).spec_heights() && final(self).spec_mempool() == old(
                self,
            ).spec_mempool(),
            r ==> ({
                let p = first_hash_idx(old(self).spec_chain(), block@.prev);
                let newh = old(self).spec_heights()[p] + 1;
                let pushed = node_views(old(self).spec_chain()).push(
                    (block@, credited_pool(old(self).spec_chain()[p].1@, block@)),
                );
                let pushedh = old(self).spec_heights().push(newh as u64);
                let maxh = if newh > seq_max(old(self).spec_heights()) {
                    newh
                } else {
                    seq_max(old(self).spec_heights())
                };
                let (kn, kh) = retain_above(pushed, pushedh, maxh - CUT_OFF_AGE);
                let drop = if kn.len() > CUT_OFF_AGE {
                    kn.len() - CUT_OFF_AGE
                } else {
                    0
                };
                &&& node_views(final(self).spec_chain()) == kn.skip(drop as int)
                &&& final(self).spec_heights() == kh.skip(drop as int)
                &&& final(self).spec_mempool()@ == remove_hashes(
                    old(self).spec_mempool()@,
                    block@.txs,
                )
                &&& final(self).spec_chain().last().0@ == block@
                &&& final(self).spec_heights().last() == newh
            }),
    {
        let ghost orig_nodes = self.spec_chain();
        let ghost orig_heights = self.spec_heights();
        let prev = block.prev();
        if is_zero_digest(&prev) {
            // no second genesis
            return false;
        }
        let block_hash = block.hash();
        if let Some(_) = self.find_index(&block_hash) {
            // the block is already retained
            return false;
        }
        let pidx = match self.find_index(&prev) {
            Some(i) => i,
            None => {
                return false;
            },
        };
        let parent_height = self.levels[pidx];
        if parent_height == u64::MAX {
            return false;
        }
        let mut pool = self.chain[pidx].1.clone();
        let ghost parent_pool = pool@;
        let block_txs = block.txs();
        let mut txrefs: Vec<&Tx> = Vec::new();
        let mut i: usize = 0;
        proof {
            assert(tx_views(txrefs@) =~= block@.txs.take(0));
        }
        while i < block_txs.len()
            invariant
                i <= block_txs.len(),
                block_txs@.map_values(|t: Tx| t@) == block@.txs,
                block_txs@.len() == block@.txs.len(),
                tx_views(txrefs@) == block@.txs.take(i as int),
            decreases block_txs.len() - i,
        {
            let ghost tp = txrefs@;
            txrefs.push(&block_txs[i]);
            proof {
                assert(block_txs@[i as int]@ == block@.txs[i as int]);
                assert(tx_views(txrefs@) =~= tx_views(tp).push(block@.txs[i as int]));
                assert(block@.txs.take(i + 1) =~= block@.txs.take(i as int).push(
                    block@.txs[i as int],
                ));
            }
            i += 1;
        }
        proof {
            assert(block@.txs.take(block@.txs.len() as int) =~= block@.txs);
        }
        let n_txs = block_txs.len();
        let handled = handle_in(&mut pool, txrefs);
        if handled.len() != n_txs {
            // the block holds a transaction the wave loop does not admit
            return false;
        }
        proof {
            assert(waves(parent_pool, block@.txs, Seq::empty()).0.len() == block@.txs.len());
        }
        // credit the coinbase
        let coinbase = block.coinbase();
        let cb_hash = coinbase.hash();
        let cb_utxo = UTXO::new(cb_hash, 0);
        let cb_out = match coinbase.output(0) {
            Some(o) => o,
            None => vstd::pervasive::unreached(),
        };
        pool.add_utxo(cb_utxo, cb_out);
        proof {
            assert(cb_utxo@ =~= (UTXOModel {
                tx_hash: block@.coinbase.hash,
                output_idx: 0,
            }));
            assert(pool@ == credited_pool(parent_pool, block@));
        }
        // the included transactions leave the mempool
        let ghost mem0 = self.mempool@;
        let mut k: usize = 0;
        while k < block_txs.len()
            invariant
                self.mempool.wf(),
                block_txs@.map_values(|t: Tx| t@) == block@.txs,
                block_txs@.len() == block@.txs.len(),
                k <= block_txs.len(),
                self.chain@ == orig_nodes,
                self.levels@ == orig_heights,
                self.mempool@ == remove_hashes(mem0, block@.txs.take(k as int)),
            decreases block_txs.len() - k,
        {
            let h = block_txs[k].hash();
            let ghost memp = self.mempool@;
            self.mempool.remove(h);
            proof {
                assert(block_txs@[k as int]@ == block@.txs[k as int]);
                lemma_remove_hashes_step(mem0, block@.txs, k as int);
            }
            k += 1;
        }
        proof {
            assert(block@.txs.take(block@.txs.len() as int) =~= block@.txs);
        }
        // append the node
        let new_height = parent_height + 1;
        self.chain.push((block, pool));
        self.levels.push(new_height);
        let ghost pushed_nodes = self.spec_chain();
        let ghost pushed_heights = self.spec_heights();
        proof {
            assert(pushed_nodes =~= orig_nodes.push(pushed_nodes.last()));
            assert(pushed_heights =~= orig_heights.push(new_height));
        }
        // slide the window: first by height, then by the size cap
        let maxh = self.max_level();
        let ghost floor_int = maxh as int - CUT_OFF_AGE as int;
        let floor: u64 = if maxh > (CUT_OFF_AGE as u64) {
            maxh - (CUT_OFF_AGE as u64)
        } else {
            0
        };
        proof {
            lemma_seq_max_push(orig_heights, new_height);
            assert forall|i: int|
                0 <= i < pushed_heights.len() implies 1 <= (#[trigger] pushed_heights[i]) by {
                if i < orig_heights.len() {
                    assert(pushed_heights[i] == orig_heights[i]);
                }
            }
        }
        self.evict_below(floor, Ghost(floor_int));
        let ghost kept_nodes = self.spec_chain();
        let ghost kept_heights = self.spec_heights();
        let ghost mem_after = self.spec_mempool();
        while self.chain.len() > CUT_OFF_AGE
            invariant
                self.chain@.len() == self.levels@.len() <= kept_nodes.len(),
                kept_nodes.len() == kept_heights.len(),
                kept_nodes.len() >= CUT_OFF_AGE ==> self.chain@.len() >= CUT_OFF_AGE,
                kept_nodes.len() < CUT_OFF_AGE ==> self.chain@.len() == kept_nodes.len(),
                self.chain@ == kept_nodes.skip(kept_nodes.len() - self.chain@.len()),
                self.levels@ == kept_heights.skip(kept_heights.len() - self.levels@.len()),
                self.mempool == mem_after,
            decreases self.chain@.len(),
        {
            self.chain.remove(0);
            self.levels.remove(0);
            proof {
                assert(self.chain@ =~= kept_nodes.skip(kept_nodes.len() - self.chain@.len()));
                assert(self.levels@ =~= kept_heights.skip(
                    kept_heights.len() - self.levels@.len(),
                ));
            }
        }
        proof {
            let fin_n = self.spec_chain();
            let fin_h = self.spec_heights();
            let d: int = kept_nodes.len() - fin_n.len();
            // the appended node survives the height eviction ...
            lemma_seq_max_le(orig_heights, pidx as int);
            assert(new_height as int > floor_int);
            lemma_retain_above_heights(pushed_nodes, pushed_heights, floor_int);
            assert(kept_heights.last() == new_height && kept_nodes.last() == pushed_nodes.last())
                by {
                assert(pushed_heights.last() as int > floor_int);
            }
            // ... and the size cap drops from the front alone
            assert(0 <= d < kept_nodes.len());
            assert(fin_n.last() == kept_nodes.last());
            assert(fin_h.last() == kept_heights.last());
            // each retained node descends from the pushed sequence
            assert forall|i: int| 0 <= i < fin_h.len() implies exists|j: int|
                0 <= j < pushed_heights.len() && (#[trigger] fin_h[i]) == pushed_heights[j]
                    && fin_n[i] == pushed_nodes[j] by {
                assert(fin_h[i] == kept_heights[i + d] && fin_n[i] == kept_nodes[i + d]);
            }
            // well-formedness of the result
            assert forall|i: int|
                0 <= i < fin_n.len() implies (#[trigger] fin_n[i]).1.wf() && 1 <= fin_h[i] by {
                let j = choose|j: int|
                    0 <= j < pushed_heights.len() && (#[trigger] fin_h[i]) == pushed_heights[j]
                        && fin_n[i] == pushed_nodes[j];
                if j < orig_nodes.len() {
                    assert(pushed_nodes[j] == orig_nodes[j]);
                    assert(pushed_heights[j] == orig_heights[j]);
                }
            }
            assert forall|i: int|
                0 <= i < fin_h.len() implies seq_max(fin_h) - (#[trigger] fin_h[i])
                    < CUT_OFF_AGE by {
                assert forall|a: int|
                    0 <= a < fin_h.len() implies (#[trigger] fin_h[a]) as int <= maxh as int by {
                    let j = choose|j: int|
                        0 <= j < pushed_heights.len() && (#[trigger] fin_h[a]) == pushed_heights[j]
                            && fin_n[a] == pushed_nodes[j];
                    lemma_seq_max_le(pushed_heights, j);
                }
                lemma_seq_max_upper(fin_h, maxh as int);
                assert(fin_h[i] == kept_heights[i + d]);
                assert(fin_h[i] as int > floor_int);
            }
            // the acceptance condition held, and the new node carries the hash
            assert(accepts(orig_nodes, orig_heights, block@));
            assert(fin_n[fin_n.len() - 1].0@.hash == block@.hash);
            assert(has_hash(fin_n, block@.hash));
            // the stated final shape
            assert(node_views(pushed_nodes) =~= node_views(orig_nodes).push(
                (block@, credited_pool(orig_nodes[pidx as int].1@, block@)),
            ));
            lemma_retain_above_views(pushed_nodes, pushed_heights, floor_int);
            assert(node_views(fin_n) =~= node_views(kept_nodes).skip(d));
            assert(fin_h =~= kept_heights.skip(d));
        }
        true
    }

    /// Drops every node whose height does not lie above the floor. The exec
    /// floor saturates at zero; with heights at least one, that decides the
    /// same keeps as the possibly negative mathematical floor.
    fn evict_below(&mut self, floor: u64, Ghost(floor_int): Ghost<int>)
        requires
            old(self).spec_chain().len() == old(self).spec_heights().len(),
            floor as int == floor_int || (floor == 0 && floor_int < 0),
            forall|i: int|
                0 <= i < old(self).spec_heights().len() ==> 1 <= (#[trigger] old(
                    self,
                ).spec_heights()[i]),
        ensures
            final(self).spec_chain() == retain_above(
                old(self).spec_chain(),
                old(self).spec_heights(),
                floor_int,
            ).0,
            final(self).spec_heights() == retain_above(
                old(self).spec_chain(),
                old(self).spec_heights(),
                floor_int,
            ).1,
            final(self).spec_chain().len() == final(self).spec_heights().len(),
            final(self).spec_mempool() == old(self).spec_mempool(),
    {
        let ghost on = self.spec_chain();
        let ghost oh = self.spec_heights();
        let mut i: usize = 0;
        let ghost mut j: int = 0;
        proof {
            assert(on.take(0) =~= Seq::<BlockNode>::empty());
            assert(oh.take(0) =~= Seq::<u64>::empty());
            assert(on.skip(0) =~= on);
            assert(oh.skip(0) =~= oh);
        }
        while i < self.chain.len()
            invariant
                0 <= j <= on.len(),
                on.len() == oh.len(),
                self.chain@.len() == self.levels@.len(),
                i == retain_above(on.take(j), oh.take(j), floor_int).0.len(),
                self.chain@ == retain_above(on.take(j), oh.take(j), floor_int).0 + on.skip(j),
                self.levels@ == retain_above(on.take(j), oh.take(j), floor_int).1 + oh.skip(j),
                floor as int == floor_int || (floor == 0 && floor_int < 0),
                forall|k: int| 0 <= k < oh.len() ==> 1 <= (#[trigger] oh[k]),
                self.mempool == old(self).spec_mempool(),
            decreases self.chain@.len() - i,
        {
            proof {
                lemma_retain_above_heights(on.take(j), oh.take(j), floor_int);
                assert(self.chain@[i as int] == on.skip(j)[0]);
                assert(self.levels@[i as int] == oh.skip(j)[0]);
                assert(on.skip(j)[0] == on[j]);
                assert(oh.skip(j)[0] == oh[j]);
                assert(on.take(j + 1).drop_last() =~= on.take(j));
                assert(oh.take(j + 1).drop_last() =~= oh.take(j));
                assert(on.take(j + 1).last() == on[j]);
                assert(oh.take(j + 1).last() == oh[j]);
            }
            let keep = self.levels[i] > floor;
            proof {
                assert(keep == (oh[j] as int > floor_int));
            }
            if keep {
                i += 1;
                proof {
                    assert(self.chain@ =~= retain_above(on.take(j + 1), oh.take(j + 1), floor_int).0
                        + on.skip(j + 1));
                    assert(self.levels@ =~= retain_above(
                        on.take(j + 1),
                        oh.take(j + 1),
                        floor_int,
                    ).1 + oh.skip(j + 1));
                }
            } else {
                self.chain.remove(i);
                self.levels.remove(i);
                proof {
                    assert(self.chain@ =~= retain_above(on.take(j + 1), oh.take(j + 1), floor_int).0
                        + on.skip(j + 1));
                    assert(self.levels@ =~= retain_above(
                        on.take(j + 1),
                        oh.take(j + 1),
                        floor_int,
                    ).1 + oh.skip(j + 1));
                }
            }
            proof {
                j = j + 1;
            }
        }
        proof {
            assert(j == on.len());
            assert(on.take(j) =~= on);
            assert(oh.take(j) =~= oh);
            assert(on.skip(j) =~= Seq::<BlockNode>::empty());
            assert(oh.skip(j) =~= Seq::<u64>::empty());
            lemma_retain_above_heights(on, oh, floor_int);
            assert(final(self).spec_chain() =~= retain_above(on, oh, floor_int).0);
            assert(final(self).spec_heights() =~= retain_above(on, oh, floor_int).1);
        }
    }

    /// The maximum height over the retained nodes.
    fn max_level(&self) -> (r: u64)
        requires
            self.spec_heights().len() >= 1,
        ensures
            r as int == seq_max(self.spec_heights()),
    {
        let mut best: u64 = 0;
        let mut i: usize = 0;
        while i < self.levels.len()
            invariant
                i <= self.levels.len(),
                best as int == seq_max(self.spec_heights().take(i as int)),
            decreases self.levels.len() - i,
        {
            proof {
                assert(self.spec_heights().take(i + 1).drop_last() =~= self.spec_heights().take(
                    i as int,
                ));
                assert(self.spec_heights().take(i + 1).last() == self.spec_heights()[i as int]);
            }
            if self.levels[i] > best {
                best = self.levels[i];
            }
            i += 1;
        }
        proof {
            assert(self.spec_heights().take(self.spec_heights().len() as int)
                =~= self.spec_heights());
        }
        best
    }
}

/// Removing the first `k+1` included hashes is one more pointwise removal.
proof fn lemma_remove_hashes_step(m: Map<Seq<u8>, TxModel>, txs: Seq<TxModel>, k: int)
    requires
        0 <= k < txs.len(),
    ensures
        remove_hashes(m, txs.take(k + 1)) == remove_hashes(m, txs.take(k)).remove(txs[k].hash),
{
    assert(txs.take(k + 1).drop_last() =~= txs.take(k));
    assert(txs.take(k + 1).last() == txs[k]);
}

/// Pushing an element moves the maximum to it when larger.
proof fn lemma_seq_max_push(s: Seq<u64>, v: u64)
    ensures
        seq_max(s.push(v)) == if v as int > seq_max(s) {
            v as int
        } else {
            seq_max(s)
        },
{
    assert(s.push(v).drop_last() =~= s);
}

} // verus!
