//! The mempool: pending transactions keyed by hash, in submission order.

use vstd::prelude::*;

use crate::assoc::{
    assoc_keys_unique, assoc_map, lemma_assoc_map_contains, lemma_assoc_map_get,
    lemma_assoc_map_remove, lemma_assoc_map_update,
};
use crate::bytes::digest_eq;
use crate::tx::{Tx, TxModel};

verus! {

/// Pending transactions, keyed by their hash. No validation happens on
/// entry; everything is deferred to block assembly.
pub struct TxPool {
    txs: Vec<([u8; 32], Tx)>,
}

impl View for TxPool {
    type V = Map<Seq<u8>, TxModel>;

    closed spec fn view(&self) -> Map<Seq<u8>, TxModel> {
        assoc_map(self.entries())
    }
}

impl TxPool {
    /// The stored entries, in insertion order.
    pub closed spec fn entries(&self) -> Seq<(Seq<u8>, TxModel)> {
        self.txs@.map_values(|p: ([u8; 32], Tx)| (p.0@, p.1@))
    }

    /// The stored transactions, in insertion order.
    pub open spec fn values(&self) -> Seq<TxModel> {
        self.entries().map_values(|p: (Seq<u8>, TxModel)| p.1)
    }

    /// Well-formed: keys are unique, and each is its transaction's hash.
    pub open spec fn wf(&self) -> bool {
        &&& assoc_keys_unique(self.entries())
        &&& forall|i: int|
            0 <= i < self.entries().len() ==> (#[trigger] self.entries()[i]).0
                == self.entries()[i].1.hash
    }

    /// An empty pool.
    pub fn new() -> (r: Self)
        ensures
            r@ == Map::<Seq<u8>, TxModel>::empty(),
            r.wf(),
            r.values().len() == 0,
    {
        let r = TxPool { txs: Vec::new() };
        proof {
            assert(r.entries() =~= Seq::<(Seq<u8>, TxModel)>::empty());
        }
        r
    }

    /// The index of the entry with the given hash, if any.
    fn find_idx(&self, hash: &[u8; 32]) -> (r: Option<usize>)
        ensures
            match r {
                Some(i) => i < self.entries().len() && self.entries()[i as int].0 == hash@,
                None => forall|j: int|
                    0 <= j < self.entries().len() ==> (#[trigger] self.entries()[j]).0 != hash@,
            },
    {
        let mut i: usize = 0;
        while i < self.txs.len()
            invariant
                i <= self.txs.len(),
                forall|j: int| 0 <= j < i ==> (#[trigger] self.entries()[j]).0 != hash@,
            decreases self.txs.len() - i,
        {
            proof {
                assert(self.entries()[i as int].0 == self.txs@[i as int].0@);
            }
            if digest_eq(&self.txs[i].0, hash) {
                return Some(i);
            }
            i += 1;
        }
        None
    }

    /// The stored transactions, in insertion order.
    pub fn txs(&self) -> (r: Vec<&Tx>)
        ensures
            r@.map_values(|t: &Tx| t@) == self.values(),
    {
        let mut r: Vec<&Tx> = Vec::new();
        let mut i: usize = 0;
        while i < self.txs.len()
            invariant
                i <= self.txs.len(),
                r@.map_values(|t: &Tx| t@) == self.values().take(i as int),
            decreases self.txs.len() - i,
        {
            let ghost rp = r@;
            r.push(&self.txs[i].1);
            proof {
                assert(self.values()[i as int] == self.txs@[i as int].1@);
                assert(r@.map_values(|t: &Tx| t@) =~= rp.map_values(|t: &Tx| t@).push(
                    self.txs@[i as int].1@,
                ));
                assert(r@.map_values(|t: &Tx| t@) =~= self.values().take(i + 1));
            }
            i += 1;
        }
        proof {
            assert(self.values().take(self.values().len() as int) =~= self.values());
        }
        r
    }

    /// The transaction stored under `hash`, if any.
    pub fn tx(&self, hash: [u8; 32]) -> (r: Option<&Tx>)
        requires
            self.wf(),
        ensures
            match r {
                Some(t) => self@.contains_key(hash@) && t@ == self@[hash@],
                None => !self@.contains_key(hash@),
            },
    {
        match self.find_idx(&hash) {
            Some(i) => {
                proof {
                    lemma_assoc_map_get(self.entries(), i as int);
                    assert(self.entries()[i as int].1 == self.txs@[i as int].1@);
                }
                Some(&self.txs[i].1)
            },
            None => {
                proof {
                    lemma_assoc_map_contains(self.entries(), hash@);
                }
                None
            },
        }
    }

    /// Stores `tx` under its hash, replacing any transaction already there.
    pub fn add(&mut self, tx: Tx)
        requires
            old(self).wf(),
        ensures
            final(self).wf(),
            final(self)@ == old(self)@.insert(tx@.hash, tx@),
            !old(self)@.contains_key(tx@.hash) ==> final(self).entries() == old(self).entries().push((tx@.hash, tx@)),
    {
        let ghost s = self.entries();
        let hash = tx.hash();
        match self.find_idx(&hash) {
            Some(i) => {
                self.txs.set(i, (hash, tx));
                proof {
                    assert(self.entries() =~= s.update(i as int, (s[i as int].0, self.txs@[i as int].1@)));
                    lemma_assoc_map_update(s, i as int, self.txs@[i as int].1@);
                    lemma_assoc_map_contains(s, hash@);
                    assert forall|a: int, b: int|
                        0 <= a < b < self.entries().len() implies (#[trigger] self.entries()[a]).0
                        != (#[trigger] self.entries()[b]).0 by {
                        assert(s[a].0 == self.entries()[a].0 || a == i);
                        assert(s[b].0 == self.entries()[b].0 || b == i);
                    }
                }
            },
            None => {
                self.txs.push((hash, tx));
                proof {
                    assert(self.entries() =~= s.push((hash@, self.txs@.last().1@)));
                    assert(self.entries().drop_last() =~= s);
                    lemma_assoc_map_contains(s, hash@);
                    assert forall|a: int, b: int|
                        0 <= a < b < self.entries().len() implies (#[trigger] self.entries()[a]).0
                        != (#[trigger] self.entries()[b]).0 by {
                        if b == s.len() {
                            assert(self.entries()[a].0 == s[a].0);
                        }
                    }
                }
            },
        }
    }

    /// Drops the transaction stored under `hash`, if any.
    pub fn remove(&mut self, hash: [u8; 32])
        requires
            old(self).wf(),
        ensures
            final(self).wf(),
            final(self)@ == old(self)@.remove(hash@),
    {
        let ghost s = self.entries();
        match self.find_idx(&hash) {
            Some(i) => {
                self.txs.remove(i);
                proof {
                    assert(self.entries() =~= s.remove(i as int));
                    lemma_assoc_map_remove(s, i as int);
                    assert forall|a: int, b: int|
                        0 <= a < b < self.entries().len() implies (#[trigger] self.entries()[a]).0
                        != (#[trigger] self.entries()[b]).0 by {
                        let a0: int = if a < i { a } else { a + 1 };
                        let b0: int = if b < i { b } else { b + 1 };
                        assert(self.entries()[a] == s[a0]);
                        assert(self.entries()[b] == s[b0]);
                    }
                    assert forall|a: int|
                        0 <= a < self.entries().len() implies (#[trigger] self.entries()[a]).0
                        == self.entries()[a].1.hash by {
                        let a0: int = if a < i { a } else { a + 1 };
                        assert(self.entries()[a] == s[a0]);
                    }
                }
            },
            None => {
                proof {
                    lemma_assoc_map_contains(s, hash@);
                    assert(final(self)@ =~= old(self)@.remove(hash@));
                }
            },
        }
    }
}

} // verus!
