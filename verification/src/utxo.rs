//! Unspent transaction outputs and the pool that tracks them.
//!
//! The pool is a keyed collection from `(source tx hash, output index)` to the
//! output record; its mathematical view is a `Map`, and an invariant keeps the
//! stored keys unique.

use vstd::prelude::*;

use crate::assoc::{assoc_keys_unique, assoc_map, lemma_assoc_map_contains, lemma_assoc_map_get, lemma_assoc_map_remove, lemma_assoc_map_update};
use crate::bytes::digest_eq;
use crate::key::{VerifierKey, VerifierKeyModel};
use crate::tx::{Output, OutputModel};

verus! {

/// The mathematical content of a UTXO key.
#[verifier::ext_equal]
pub struct UTXOModel {
    pub tx_hash: Seq<u8>,
    pub output_idx: u8,
}

/// A spendable output's identity: the hash of the transaction that produced
/// it and the index of the output within that transaction.
#[derive(Clone, Copy)]
pub struct UTXO {
    tx_hash: [u8; 32],
    output_idx: u8,
}

impl View for UTXO {
    type V = UTXOModel;

    closed spec fn view(&self) -> UTXOModel {
        UTXOModel { tx_hash: self.tx_hash@, output_idx: self.output_idx }
    }
}

impl UTXO {
    /// A key for output `output_idx` of the transaction with hash `tx_hash`.
    pub fn new(tx_hash: [u8; 32], output_idx: u8) -> (r: Self)
        ensures
            r@ == (UTXOModel { tx_hash: tx_hash@, output_idx }),
    {
        UTXO { tx_hash, output_idx }
    }

    /// The hash of the producing transaction.
    pub fn tx_hash(&self) -> (r: [u8; 32])
        ensures
            r@ == self@.tx_hash,
    {
        self.tx_hash
    }

    /// The index of the output within the producing transaction.
    pub fn output_idx(&self) -> (r: u8)
        ensures
            r == self@.output_idx,
    {
        self.output_idx
    }

    /// Whether two keys name the same output.
    pub fn key_eq(&self, other: &UTXO) -> (r: bool)
        ensures
            r == (self@ == other@),
    {
        let r = digest_eq(&self.tx_hash, &other.tx_hash) && self.output_idx == other.output_idx;
        proof {
            if self@.tx_hash == other@.tx_hash && self@.output_idx == other@.output_idx {
                assert(self@ =~= other@);
            }
        }
        r
    }
}

/// The outputs of the entries locked to `key`, in entry order.
pub open spec fn outputs_of_key(s: Seq<(UTXOModel, OutputModel)>, key: VerifierKeyModel) -> Seq<
    OutputModel,
>
    decreases s.len(),
{
    if s.len() == 0 {
        Seq::empty()
    } else {
        let rest = outputs_of_key(s.drop_last(), key);
        if s.last().1.verifying_key == key {
            rest.push(s.last().1)
        } else {
            rest
        }
    }
}

/// The total value of a sequence of outputs.
pub open spec fn sum_values(os: Seq<OutputModel>) -> int
    decreases os.len(),
{
    if os.len() == 0 {
        0
    } else {
        sum_values(os.drop_last()) + os.last().value
    }
}

/// A sum of output values is bounded by the count times the largest value.
pub proof fn lemma_sum_values_bound(os: Seq<OutputModel>)
    ensures
        0 <= sum_values(os) <= os.len() * (u32::MAX as int),
    decreases os.len(),
{
    if os.len() > 0 {
        lemma_sum_values_bound(os.drop_last());
        assert((os.len() - 1) * (u32::MAX as int) + (u32::MAX as int) == os.len() * (
        u32::MAX as int)) by (nonlinear_arith);
    }
}

/// Filtering by key never yields more entries than exist.
pub proof fn lemma_outputs_of_key_len(s: Seq<(UTXOModel, OutputModel)>, key: VerifierKeyModel)
    ensures
        outputs_of_key(s, key).len() <= s.len(),
    decreases s.len(),
{
    if s.len() > 0 {
        lemma_outputs_of_key_len(s.drop_last(), key);
    }
}

/// The pool of unspent outputs: a keyed collection with unique keys.
pub struct UTXOPool {
    utxos: Vec<(UTXO, Output)>,
}

impl View for UTXOPool {
    type V = Map<UTXOModel, OutputModel>;

    closed spec fn view(&self) -> Map<UTXOModel, OutputModel> {
        assoc_map(self.entries())
    }
}

impl UTXOPool {
    /// The stored entries, in insertion order.
    pub closed spec fn entries(&self) -> Seq<(UTXOModel, OutputModel)> {
        self.utxos@.map_values(|p: (UTXO, Output)| (p.0@, p.1@))
    }

    /// Well-formed: no key is stored twice.
    pub open spec fn wf(&self) -> bool {
        assoc_keys_unique(self.entries())
    }

    /// An empty pool.
    pub fn new() -> (r: Self)
        ensures
            r@ == Map::<UTXOModel, OutputModel>::empty(),
            r.wf(),
            r.entries().len() == 0,
    {
        let r = UTXOPool { utxos: Vec::new() };
        proof {
            assert(r.entries() =~= Seq::<(UTXOModel, OutputModel)>::empty());
        }
        r
    }

    /// The index of the entry holding `utxo`, if any; the pool never holds it
    /// twice when well-formed.
    fn find_idx(&self, utxo: &UTXO) -> (r: Option<usize>)
        ensures
            match r {
                Some(i) => i < self.entries().len() && self.entries()[i as int].0 == utxo@,
                None => forall|j: int|
                    0 <= j < self.entries().len() ==> (#[trigger] self.entries()[j]).0 != utxo@,
            },
    {
        let mut i: usize = 0;
        while i < self.utxos.len()
            invariant
                i <= self.utxos.len(),
                forall|j: int| 0 <= j < i ==> (#[trigger] self.entries()[j]).0 != utxo@,
            decreases self.utxos.len() - i,
        {
            if self.utxos[i].0.key_eq(utxo) {
                proof {
                    assert(self.entries()[i as int].0 == self.utxos@[i as int].0@);
                }
                return Some(i);
            }
            proof {
                assert(self.entries()[i as int].0 == self.utxos@[i as int].0@);
            }
            i += 1;
        }
        None
    }

    /// Stores `output` under `utxo`, replacing any record already there.
    pub fn add_utxo(&mut self, utxo: UTXO, output: &Output)
        requires
            old(self).wf(),
        ensures
            final(self).wf(),
            final(self)@ == old(self)@.insert(utxo@, output@),
            final(self).entries().len() <= old(self).entries().len() + 1,
    {
        let ghost s = self.entries();
        match self.find_idx(&utxo) {
            Some(i) => {
                self.utxos.set(i, (utxo, output.clone()));
                proof {
                    assert(self.entries() =~= s.update(i as int, (s[i as int].0, output@)));
                    lemma_assoc_map_update(s, i as int, output@);
                    assert forall|a: int, b: int|
                        0 <= a < b < self.entries().len() implies (#[trigger] self.entries()[a]).0
                        != (#[trigger] self.entries()[b]).0 by {
                        assert(s[a].0 == self.entries()[a].0 || a == i);
                        assert(s[b].0 == self.entries()[b].0 || b == i);
                    }
                }
            },
            None => {
                self.utxos.push((utxo, output.clone()));
                proof {
                    assert(self.entries() =~= s.push((utxo@, output@)));
                    assert(self.entries().drop_last() =~= s);
                    assert forall|a: int, b: int|
                        0 <= a < b < self.entries().len() implies (#[trigger] self.entries()[a]).0
                        != (#[trigger] self.entries()[b]).0 by {
                        if b == s.len() {
                            assert(self.entries()[a].0 == s[a].0);
                        }
                    }
                }
            },
        }
    }

    /// Drops the record under `utxo`, if any.
    pub fn remove_utxo(&mut self, utxo: &UTXO)
        requires
            old(self).wf(),
        ensures
            final(self).wf(),
            final(self)@ == old(self)@.remove(utxo@),
            final(self).entries().len() <= old(self).entries().len(),
    {
        let ghost s = self.entries();
        match self.find_idx(utxo) {
            Some(i) => {
                self.utxos.remove(i);
                proof {
                    assert(self.entries() =~= s.remove(i as int));
                    lemma_assoc_map_remove(s, i as int);
                    assert forall|a: int, b: int|
                        0 <= a < b < self.entries().len() implies (#[trigger] self.entries()[a]).0
                        != (#[trigger] self.entries()[b]).0 by {
                        let a0: int = if a < i { a } else { a + 1 };
                        let b0: int = if b < i { b } else { b + 1 };
                        assert(self.entries()[a].0 == s[a0].0);
                        assert(self.entries()[b].0 == s[b0].0);
                    }
                }
            },
            None => {
                proof {
                    lemma_assoc_map_contains(s, utxo@);
                    assert(final(self)@ =~= old(self)@.remove(utxo@));
                }
            },
        }
    }

    /// The output stored under `utxo`, if any.
    pub fn utxo_output(&self, utxo: &UTXO) -> (r: Option<&Output>)
        requires
            self.wf(),
        ensures
            match r {
                Some(o) => self@.contains_key(utxo@) && o@ == self@[utxo@],
                None => !self@.contains_key(utxo@),
            },
    {
        match self.find_idx(utxo) {
            Some(i) => {
                proof {
                    lemma_assoc_map_get(self.entries(), i as int);
                    assert(self.entries()[i as int].1 == self.utxos@[i as int].1@);
                }
                Some(&self.utxos[i].1)
            },
            None => {
                proof {
                    lemma_assoc_map_contains(self.entries(), utxo@);
                }
                None
            },
        }
    }

    /// Whether the pool holds a record under `utxo`.
    pub fn contains(&self, utxo: &UTXO) -> (r: bool)
        ensures
            r == self@.contains_key(utxo@),
    {
        proof {
            lemma_assoc_map_contains(self.entries(), utxo@);
        }
        match self.find_idx(utxo) {
            Some(_) => true,
            None => false,
        }
    }

    /// Every stored output locked to `pub_key`, in storage order.
    pub fn utxos_of(&self, pub_key: &VerifierKey) -> (r: Vec<&Output>)
        ensures
            r@.map_values(|o: &Output| o@) == outputs_of_key(self.entries(), pub_key@),
    {
        let ghost s = self.entries();
        let mut r: Vec<&Output> = Vec::new();
        let mut i: usize = 0;
        while i < self.utxos.len()
            invariant
                i <= self.utxos.len(),
                s == self.entries(),
                r@.map_values(|o: &Output| o@) == outputs_of_key(s.take(i as int), pub_key@),
            decreases self.utxos.len() - i,
        {
            proof {
                assert(s.take(i + 1).drop_last() =~= s.take(i as int));
                assert(s.take(i + 1).last() == s[i as int]);
                assert(s[i as int].1 == self.utxos@[i as int].1@);
            }
            if self.utxos[i].1.verifying_key().key_eq(pub_key) {
                r.push(&self.utxos[i].1);
                proof {
                    assert(r@.map_values(|o: &Output| o@) =~= outputs_of_key(
                        s.take(i + 1),
                        pub_key@,
                    ));
                }
            }
            i += 1;
        }
        proof {
            assert(s.take(s.len() as int) =~= s);
        }
        r
    }
}

impl Clone for UTXOPool {
    /// A deep copy: the clone's records are its own, and its view is equal.
    fn clone(&self) -> (r: Self)
        ensures
            r@ == self@,
            r.entries() == self.entries(),
            r.wf() == self.wf(),
    {
        let mut utxos: Vec<(UTXO, Output)> = Vec::new();
        let mut i: usize = 0;
        while i < self.utxos.len()
            invariant
                i <= self.utxos.len(),
                utxos@.len() == i,
                forall|k: int|
                    0 <= k < i ==> (#[trigger] utxos@[k]).0@ == self.utxos@[k].0@ && utxos@[k].1@
                        == self.utxos@[k].1@,
            decreases self.utxos.len() - i,
        {
            utxos.push((self.utxos[i].0, self.utxos[i].1.clone()));
            i += 1;
        }
        let r = UTXOPool { utxos };
        proof {
            assert(r.entries() =~= self.entries());
        }
        r
    }
}

} // verus!
