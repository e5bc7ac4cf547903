//! The pool of unspent multi-signature outputs.
//!
//! Keys are shared with the single-signature coin: a UTXO is identified by
//! the producing transaction's hash and the output index either way. The
//! stored payload is this module's threshold output record.

use vstd::prelude::*;

pub use crate::utxo::{UTXO, UTXOModel};

use crate::assoc::{
    assoc_keys_unique, assoc_map, lemma_assoc_map_contains, lemma_assoc_map_get,
    lemma_assoc_map_remove, lemma_assoc_map_update,
};
use crate::multisig::tx::{Output, OutputModel};

verus! {

/// The pool of unspent outputs: a keyed collection with unique keys.
pub struct UTXOPool {
    utxos: Vec<(UTXO, Output)>,
}

impl View for UTXOPool {
    type V = Map<UTXOModel, OutputModel>;

    closed spec fn view(&self) -> Map<UTXOModel, OutputModel> {
        assoc_map(self.entries())
    }
}

impl UTXOPool {
    /// The stored entries, in insertion order.
    pub closed spec fn entries(&self) -> Seq<(UTXOModel, OutputModel)> {
        self.utxos@.map_values(|p: (UTXO, Output)| (p.0@, p.1@))
    }

    /// Well-formed: no key is stored twice.
    pub open spec fn wf(&self) -> bool {
        assoc_keys_unique(self.entries())
    }

    /// An empty pool.
    pub fn new() -> (r: Self)
        ensures
            r@ == Map::<UTXOModel, OutputModel>::empty(),
            r.wf(),
            r.entries().len() == 0,
    {
        let r = UTXOPool { utxos: Vec::new() };
        proof {
            assert(r.entries() =~= Seq::<(UTXOModel, OutputModel)>::empty());
        }
        r
    }

    /// The index of the entry holding `utxo`, if any.
    fn find_idx(&self, utxo: &UTXO) -> (r: Option<usize>)
        ensures
            match r {
                Some(i) => i < self.entries().len() && self.entries()[i as int].0 == utxo@,
                None => forall|j: int|
                    0 <= j < self.entries().len() ==> (#[trigger] self.entries()[j]).0 != utxo@,
            },
    {
        let mut i: usize = 0;
        while i < self.utxos.len()
            invariant
                i <= self.utxos.len(),
                forall|j: int| 0 <= j < i ==> (#[trigger] self.entries()[j]).0 != utxo@,
            decreases self.utxos.len() - i,
        {
            if self.utxos[i].0.key_eq(utxo) {
                proof {
                    assert(self.entries()[i as int].0 == self.utxos@[i as int].0@);
                }
                return Some(i);
            }
            proof {
                assert(self.entries()[i as int].0 == self.utxos@[i as int].0@);
            }
            i += 1;
        }
        None
    }

    /// Stores `output` under `utxo`, replacing any record already there.
    pub fn add_utxo(&mut self, utxo: UTXO, output: &Output)
        requires
            old(self).wf(),
        ensures
            final(self).wf(),
            final(self)@ == old(self)@.insert(utxo@, output@),
    {
        let ghost s = self.entries();
        match self.find_idx(&utxo) {
            Some(i) => {
                self.utxos.set(i, (utxo, output.clone()));
                proof {
                    assert(self.entries() =~= s.update(i as int, (s[i as int].0, output@)));
                    lemma_assoc_map_update(s, i as int, output@);
                    assert forall|a: int, b: int|
                        0 <= a < b < self.entries().len() implies (#[trigger] self.entries()[a]).0
                        != (#[trigger] self.entries()[b]).0 by {
                        assert(s[a].0 == self.entries()[a].0 || a == i);
                        assert(s[b].0 == self.entries()[b].0 || b == i);
                    }
                }
            },
            None => {
                self.utxos.push((utxo, output.clone()));
                proof {
                    assert(self.entries() =~= s.push((utxo@, output@)));
                    assert(self.entries().drop_last() =~= s);
                    assert forall|a: int, b: int|
                        0 <= a < b < self.entries().len() implies (#[trigger] self.entries()[a]).0
                        != (#[trigger] self.entries()[b]).0 by {
                        if b == s.len() {
                            assert(self.entries()[a].0 == s[a].0);
                        }
                    }
                }
            },
        }
    }

    /// Drops the record under `utxo`, if any.
    pub fn remove_utxo(&mut self, utxo: &UTXO)
        requires
            old(self).wf(),
        ensures
            final(self).wf(),
            final(self)@ == old(self)@.remove(utxo@),
    {
        let ghost s = self.entries();
        match self.find_idx(utxo) {
            Some(i) => {
                self.utxos.remove(i);
                proof {
                    assert(self.entries() =~= s.remove(i as int));
                    lemma_assoc_map_remove(s, i as int);
                    assert forall|a: int, b: int|
                        0 <= a < b < self.entries().len() implies (#[trigger] self.entries()[a]).0
                        != (#[trigger] self.entries()[b]).0 by {
                        let a0: int = if a < i { a } else { a + 1 };
                        let b0: int = if b < i { b } else { b + 1 };
                        assert(self.entries()[a].0 == s[a0].0);
                        assert(self.entries()[b].0 == s[b0].0);
                    }
                }
            },
            None => {
                proof {
                    lemma_assoc_map_contains(s, utxo@);
                    assert(final(self)@ =~= old(self)@.remove(utxo@));
                }
            },
        }
    }

    /// The output stored under `utxo`, if any.
    pub fn utxo_output(&self, utxo: &UTXO) -> (r: Option<&Output>)
        requires
            self.wf(),
        ensures
            match r {
                Some(o) => self@.contains_key(utxo@) && o@ == self@[utxo@],
                None => !self@.contains_key(utxo@),
            },
    {
        match self.find_idx(utxo) {
            Some(i) => {
                proof {
                    lemma_assoc_map_get(self.entries(), i as int);
                    assert(self.entries()[i as int].1 == self.utxos@[i as int].1@);
                }
                Some(&self.utxos[i].1)
            },
            None => {
                proof {
                    lemma_assoc_map_contains(self.entries(), utxo@);
                }
                None
            },
        }
    }

    /// Whether the pool holds a record under `utxo`.
    pub fn contains(&self, utxo: &UTXO) -> (r: bool)
        ensures
            r == self@.contains_key(utxo@),
    {
        proof {
            lemma_assoc_map_contains(self.entries(), utxo@);
        }
        match self.find_idx(utxo) {
            Some(_) => true,
            None => false,
        }
    }
}

impl Clone for UTXOPool {
    /// A deep copy: the clone's records are its own, and its view is equal.
    fn clone(&self) -> (r: Self)
        ensures
            r@ == self@,
            r.entries() == self.entries(),
            r.wf() == self.wf(),
    {
        let mut utxos: Vec<(UTXO, Output)> = Vec::new();
        let mut i: usize = 0;
        while i < self.utxos.len()
            invariant
                i <= self.utxos.len(),
                utxos@.len() == i,
                forall|k: int|
                    0 <= k < i ==> (#[trigger] utxos@[k]).0@ == self.utxos@[k].0@ && utxos@[k].1@
                        == self.utxos@[k].1@,
            decreases self.utxos.len() - i,
        {
            utxos.push((self.utxos[i].0, self.utxos[i].1.clone()));
            i += 1;
        }
        let r = UTXOPool { utxos };
        proof {
            assert(r.entries() =~= self.entries());
        }
        r
    }
}

} // verus!
