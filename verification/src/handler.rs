//! Transaction validation and dependency-aware batch handling.
//!
//! A batch of candidate transactions is applied in waves: transactions whose
//! inputs all resolve in the current pool are validated and applied in order;
//! transactions that reference another transaction of the batch wait for the
//! next wave; everything else is dropped. The loop stops when a wave leaves
//! no dependent transactions or makes no progress.

use vstd::prelude::*;

use crate::bytes::digest_eq;
use crate::crypto::{rsa_verify, rsa_verify_spec};
use crate::key::VerifierKey;
use crate::tx::{one_input_bytes, raw_tx_from_one_input, Input, InputModel, OutputModel, Tx, TxModel};
use crate::utxo::{
    lemma_outputs_of_key_len, lemma_sum_values_bound, outputs_of_key,
    sum_values, UTXOModel, UTXO, UTXOPool,
};

verus! {

/// The UTXO a given input spends.
pub open spec fn input_key(i: InputModel) -> UTXOModel {
    UTXOModel { tx_hash: i.output_tx_hash, output_idx: i.output_idx }
}

/// Every input of `tx` refers to a key present in the pool.
pub open spec fn inputs_resolve(tx: TxModel, m: Map<UTXOModel, OutputModel>) -> bool {
    forall|i: int|
        0 <= i < tx.inputs.len() ==> m.contains_key(input_key(#[trigger] tx.inputs[i]))
}

/// No UTXO is spent twice within the same transaction.
pub open spec fn inputs_distinct(tx: TxModel) -> bool {
    forall|i: int, j: int|
        0 <= i < j < tx.inputs.len() ==> input_key(#[trigger] tx.inputs[i]) != input_key(
            #[trigger] tx.inputs[j],
        )
}

/// Input `i` of `tx` carries a signature that verifies, under the key of the
/// output it spends, over the per-input signing preimage.
pub open spec fn input_sig_ok(tx: TxModel, i: int, o: OutputModel) -> bool {
    &&& tx.inputs[i].signature is Some
    &&& rsa_verify_spec(
        o.verifying_key.e,
        o.verifying_key.n,
        one_input_bytes(tx.inputs[i], tx.outputs),
        tx.inputs[i].signature->0,
    )
}

/// Every input's signature verifies under the key of the pool output it spends.
pub open spec fn sigs_ok(tx: TxModel, m: Map<UTXOModel, OutputModel>) -> bool {
    forall|i: int|
        0 <= i < tx.inputs.len() ==> input_sig_ok(tx, i, m[input_key(#[trigger] tx.inputs[i])])
}

/// The total pool value consumed by a sequence of inputs.
pub open spec fn in_sum(is: Seq<InputModel>, m: Map<UTXOModel, OutputModel>) -> int
    decreases is.len(),
{
    if is.len() == 0 {
        0
    } else {
        in_sum(is.drop_last(), m) + m[input_key(is.last())].value
    }
}

/// A prefix of inputs never sums to more than the whole.
pub proof fn lemma_in_sum_prefix(is: Seq<InputModel>, m: Map<UTXOModel, OutputModel>, k: int)
    requires
        0 <= k <= is.len(),
    ensures
        in_sum(is.take(k), m) <= in_sum(is, m),
        in_sum(is, m) >= 0,
    decreases is.len(),
{
    if is.len() > 0 {
        lemma_in_sum_prefix(is.drop_last(), m, if k < is.len() { k } else { k - 1 });
        if k < is.len() {
            assert(is.take(k) =~= is.drop_last().take(k));
        } else {
            assert(is.take(k) =~= is);
        }
    } else {
        assert(is.take(k) =~= is);
    }
}

/// A prefix of outputs never sums to more than the whole.
pub proof fn lemma_sum_values_prefix(os: Seq<OutputModel>, k: int)
    requires
        0 <= k <= os.len(),
    ensures
        sum_values(os.take(k)) <= sum_values(os),
        sum_values(os) >= 0,
    decreases os.len(),
{
    if os.len() > 0 {
        lemma_sum_values_prefix(os.drop_last(), if k < os.len() { k } else { k - 1 });
        if k < os.len() {
            assert(os.take(k) =~= os.drop_last().take(k));
        } else {
            assert(os.take(k) =~= os);
        }
    } else {
        assert(os.take(k) =~= os);
    }
}

/// The validity verdict on a transaction against a pool, exactly as the
/// validator decides it:
/// every input resolves, no intra-transaction double spend, every signature
/// verifies, both value sums fit 64 bits, the inputs cover the outputs, the
/// outputs are worth something, and every index stays in 8-bit range.
pub open spec fn tx_valid(tx: TxModel, m: Map<UTXOModel, OutputModel>) -> bool {
    &&& inputs_resolve(tx, m)
    &&& inputs_distinct(tx)
    &&& sigs_ok(tx, m)
    &&& tx.inputs.len() <= 256
    &&& tx.outputs.len() <= 256
    &&& in_sum(tx.inputs, m) <= u64::MAX
    &&& sum_values(tx.outputs) <= u64::MAX
    &&& sum_values(tx.outputs) <= in_sum(tx.inputs, m)
    &&& sum_values(tx.outputs) > 0
}

/// The pool after the spent keys of `is` are removed.
pub open spec fn remove_inputs(m: Map<UTXOModel, OutputModel>, is: Seq<InputModel>) -> Map<
    UTXOModel,
    OutputModel,
>
    decreases is.len(),
{
    if is.len() == 0 {
        m
    } else {
        remove_inputs(m.remove(input_key(is.first())), is.drop_first())
    }
}

/// The pool after outputs `j..` of a transaction with hash `hash` are added.
pub open spec fn add_outputs(
    m: Map<UTXOModel, OutputModel>,
    hash: Seq<u8>,
    os: Seq<OutputModel>,
    j: nat,
) -> Map<UTXOModel, OutputModel>
    decreases os.len() - j,
{
    if j >= os.len() {
        m
    } else {
        add_outputs(
            m.insert(UTXOModel { tx_hash: hash, output_idx: j as u8 }, os[j as int]),
            hash,
            os,
            j + 1,
        )
    }
}

/// The pool after a transaction is applied: its inputs leave, one key per
/// output enters under the transaction's own hash.
pub open spec fn apply_tx_spec(m: Map<UTXOModel, OutputModel>, tx: TxModel) -> Map<
    UTXOModel,
    OutputModel,
> {
    add_outputs(remove_inputs(m, tx.inputs), tx.hash, tx.outputs, 0)
}

/// The set of transaction hashes present in a batch.
pub open spec fn batch_hashes(txs: Seq<TxModel>) -> Set<Seq<u8>> {
    Set::new(|h: Seq<u8>| exists|i: int| 0 <= i < txs.len() && (#[trigger] txs[i]).hash == h)
}

/// Whether some input of `tx` references a transaction of the batch.
pub open spec fn refs_batch(tx: TxModel, hs: Set<Seq<u8>>) -> bool {
    exists|i: int| 0 <= i < tx.inputs.len() && hs.contains((#[trigger] tx.inputs[i]).output_tx_hash)
}

/// One wave over a batch: in order, an applicable transaction is validated
/// and applied, a batch-dependent one is kept for the next wave, the rest are
/// dropped. `acc` and `dep` accumulate across the recursion.
pub open spec fn wave_step(
    m: Map<UTXOModel, OutputModel>,
    hs: Set<Seq<u8>>,
    txs: Seq<TxModel>,
    acc: Seq<TxModel>,
    dep: Seq<TxModel>,
) -> (Seq<TxModel>, Seq<TxModel>, Map<UTXOModel, OutputModel>)
    decreases txs.len(),
{
    if txs.len() == 0 {
        (acc, dep, m)
    } else {
        let t = txs.first();
        let rest = txs.drop_first();
        if inputs_resolve(t, m) {
            if tx_valid(t, m) {
                wave_step(apply_tx_spec(m, t), hs, rest, acc.push(t), dep)
            } else {
                wave_step(m, hs, rest, acc, dep)
            }
        } else if refs_batch(t, hs) {
            wave_step(m, hs, rest, acc, dep.push(t))
        } else {
            wave_step(m, hs, rest, acc, dep)
        }
    }
}

/// A wave sorts each transaction into at most one of the two piles.
pub proof fn lemma_wave_step_len(
    m: Map<UTXOModel, OutputModel>,
    hs: Set<Seq<u8>>,
    txs: Seq<TxModel>,
    acc: Seq<TxModel>,
    dep: Seq<TxModel>,
)
    ensures
        wave_step(m, hs, txs, acc, dep).1.len() <= dep.len() + txs.len(),
    decreases txs.len(),
{
    if txs.len() > 0 {
        let t = txs.first();
        let rest = txs.drop_first();
        if inputs_resolve(t, m) {
            if tx_valid(t, m) {
                lemma_wave_step_len(apply_tx_spec(m, t), hs, rest, acc.push(t), dep);
            } else {
                lemma_wave_step_len(m, hs, rest, acc, dep);
            }
        } else if refs_batch(t, hs) {
            lemma_wave_step_len(m, hs, rest, acc, dep.push(t));
        } else {
            lemma_wave_step_len(m, hs, rest, acc, dep);
        }
    }
}

/// The fixed point of the wave loop: waves run until one leaves no dependent
/// transactions or admits nothing new; `acc` accumulates the accepted
/// transactions of earlier waves, in application order.
pub open spec fn waves(m: Map<UTXOModel, OutputModel>, txs: Seq<TxModel>, acc: Seq<TxModel>) -> (
    Seq<TxModel>,
    Map<UTXOModel, OutputModel>,
)
    decreases txs.len(),
{
    let r = wave_step(m, batch_hashes(txs), txs, acc, Seq::empty());
    if r.1.len() == 0 {
        (r.0, r.2)
    } else if r.1.len() < txs.len() {
        waves(r.2, r.1, r.0)
    } else {
        (r.0, r.2)
    }
}

/// Whether two UTXO key vectors hold a common entry is decided by scanning.
fn contains_key_vec(used: &Vec<UTXO>, utxo: &UTXO) -> (r: bool)
    ensures
        r == exists|j: int| 0 <= j < used@.len() && (#[trigger] used@[j])@ == utxo@,
{
    let mut j: usize = 0;
    while j < used.len()
        invariant
            j <= used.len(),
            forall|k: int| 0 <= k < j ==> (#[trigger] used@[k])@ != utxo@,
        decreases used.len() - j,
    {
        if used[j].key_eq(utxo) {
            return true;
        }
        j += 1;
    }
    false
}

/// Whether a batch hash list holds the given digest.
fn contains_hash(hashes: &Vec<[u8; 32]>, h: &[u8; 32]) -> (r: bool)
    ensures
        r == exists|j: int| 0 <= j < hashes@.len() && (#[trigger] hashes@[j])@ == h@,
{
    let mut j: usize = 0;
    while j < hashes.len()
        invariant
            j <= hashes.len(),
            forall|k: int| 0 <= k < j ==> (#[trigger] hashes@[k])@ != h@,
        decreases hashes.len() - j,
    {
        if digest_eq(&hashes[j], h) {
            return true;
        }
        j += 1;
    }
    false
}

/// The validator: decides `tx_valid` against the given pool.
pub fn is_tx_valid_in(pool: &UTXOPool, tx: &Tx) -> (r: bool)
    requires
        pool.wf(),
    ensures
        r == tx_valid(tx@, pool@),
{
    let inputs = tx.inputs();
    let outputs = tx.outputs();
    if inputs.len() > 256 || outputs.len() > 256 {
        return false;
    }
    let ghost txm = tx@;
    let ghost m = pool@;
    let mut used: Vec<UTXO> = Vec::new();
    let mut in_total: u64 = 0;
    let mut i: usize = 0;
    while i < inputs.len()
        invariant
            pool.wf(),
            m == pool@,
            txm == tx@,
            inputs@.map_values(|x: Input| x@) == txm.inputs,
            outputs@.map_values(|o: crate::tx::Output| o@) == txm.outputs,
            inputs.len() == txm.inputs.len(),
            txm.inputs.len() <= 256,
            txm.outputs.len() <= 256,
            i <= inputs.len(),
            used@.len() == i,
            forall|k: int| 0 <= k < i ==> (#[trigger] used@[k])@ == input_key(txm.inputs[k]),
            forall|k: int|
                0 <= k < i ==> m.contains_key(input_key(#[trigger] txm.inputs[k])),
            forall|k1: int, k2: int|
                0 <= k1 < k2 < i ==> input_key(#[trigger] txm.inputs[k1]) != input_key(
                    #[trigger] txm.inputs[k2],
                ),
            forall|k: int| 0 <= k < i ==> input_sig_ok(txm, k, m[input_key(#[trigger] txm.inputs[k])]),
            in_total == in_sum(txm.inputs.take(i as int), m),
        decreases inputs.len() - i,
    {
        let input = &inputs[i];
        proof {
            assert(input@ == txm.inputs[i as int]);
        }
        let utxo = UTXO::new(input.output_tx_hash(), input.output_idx());
        proof {
            assert(utxo@ =~= input_key(txm.inputs[i as int]));
        }
        if contains_key_vec(&used, &utxo) {
            proof {
                let j = choose|j: int| 0 <= j < used@.len() && (#[trigger] used@[j])@ == utxo@;
                assert(input_key(txm.inputs[j]) == input_key(txm.inputs[i as int]));
                assert(!inputs_distinct(txm));
            }
            return false;
        }
        let ghost used_prev = used@;
        used.push(utxo);
        proof {
            assert(used@[i as int]@ == input_key(txm.inputs[i as int]));
            assert forall|k: int|
                0 <= k < i implies input_key(#[trigger] txm.inputs[k]) != input_key(
                txm.inputs[i as int],
            ) by {
                assert(used_prev[k]@ == input_key(txm.inputs[k]));
            }
        }
        let output = match pool.utxo_output(&utxo) {
            Some(o) => o,
            None => {
                proof {
                    assert(!inputs_resolve(txm, m));
                }
                return false;
            },
        };
        let signature = match input.signature() {
            Some(s) => s,
            None => {
                proof {
                    assert(!input_sig_ok(txm, i as int, m[input_key(txm.inputs[i as int])]));
                    assert(!sigs_ok(txm, m));
                }
                return false;
            },
        };
        let raw = match raw_tx_from_one_input(inputs, outputs, i as u8) {
            Ok(raw) => raw,
            Err(_) => {
                return false;
            },
        };
        if !rsa_verify(output.verifying_key().e_bytes(), output.verifying_key().n_bytes(), &raw, signature) {
            proof {
                assert(!input_sig_ok(txm, i as int, m[input_key(txm.inputs[i as int])]));
                assert(!sigs_ok(txm, m));
            }
            return false;
        }
        let value = output.value();
        if in_total > u64::MAX - (value as u64) {
            proof {
                assert(txm.inputs.take(i + 1).drop_last() =~= txm.inputs.take(i as int));
                assert(txm.inputs.take(i + 1).last() == txm.inputs[i as int]);
                lemma_in_sum_prefix(txm.inputs, m, i + 1);
                assert(in_sum(txm.inputs, m) > u64::MAX);
            }
            return false;
        }
        in_total = in_total + (value as u64);
        proof {
            assert(txm.inputs.take(i + 1).drop_last() =~= txm.inputs.take(i as int));
            assert(txm.inputs.take(i + 1).last() == txm.inputs[i as int]);
        }
        i += 1;
    }
    proof {
        assert(txm.inputs.take(txm.inputs.len() as int) =~= txm.inputs);
        assert(inputs_resolve(txm, m));
        assert(inputs_distinct(txm));
        assert(sigs_ok(txm, m));
    }
    let mut out_total: u64 = 0;
    let mut j: usize = 0;
    while j < outputs.len()
        invariant
            txm == tx@,
            outputs@.map_values(|o: crate::tx::Output| o@) == txm.outputs,
            outputs.len() == txm.outputs.len(),
            j <= outputs.len(),
            out_total == sum_values(txm.outputs.take(j as int)),
        decreases outputs.len() - j,
    {
        let value = outputs[j].value();
        proof {
            assert(outputs@[j as int]@ == txm.outputs[j as int]);
            assert(txm.outputs.take(j + 1).drop_last() =~= txm.outputs.take(j as int));
            assert(txm.outputs.take(j + 1).last() == txm.outputs[j as int]);
        }
        if out_total > u64::MAX - (value as u64) {
            proof {
                lemma_sum_values_prefix(txm.outputs, j + 1);
                assert(sum_values(txm.outputs) > u64::MAX);
            }
            return false;
        }
        out_total = out_total + (value as u64);
        j += 1;
    }
    proof {
        assert(txm.outputs.take(txm.outputs.len() as int) =~= txm.outputs);
    }
    out_total > 0 && in_total >= out_total
}

/// Applies a transaction to the pool: spent keys leave, new outputs enter.
pub fn apply_tx_in(pool: &mut UTXOPool, tx: &Tx)
    requires
        old(pool).wf(),
        tx@.outputs.len() <= 256,
    ensures
        final(pool).wf(),
        final(pool)@ == apply_tx_spec(old(pool)@, tx@),
{
    let ghost txm = tx@;
    let ghost m0 = pool@;
    let inputs = tx.inputs();
    proof {
        assert(txm.inputs.skip(0) =~= txm.inputs);
    }
    let mut i: usize = 0;
    while i < inputs.len()
        invariant
            pool.wf(),
            txm == tx@,
            inputs@.map_values(|x: Input| x@) == txm.inputs,
            inputs.len() == txm.inputs.len(),
            i <= inputs.len(),
            remove_inputs(pool@, txm.inputs.skip(i as int)) == remove_inputs(m0, txm.inputs),
        decreases inputs.len() - i,
    {
        let input = &inputs[i];
        proof {
            assert(input@ == txm.inputs[i as int]);
        }
        let utxo = UTXO::new(input.output_tx_hash(), input.output_idx());
        proof {
            assert(utxo@ =~= input_key(txm.inputs[i as int]));
            assert(txm.inputs.skip(i as int).first() == txm.inputs[i as int]);
            assert(txm.inputs.skip(i as int).drop_first() =~= txm.inputs.skip(i + 1));
        }
        pool.remove_utxo(&utxo);
        i += 1;
    }
    proof {
        assert(txm.inputs.skip(txm.inputs.len() as int) =~= Seq::<InputModel>::empty());
        assert(pool@ == remove_inputs(m0, txm.inputs));
    }
    let ghost m1 = pool@;
    let outputs = tx.outputs();
    let hash = tx.hash();
    let mut j: usize = 0;
    while j < outputs.len()
        invariant
            pool.wf(),
            txm == tx@,
            hash@ == txm.hash,
            outputs@.map_values(|o: crate::tx::Output| o@) == txm.outputs,
            outputs.len() == txm.outputs.len(),
            txm.outputs.len() <= 256,
            j <= outputs.len(),
            add_outputs(pool@, txm.hash, txm.outputs, j as nat) == add_outputs(
                m1,
                txm.hash,
                txm.outputs,
                0,
            ),
        decreases outputs.len() - j,
    {
        let utxo = UTXO::new(hash, j as u8);
        proof {
            assert(outputs@[j as int]@ == txm.outputs[j as int]);
            assert(utxo@ =~= (UTXOModel { tx_hash: txm.hash, output_idx: j as u8 }));
        }
        pool.add_utxo(utxo, &outputs[j]);
        j += 1;
    }
}

/// Views of a sequence of transaction references.
pub open spec fn tx_views(ts: Seq<&Tx>) -> Seq<TxModel> {
    ts.map_values(|t: &Tx| t@)
}

/// Every input of `tx` resolves in the pool.
pub fn all_inputs_in(pool: &UTXOPool, tx: &Tx) -> (r: bool)
    ensures
        r == inputs_resolve(tx@, pool@),
{
    let inputs = tx.inputs();
    let mut i: usize = 0;
    while i < inputs.len()
        invariant
            i <= inputs.len(),
            inputs@.map_values(|x: Input| x@) == tx@.inputs,
            inputs.len() == tx@.inputs.len(),
            forall|k: int|
                0 <= k < i ==> pool@.contains_key(input_key(#[trigger] tx@.inputs[k])),
        decreases inputs.len() - i,
    {
        let input = &inputs[i];
        proof {
            assert(input@ == tx@.inputs[i as int]);
        }
        let utxo = UTXO::new(input.output_tx_hash(), input.output_idx());
        proof {
            assert(utxo@ =~= input_key(tx@.inputs[i as int]));
        }
        if !pool.contains(&utxo) {
            return false;
        }
        i += 1;
    }
    true
}

/// Whether some input of `tx` refers to a hash of the list.
fn refs_hashes(hashes: &Vec<[u8; 32]>, tx: &Tx, Ghost(hs): Ghost<Set<Seq<u8>>>) -> (r: bool)
    requires
        forall|h: Seq<u8>|
            hs.contains(h) <==> exists|j: int| 0 <= j < hashes@.len() && (#[trigger] hashes@[j])@
                == h,
    ensures
        r == refs_batch(tx@, hs),
{
    let inputs = tx.inputs();
    let mut i: usize = 0;
    while i < inputs.len()
        invariant
            i <= inputs.len(),
            inputs@.map_values(|x: Input| x@) == tx@.inputs,
            inputs.len() == tx@.inputs.len(),
            forall|h: Seq<u8>|
                hs.contains(h) <==> exists|j: int| 0 <= j < hashes@.len() && (#[trigger] hashes@[j])@
                    == h,
            forall|k: int|
                0 <= k < i ==> !hs.contains((#[trigger] tx@.inputs[k]).output_tx_hash),
        decreases inputs.len() - i,
    {
        let input = &inputs[i];
        proof {
            assert(input@ == tx@.inputs[i as int]);
        }
        let h = input.output_tx_hash();
        if contains_hash(hashes, &h) {
            proof {
                assert(hs.contains(tx@.inputs[i as int].output_tx_hash));
            }
            return true;
        }
        i += 1;
    }
    false
}

/// Accumulators distribute over a wave.
pub proof fn lemma_wave_step_acc(
    m: Map<UTXOModel, OutputModel>,
    hs: Set<Seq<u8>>,
    txs: Seq<TxModel>,
    acc: Seq<TxModel>,
    dep: Seq<TxModel>,
)
    ensures
        ({
            let base = wave_step(m, hs, txs, Seq::empty(), Seq::empty());
            wave_step(m, hs, txs, acc, dep) == (acc + base.0, dep + base.1, base.2)
        }),
    decreases txs.len(),
{
    let base = wave_step(m, hs, txs, Seq::empty(), Seq::empty());
    if txs.len() == 0 {
        assert(acc + base.0 =~= acc);
        assert(dep + base.1 =~= dep);
    } else {
        let t = txs.first();
        let rest = txs.drop_first();
        if inputs_resolve(t, m) {
            if tx_valid(t, m) {
                let m2 = apply_tx_spec(m, t);
                lemma_wave_step_acc(m2, hs, rest, acc.push(t), dep);
                lemma_wave_step_acc(m2, hs, rest, Seq::empty().push(t), Seq::empty());
                let inner = wave_step(m2, hs, rest, Seq::empty(), Seq::empty());
                assert(acc.push(t) + inner.0 =~= acc + (Seq::empty().push(t) + inner.0));
                assert(dep + inner.1 =~= dep + inner.1);
            } else {
                lemma_wave_step_acc(m, hs, rest, acc, dep);
            }
        } else if refs_batch(t, hs) {
            lemma_wave_step_acc(m, hs, rest, acc, dep.push(t));
            lemma_wave_step_acc(m, hs, rest, Seq::empty(), Seq::empty().push(t));
            let inner = wave_step(m, hs, rest, Seq::empty(), Seq::empty());
            assert(dep.push(t) + inner.1 =~= dep + (Seq::empty().push(t) + inner.1));
        } else {
            lemma_wave_step_acc(m, hs, rest, acc, dep);
        }
    }
}

/// One wave over a vector of candidates; returns the applied and the
/// batch-dependent transactions, in order.
fn handle_independent_in<'a>(pool: &mut UTXOPool, txs: Vec<&'a Tx>) -> (r: (
    Vec<&'a Tx>,
    Vec<&'a Tx>,
))
    requires
        old(pool).wf(),
    ensures
        final(pool).wf(),
        ({
            let step = wave_step(
                old(pool)@,
                batch_hashes(tx_views(txs@)),
                tx_views(txs@),
                Seq::empty(),
                Seq::empty(),
            );
            &&& tx_views(r.0@) == step.0
            &&& tx_views(r.1@) == step.1
            &&& final(pool)@ == step.2
        }),
{
    let ghost views = tx_views(txs@);
    let ghost m0 = pool@;
    let mut hashes: Vec<[u8; 32]> = Vec::new();
    let mut i: usize = 0;
    while i < txs.len()
        invariant
            i <= txs.len(),
            views == tx_views(txs@),
            hashes@.len() == i,
            forall|k: int| 0 <= k < i ==> (#[trigger] hashes@[k])@ == views[k].hash,
        decreases txs.len() - i,
    {
        hashes.push(txs[i].hash());
        proof {
            assert(views[i as int] == txs@[i as int]@);
        }
        i += 1;
    }
    let ghost hs = batch_hashes(views);
    proof {
        assert forall|h: Seq<u8>|
            hs.contains(h) <==> exists|j: int| 0 <= j < hashes@.len() && (#[trigger] hashes@[j])@
                == h by {
            if hs.contains(h) {
                let j = choose|j: int| 0 <= j < views.len() && (#[trigger] views[j]).hash == h;
                assert(hashes@[j]@ == h);
            }
            if exists|j: int| 0 <= j < hashes@.len() && (#[trigger] hashes@[j])@ == h {
                let j = choose|j: int| 0 <= j < hashes@.len() && (#[trigger] hashes@[j])@ == h;
                assert(views[j].hash == h);
            }
        }
    }
    let mut handled: Vec<&'a Tx> = Vec::new();
    let mut dependent: Vec<&'a Tx> = Vec::new();
    proof {
        assert(views.skip(0) =~= views);
        assert(tx_views(handled@) =~= Seq::<TxModel>::empty());
        assert(tx_views(dependent@) =~= Seq::<TxModel>::empty());
    }
    let mut i: usize = 0;
    while i < txs.len()
        invariant
            pool.wf(),
            views == tx_views(txs@),
            txs@.len() == views.len(),
            i <= txs.len(),
            forall|h: Seq<u8>|
                hs.contains(h) <==> exists|j: int| 0 <= j < hashes@.len() && (#[trigger] hashes@[j])@
                    == h,
            wave_step(pool@, hs, views.skip(i as int), tx_views(handled@), tx_views(dependent@))
                == wave_step(m0, hs, views, Seq::empty(), Seq::empty()),
        decreases txs.len() - i,
    {
        let tx = txs[i];
        proof {
            assert(views[i as int] == txs@[i as int]@);
            assert(views.skip(i as int).first() == views[i as int]);
            assert(views.skip(i as int).drop_first() =~= views.skip(i + 1));
        }
        if all_inputs_in(pool, tx) {
            if is_tx_valid_in(pool, tx) {
                apply_tx_in(pool, tx);
                let ghost hprev = handled@;
                handled.push(tx);
                proof {
                    assert(tx_views(handled@) =~= tx_views(hprev).push(tx@));
                }
            }
        } else if refs_hashes(&hashes, tx, Ghost(hs)) {
            let ghost dprev = dependent@;
            dependent.push(tx);
            proof {
                assert(tx_views(dependent@) =~= tx_views(dprev).push(tx@));
            }
        }
        i += 1;
    }
    proof {
        assert(views.skip(views.len() as int) =~= Seq::<TxModel>::empty());
    }
    (handled, dependent)
}

/// The wave loop over a batch against the given pool; returns the accepted
/// transactions in application order.
#[verifier::loop_isolation(false)]
pub fn handle_in<'a>(pool: &mut UTXOPool, possible_txs: Vec<&'a Tx>) -> (r: Vec<&'a Tx>)
    requires
        old(pool).wf(),
    ensures
        final(pool).wf(),
        ({
            let w = waves(old(pool)@, tx_views(possible_txs@), Seq::empty());
            &&& tx_views(r@) == w.0
            &&& final(pool)@ == w.1
        }),
{
    let ghost m0 = pool@;
    let ghost views0 = tx_views(possible_txs@);
    let mut handled: Vec<&'a Tx> = Vec::new();
    let mut to_handle = possible_txs;
    proof {
        assert(tx_views(handled@) =~= Seq::<TxModel>::empty());
    }
    loop
        invariant
            pool.wf(),
            waves(pool@, tx_views(to_handle@), tx_views(handled@)) == waves(
                m0,
                views0,
                Seq::empty(),
            ),
        decreases tx_views(to_handle@).len(),
    {
        let ghost m_round = pool@;
        let ghost round_views = tx_views(to_handle@);
        let ghost acc_views = tx_views(handled@);
        let n = to_handle.len();
        let (independent, dependent) = handle_independent_in(pool, to_handle);
        proof {
            assert(acc_views + tx_views(independent@).take(0) =~= acc_views);
        }
        let mut k: usize = 0;
        while k < independent.len()
            invariant
                k <= independent.len(),
                tx_views(handled@) == acc_views + tx_views(independent@).take(k as int),
            decreases independent.len() - k,
        {
            let ghost hp = handled@;
            handled.push(independent[k]);
            proof {
                assert(tx_views(handled@) =~= tx_views(hp).push(independent@[k as int]@));
                assert(tx_views(independent@)[k as int] == independent@[k as int]@);
                assert(tx_views(independent@).take(k + 1).drop_last() =~= tx_views(
                    independent@,
                ).take(k as int));
                assert(tx_views(independent@).take(k + 1) =~= tx_views(independent@).take(
                    k as int,
                ).push(independent@[k as int]@));
                assert(tx_views(handled@) =~= acc_views + tx_views(independent@).take(k + 1));
            }
            k += 1;
        }
        let ghost hs_round = batch_hashes(round_views);
        let ghost base = wave_step(m_round, hs_round, round_views, Seq::<TxModel>::empty(), Seq::<
            TxModel,
        >::empty());
        proof {
            assert(tx_views(independent@).take(independent@.len() as int) =~= tx_views(
                independent@,
            ));
            lemma_wave_step_acc(m_round, hs_round, round_views, acc_views, Seq::empty());
            assert(Seq::<TxModel>::empty() + base.1 =~= base.1);
            assert(tx_views(handled@) =~= acc_views + base.0);
            lemma_wave_step_len(m_round, hs_round, round_views, Seq::empty(), Seq::empty());
            assert(wave_step(m_round, hs_round, round_views, acc_views, Seq::empty()) == (
                acc_views + base.0,
                base.1,
                base.2,
            ));
        }
        if dependent.len() == 0 || dependent.len() == n {
            proof {
                assert(tx_views(dependent@).len() == dependent@.len());
                assert(waves(m_round, round_views, acc_views) == (tx_views(handled@), pool@));
            }
            return handled;
        }
        to_handle = dependent;
        proof {
            assert(tx_views(to_handle@).len() < round_views.len());
            assert(waves(pool@, tx_views(to_handle@), tx_views(handled@)) == waves(
                m0,
                views0,
                Seq::empty(),
            ));
        }
    }
}

/// The sum of the values of every pool output locked to `pub_key`.
pub fn balance_of(pool: &UTXOPool, pub_key: &VerifierKey) -> (r: u64)
    requires
        pool.entries().len() <= 0x1_0000_0000,
    ensures
        r == sum_values(outputs_of_key(pool.entries(), pub_key@)),
{
    let outs = pool.utxos_of(pub_key);
    let ghost os = outs@.map_values(|o: &crate::tx::Output| o@);
    proof {
        lemma_outputs_of_key_len(pool.entries(), pub_key@);
    }
    let mut total: u64 = 0;
    let mut i: usize = 0;
    while i < outs.len()
        invariant
            i <= outs.len(),
            os == outs@.map_values(|o: &crate::tx::Output| o@),
            os.len() <= 0x1_0000_0000,
            total == sum_values(os.take(i as int)),
        decreases outs.len() - i,
    {
        proof {
            assert(os.take(i + 1).drop_last() =~= os.take(i as int));
            assert(os.take(i + 1).last() == os[i as int]);
            assert(os[i as int] == outs@[i as int]@);
            lemma_sum_values_bound(os.take(i + 1));
            assert((i + 1) * (u32::MAX as int) < u64::MAX) by (nonlinear_arith)
                requires i + 1 <= 0x1_0000_0000;
        }
        total = total + (outs[i].value() as u64);
        i += 1;
    }
    proof {
        assert(os.take(os.len() as int) =~= os);
    }
    total
}

/// A handler of transaction batches over an owned UTXO pool.
///
/// `spec_pool` is the handler's pool; `prepared` is the order in which it
/// feeds a batch to the wave loop, and fixes the meaning of `handle`.
pub trait TxHandler: Sized {
    /// The pool the handler validates against and updates.
    spec fn spec_pool(&self) -> UTXOPool;

    /// The sequence the wave loop actually runs on, given the batch.
    spec fn prepared(&self, txs: Seq<TxModel>) -> Seq<TxModel>;

    /// Accepts an unordered batch of candidate transactions, applies every
    /// admissible one to the internal pool, and returns them in application
    /// order.
    fn handle<'a>(&mut self, possible_txs: Vec<&'a Tx>) -> (r: Vec<&'a Tx>)
        requires
            old(self).spec_pool().wf(),
        ensures
            final(self).spec_pool().wf(),
            ({
                let w = waves(
                    old(self).spec_pool()@,
                    old(self).prepared(tx_views(possible_txs@)),
                    Seq::empty(),
                );
                &&& tx_views(r@) == w.0
                &&& final(self).spec_pool()@ == w.1
            }),
    ;

    /// One wave over a batch: applies every transaction whose inputs all
    /// resolve and that validates, keeps the batch-dependent ones for the
    /// next wave, and drops the rest.
    fn handle_independent<'a>(&mut self, txs: Vec<&'a Tx>) -> (r: (Vec<&'a Tx>, Vec<&'a Tx>))
        requires
            old(self).spec_pool().wf(),
        ensures
            final(self).spec_pool().wf(),
            ({
                let step = wave_step(
                    old(self).spec_pool()@,
                    batch_hashes(tx_views(txs@)),
                    tx_views(txs@),
                    Seq::empty(),
                    Seq::empty(),
                );
                &&& tx_views(r.0@) == step.0
                &&& tx_views(r.1@) == step.1
                &&& final(self).spec_pool()@ == step.2
            }),
    ;

    /// The internal pool.
    fn pool(&self) -> (r: &UTXOPool)
        ensures
            *r == self.spec_pool(),
    ;

    /// The internal pool, mutably.
    fn pool_mut(&mut self) -> (r: &mut UTXOPool)
        ensures
            *r == old(self).spec_pool(),
            final(self).spec_pool() == *final(r),
    ;

    /// The internal pool, consuming the handler.
    fn move_pool(self) -> (r: UTXOPool)
        ensures
            r == self.spec_pool(),
    ;

    /// Decides `tx_valid` for `tx` against the internal pool.
    fn is_tx_valid(&self, tx: &Tx) -> (r: bool)
        requires
            self.spec_pool().wf(),
        ensures
            r == tx_valid(tx@, self.spec_pool()@),
    ;

    /// Applies `tx` to the internal pool.
    fn apply_tx(&mut self, tx: &Tx)
        requires
            old(self).spec_pool().wf(),
            tx@.outputs.len() <= 256,
        ensures
            final(self).spec_pool().wf(),
            final(self).spec_pool()@ == apply_tx_spec(old(self).spec_pool()@, tx@),
    ;

    /// Whether the UTXO spent by `input` is in the internal pool.
    fn is_input_in_pool(&self, input: &Input) -> (r: bool)
        ensures
            r == self.spec_pool()@.contains_key(input_key(input@)),
    ;
}

/// The default handler: runs the wave loop on the batch as given.
pub struct Handler {
    pool: UTXOPool,
}

impl Handler {
    /// A handler over the given pool.
    pub fn new(pool: UTXOPool) -> (r: Self)
        ensures
            r.spec_pool() == pool,
    {
        Handler { pool }
    }
}

impl TxHandler for Handler {
    closed spec fn spec_pool(&self) -> UTXOPool {
        self.pool
    }

    open spec fn prepared(&self, txs: Seq<TxModel>) -> Seq<TxModel> {
        txs
    }

    fn handle<'a>(&mut self, possible_txs: Vec<&'a Tx>) -> (r: Vec<&'a Tx>) {
        handle_in(&mut self.pool, possible_txs)
    }

    fn handle_independent<'a>(&mut self, txs: Vec<&'a Tx>) -> (r: (Vec<&'a Tx>, Vec<&'a Tx>)) {
        handle_independent_in(&mut self.pool, txs)
    }

    fn pool(&self) -> (r: &UTXOPool) {
        &self.pool
    }

    fn pool_mut(&mut self) -> (r: &mut UTXOPool) {
        &mut self.pool
    }

    fn move_pool(self) -> (r: UTXOPool) {
        self.pool
    }

    fn is_tx_valid(&self, tx: &Tx) -> (r: bool) {
        is_tx_valid_in(&self.pool, tx)
    }

    fn apply_tx(&mut self, tx: &Tx) {
        apply_tx_in(&mut self.pool, tx)
    }

    fn is_input_in_pool(&self, input: &Input) -> (r: bool) {
        let utxo = UTXO::new(input.output_tx_hash(), input.output_idx());
        proof {
            assert(utxo@ =~= input_key(input@));
        }
        self.pool.contains(&utxo)
    }
}

/// The pool after a sequence of transactions is applied in order.
pub open spec fn apply_all(m: Map<UTXOModel, OutputModel>, txs: Seq<TxModel>) -> Map<
    UTXOModel,
    OutputModel,
>
    decreases txs.len(),
{
    if txs.len() == 0 {
        m
    } else {
        apply_tx_spec(apply_all(m, txs.drop_last()), txs.last())
    }
}

/// Whether `tx` spends the UTXO `u`.
pub open spec fn spends(tx: TxModel, u: UTXOModel) -> bool {
    exists|i: int| 0 <= i < tx.inputs.len() && input_key(#[trigger] tx.inputs[i]) == u
}

/// No key of the pool carries `h` as its source hash.
pub open spec fn key_hash_fresh(h: Seq<u8>, m: Map<UTXOModel, OutputModel>) -> bool {
    forall|u: UTXOModel| #[trigger] m.contains_key(u) ==> u.tx_hash != h
}

/// Accepted hashes collide with no key of any earlier pool state: the digest
/// behaves injectively over the run.
pub open spec fn fresh_hashes(m: Map<UTXOModel, OutputModel>, acc: Seq<TxModel>) -> bool {
    forall|j: int, k: int|
        0 <= k <= j < acc.len() ==> key_hash_fresh(
            (#[trigger] acc[j]).hash,
            apply_all(m, #[trigger] acc.take(k)),
        )
}

/// A key missing from the pool stays missing under input removal.
proof fn lemma_remove_inputs_mono(m: Map<UTXOModel, OutputModel>, is: Seq<InputModel>, u: UTXOModel)
    requires
        !m.contains_key(u),
    ensures
        !remove_inputs(m, is).contains_key(u),
    decreases is.len(),
{
    if is.len() > 0 {
        lemma_remove_inputs_mono(m.remove(input_key(is.first())), is.drop_first(), u);
    }
}

/// Removing the inputs removes every spent key.
proof fn lemma_remove_inputs_spent(
    m: Map<UTXOModel, OutputModel>,
    is: Seq<InputModel>,
    u: UTXOModel,
)
    requires
        exists|i: int| 0 <= i < is.len() && input_key(#[trigger] is[i]) == u,
    ensures
        !remove_inputs(m, is).contains_key(u),
    decreases is.len(),
{
    let i = choose|i: int| 0 <= i < is.len() && input_key(#[trigger] is[i]) == u;
    if i == 0 {
        lemma_remove_inputs_mono(m.remove(input_key(is.first())), is.drop_first(), u);
    } else {
        assert(input_key(is.drop_first()[i - 1]) == u);
        lemma_remove_inputs_spent(m.remove(input_key(is.first())), is.drop_first(), u);
    }
}

/// Input removal introduces no key.
proof fn lemma_remove_inputs_dom(m: Map<UTXOModel, OutputModel>, is: Seq<InputModel>, u: UTXOModel)
    requires
        remove_inputs(m, is).contains_key(u),
    ensures
        m.contains_key(u),
    decreases is.len(),
{
    if is.len() > 0 {
        lemma_remove_inputs_dom(m.remove(input_key(is.first())), is.drop_first(), u);
    }
}

/// Adding outputs introduces keys under the producing hash alone.
proof fn lemma_add_outputs_dom(
    m: Map<UTXOModel, OutputModel>,
    hash: Seq<u8>,
    os: Seq<OutputModel>,
    j: nat,
    u: UTXOModel,
)
    requires
        add_outputs(m, hash, os, j).contains_key(u),
    ensures
        m.contains_key(u) || u.tx_hash == hash,
    decreases os.len() - j,
{
    if j < os.len() {
        lemma_add_outputs_dom(
            m.insert(UTXOModel { tx_hash: hash, output_idx: j as u8 }, os[j as int]),
            hash,
            os,
            j + 1,
            u,
        );
    }
}

/// Applying a transaction introduces keys under its own hash alone.
pub proof fn lemma_apply_dom(m: Map<UTXOModel, OutputModel>, t: TxModel, u: UTXOModel)
    requires
        apply_tx_spec(m, t).contains_key(u),
    ensures
        m.contains_key(u) || u.tx_hash == t.hash,
{
    lemma_add_outputs_dom(remove_inputs(m, t.inputs), t.hash, t.outputs, 0, u);
    if !m.contains_key(u) && u.tx_hash != t.hash {
        lemma_remove_inputs_dom(m, t.inputs, u);
    }
}

/// A spent key is gone after the spending transaction is applied, unless the
/// transaction's own hash recreates it.
pub proof fn lemma_apply_spent(m: Map<UTXOModel, OutputModel>, t: TxModel, u: UTXOModel)
    requires
        spends(t, u),
        u.tx_hash != t.hash,
    ensures
        !apply_tx_spec(m, t).contains_key(u),
{
    lemma_remove_inputs_spent(m, t.inputs, u);
    if apply_tx_spec(m, t).contains_key(u) {
        lemma_add_outputs_dom(remove_inputs(m, t.inputs), t.hash, t.outputs, 0, u);
    }
}

/// Soundness of one wave: the accepted list grows only by transactions valid
/// against the pool reached by applying all earlier accepted ones, and the
/// resulting pool is that fold.
proof fn lemma_wave_step_sound(
    m0: Map<UTXOModel, OutputModel>,
    m: Map<UTXOModel, OutputModel>,
    hs: Set<Seq<u8>>,
    txs: Seq<TxModel>,
    acc: Seq<TxModel>,
    dep: Seq<TxModel>,
)
    requires
        m == apply_all(m0, acc),
        forall|k: int|
            0 <= k < acc.len() ==> tx_valid(#[trigger] acc[k], apply_all(m0, acc.take(k))),
    ensures
        ({
            let r = wave_step(m, hs, txs, acc, dep);
            &&& r.2 == apply_all(m0, r.0)
            &&& forall|k: int|
                0 <= k < r.0.len() ==> tx_valid(#[trigger] r.0[k], apply_all(m0, r.0.take(k)))
        }),
    decreases txs.len(),
{
    if txs.len() > 0 {
        let t = txs.first();
        let rest = txs.drop_first();
        if inputs_resolve(t, m) {
            if tx_valid(t, m) {
                let acc2 = acc.push(t);
                assert(acc2.drop_last() =~= acc);
                assert(apply_all(m0, acc2) == apply_tx_spec(m, t));
                assert(acc2.take(acc.len() as int) =~= acc);
                assert forall|k: int|
                    0 <= k < acc2.len() implies tx_valid(
                    #[trigger] acc2[k],
                    apply_all(m0, acc2.take(k)),
                ) by {
                    if k < acc.len() {
                        assert(acc2.take(k) =~= acc.take(k));
                        assert(acc2[k] == acc[k]);
                    }
                }
                lemma_wave_step_sound(m0, apply_tx_spec(m, t), hs, rest, acc2, dep);
            } else {
                lemma_wave_step_sound(m0, m, hs, rest, acc, dep);
            }
        } else if refs_batch(t, hs) {
            lemma_wave_step_sound(m0, m, hs, rest, acc, dep.push(t));
        } else {
            lemma_wave_step_sound(m0, m, hs, rest, acc, dep);
        }
    }
}

/// Soundness of the wave loop, relative to a base pool and earlier accepted
/// transactions.
proof fn lemma_waves_sound_from(
    m0: Map<UTXOModel, OutputModel>,
    m: Map<UTXOModel, OutputModel>,
    txs: Seq<TxModel>,
    acc: Seq<TxModel>,
)
    requires
        m == apply_all(m0, acc),
        forall|k: int|
            0 <= k < acc.len() ==> tx_valid(#[trigger] acc[k], apply_all(m0, acc.take(k))),
    ensures
        ({
            let w = waves(m, txs, acc);
            &&& w.1 == apply_all(m0, w.0)
            &&& forall|k: int|
                0 <= k < w.0.len() ==> tx_valid(#[trigger] w.0[k], apply_all(m0, w.0.take(k)))
        }),
    decreases txs.len(),
{
    let r = wave_step(m, batch_hashes(txs), txs, acc, Seq::empty());
    lemma_wave_step_sound(m0, m, batch_hashes(txs), txs, acc, Seq::empty());
    if r.1.len() != 0 && r.1.len() < txs.len() {
        lemma_waves_sound_from(m0, r.2, r.1, r.0);
    }
}

/// Law: the wave loop accepts only transactions that were valid against the
/// pool reached by applying every earlier accepted transaction — so each
/// accepted transaction's inputs were present when it was applied, and its
/// outputs are covered by the value of those inputs — and the final pool is
/// exactly the fold of the accepted transactions over the initial pool.
pub proof fn lemma_handle_sound(m: Map<UTXOModel, OutputModel>, txs: Seq<TxModel>)
    ensures
        ({
            let w = waves(m, txs, Seq::empty());
            &&& w.1 == apply_all(m, w.0)
            &&& forall|k: int|
                0 <= k < w.0.len() ==> tx_valid(#[trigger] w.0[k], apply_all(m, w.0.take(k)))
            &&& forall|k: int|
                0 <= k < w.0.len() ==> sum_values((#[trigger] w.0[k]).outputs) <= in_sum(
                    w.0[k].inputs,
                    apply_all(m, w.0.take(k)),
                )
        }),
{
    lemma_waves_sound_from(m, m, txs, Seq::empty());
}

/// A key absent from the pool stays absent while the applied transactions'
/// hashes avoid it.
proof fn lemma_absent_through(
    m0: Map<UTXOModel, OutputModel>,
    acc: Seq<TxModel>,
    u: UTXOModel,
    start: int,
    end: int,
)
    requires
        0 <= start <= end <= acc.len(),
        !apply_all(m0, acc.take(start)).contains_key(u),
        forall|j: int| start <= j < end ==> u.tx_hash != (#[trigger] acc[j]).hash,
    ensures
        !apply_all(m0, acc.take(end)).contains_key(u),
    decreases end - start,
{
    if end > start {
        lemma_absent_through(m0, acc, u, start, end - 1);
        assert(acc.take(end).drop_last() =~= acc.take(end - 1));
        assert(acc.take(end).last() == acc[end - 1]);
        if apply_all(m0, acc.take(end)).contains_key(u) {
            lemma_apply_dom(apply_all(m0, acc.take(end - 1)), acc[end - 1], u);
        }
    }
}

/// Law: no UTXO is spent by two distinct accepted transactions of one run of
/// the wave loop, provided the accepted hashes are fresh (no digest
/// collision recreates a spent key).
pub proof fn lemma_no_double_spend(
    m: Map<UTXOModel, OutputModel>,
    txs: Seq<TxModel>,
    k1: int,
    k2: int,
    u: UTXOModel,
)
    requires
        ({
            let acc = waves(m, txs, Seq::empty()).0;
            &&& 0 <= k1 < k2 < acc.len()
            &&& fresh_hashes(m, acc)
        }),
    ensures
        !(spends(waves(m, txs, Seq::empty()).0[k1], u) && spends(
            waves(m, txs, Seq::empty()).0[k2],
            u,
        )),
{
    let acc = waves(m, txs, Seq::empty()).0;
    if spends(acc[k1], u) && spends(acc[k2], u) {
        lemma_handle_sound(m, txs);
        let p1 = apply_all(m, acc.take(k1));
        // the key was present when the first spender was applied
        let i = choose|i: int|
            0 <= i < acc[k1].inputs.len() && input_key(#[trigger] acc[k1].inputs[i]) == u;
        assert(p1.contains_key(u));
        // freshness: no accepted hash from k1 on matches the key's source hash
        assert forall|j: int| k1 <= j < acc.len() implies u.tx_hash != (#[trigger] acc[j]).hash by {
            assert(key_hash_fresh(acc[j].hash, apply_all(m, acc.take(k1))));
        }
        // applying the first spender removes the key
        assert(acc.take(k1 + 1).drop_last() =~= acc.take(k1));
        assert(acc.take(k1 + 1).last() == acc[k1]);
        lemma_apply_spent(p1, acc[k1], u);
        assert(!apply_all(m, acc.take(k1 + 1)).contains_key(u));
        // and it stays gone up to the second spender
        lemma_absent_through(m, acc, u, k1 + 1, k2);
        // yet the second spender's validity needs it present
        assert(apply_all(m, acc.take(k2)).contains_key(u));
    }
}

/// Law: a UTXO spent by an accepted transaction is absent from every later
/// pool state of the run, the final pool included, under the same freshness
/// of hashes.
pub proof fn lemma_spent_consumed(
    m: Map<UTXOModel, OutputModel>,
    txs: Seq<TxModel>,
    k: int,
    u: UTXOModel,
)
    requires
        ({
            let acc = waves(m, txs, Seq::empty()).0;
            &&& 0 <= k < acc.len()
            &&& spends(acc[k], u)
            &&& fresh_hashes(m, acc)
        }),
    ensures
        forall|j: int|
            k < j <= waves(m, txs, Seq::empty()).0.len() ==> !apply_all(
                m,
                waves(m, txs, Seq::empty()).0.take(j),
            ).contains_key(u),
        !waves(m, txs, Seq::empty()).1.contains_key(u),
{
    let acc = waves(m, txs, Seq::empty()).0;
    lemma_handle_sound(m, txs);
    let pk = apply_all(m, acc.take(k));
    let i = choose|i: int| 0 <= i < acc[k].inputs.len() && input_key(#[trigger] acc[k].inputs[i]) == u;
    assert(pk.contains_key(u));
    assert forall|j: int| k <= j < acc.len() implies u.tx_hash != (#[trigger] acc[j]).hash by {
        assert(key_hash_fresh(acc[j].hash, apply_all(m, acc.take(k))));
    }
    assert(acc.take(k + 1).drop_last() =~= acc.take(k));
    assert(acc.take(k + 1).last() == acc[k]);
    lemma_apply_spent(pk, acc[k], u);
    assert forall|j: int| k < j <= acc.len() implies !apply_all(m, acc.take(j)).contains_key(
        u,
    ) by {
        lemma_absent_through(m, acc, u, k + 1, j);
    }
    assert(acc.take(acc.len() as int) =~= acc);
}

/// Law: a transaction that was valid against a pool is invalid against the
/// pool it produced: its spent keys are consumed, provided it does not spend
/// an output under its own hash.
pub proof fn lemma_revalidation_fails(m: Map<UTXOModel, OutputModel>, t: TxModel)
    requires
        tx_valid(t, m),
        t.inputs.len() > 0,
        forall|i: int|
            0 <= i < t.inputs.len() ==> (#[trigger] t.inputs[i]).output_tx_hash != t.hash,
    ensures
        !tx_valid(t, apply_tx_spec(m, t)),
{
    let u = input_key(t.inputs[0]);
    assert(spends(t, u));
    lemma_apply_spent(m, t, u);
    assert(!inputs_resolve(t, apply_tx_spec(m, t)));
}

/// The transactions of a batch keyed by hash; on a repeated hash the later
/// transaction wins, matching repeated insertion.
pub open spec fn tx_map_of(txs: Seq<TxModel>) -> Map<Seq<u8>, TxModel>
    decreases txs.len(),
{
    if txs.len() == 0 {
        Map::empty()
    } else {
        tx_map_of(txs.drop_last()).insert(txs.last().hash, txs.last())
    }
}

/// A hash is in the batch map exactly when some batch transaction carries it.
pub proof fn lemma_tx_map_contains(txs: Seq<TxModel>, h: Seq<u8>)
    ensures
        tx_map_of(txs).contains_key(h) <==> exists|i: int|
            0 <= i < txs.len() && (#[trigger] txs[i]).hash == h,
    decreases txs.len(),
{
    if txs.len() > 0 {
        lemma_tx_map_contains(txs.drop_last(), h);
        if txs.last().hash == h {
            assert((txs[txs.len() - 1]).hash == h);
        } else if tx_map_of(txs).contains_key(h) {
            let i = choose|i: int|
                0 <= i < txs.drop_last().len() && (#[trigger] txs.drop_last()[i]).hash == h;
            assert((txs[i]).hash == h);
        } else {
            if exists|i: int| 0 <= i < txs.len() && (#[trigger] txs[i]).hash == h {
                let i = choose|i: int| 0 <= i < txs.len() && (#[trigger] txs[i]).hash == h;
                assert((txs.drop_last()[i]).hash == h);
            }
        }
    }
}

/// The batch map returns the last transaction with the given hash.
pub proof fn lemma_tx_map_last(txs: Seq<TxModel>, i: int)
    requires
        0 <= i < txs.len(),
        forall|j: int| i < j < txs.len() ==> (#[trigger] txs[j]).hash != txs[i].hash,
    ensures
        tx_map_of(txs).contains_key(txs[i].hash),
        tx_map_of(txs)[txs[i].hash] == txs[i],
    decreases txs.len(),
{
    if i == txs.len() - 1 {
    } else {
        assert(txs.drop_last()[i] == txs[i]);
        lemma_tx_map_last(txs.drop_last(), i);
        assert(txs.last().hash != txs[i].hash);
    }
}

/// The pool value an input consumes when fees are costed: from the pool if
/// present, else from the referenced batch transaction's outputs.
pub open spec fn fee_value(
    m: Map<UTXOModel, OutputModel>,
    tm: Map<Seq<u8>, TxModel>,
    inp: InputModel,
) -> Option<u32> {
    if m.contains_key(input_key(inp)) {
        Some(m[input_key(inp)].value)
    } else if tm.contains_key(inp.output_tx_hash) && inp.output_idx < tm[inp.output_tx_hash].outputs.len() {
        Some(tm[inp.output_tx_hash].outputs[inp.output_idx as int].value)
    } else {
        None
    }
}

/// The total costed value of a sequence of inputs, if every one resolves.
pub open spec fn fee_in_sum(
    is: Seq<InputModel>,
    m: Map<UTXOModel, OutputModel>,
    tm: Map<Seq<u8>, TxModel>,
) -> Option<int>
    decreases is.len(),
{
    if is.len() == 0 {
        Some(0)
    } else {
        match (fee_in_sum(is.drop_last(), m, tm), fee_value(m, tm, is.last())) {
            (Some(rest), Some(v)) => Some(rest + v),
            _ => None,
        }
    }
}

/// When every input resolves, each prefix resolves and sums to no more.
pub proof fn lemma_fee_in_sum_prefix(
    is: Seq<InputModel>,
    m: Map<UTXOModel, OutputModel>,
    tm: Map<Seq<u8>, TxModel>,
    k: int,
)
    requires
        0 <= k <= is.len(),
        fee_in_sum(is, m, tm) is Some,
    ensures
        fee_in_sum(is.take(k), m, tm) is Some,
        fee_in_sum(is, m, tm)->0 >= fee_in_sum(is.take(k), m, tm)->0 >= 0,
    decreases is.len(),
{
    if is.len() == 0 {
        assert(is.take(k) =~= is);
    } else if k == is.len() {
        assert(is.take(k) =~= is);
        lemma_fee_in_sum_prefix(is.drop_last(), m, tm, is.len() - 1);
    } else {
        assert(is.take(k) =~= is.drop_last().take(k));
        lemma_fee_in_sum_prefix(is.drop_last(), m, tm, k);
    }
}

/// The fee a transaction pays under the combined view of pool and batch:
/// the costed input total minus the output total, when the inputs resolve,
/// both totals fit 64 bits, and the difference is not negative.
pub open spec fn fee_of(
    tx: TxModel,
    m: Map<UTXOModel, OutputModel>,
    tm: Map<Seq<u8>, TxModel>,
) -> Option<int> {
    match fee_in_sum(tx.inputs, m, tm) {
        Some(si) => {
            if si > u64::MAX || sum_values(tx.outputs) > u64::MAX || si < sum_values(tx.outputs) {
                None
            } else {
                Some(si - sum_values(tx.outputs))
            }
        },
        None => None,
    }
}

/// The batch entries that carry a fee, in batch order, with their fees.
pub open spec fn with_fees(
    txs: Seq<TxModel>,
    m: Map<UTXOModel, OutputModel>,
    tm: Map<Seq<u8>, TxModel>,
) -> Seq<(int, TxModel)>
    decreases txs.len(),
{
    if txs.len() == 0 {
        Seq::empty()
    } else {
        let rest = with_fees(txs.drop_last(), m, tm);
        match fee_of(txs.last(), m, tm) {
            Some(f) => rest.push((f, txs.last())),
            None => rest,
        }
    }
}

/// Insertion into a fee-descending sequence; an equal fee keeps the earlier
/// entry first.
pub open spec fn insert_desc(p: (int, TxModel), s: Seq<(int, TxModel)>) -> Seq<(int, TxModel)>
    decreases s.len(),
{
    if s.len() == 0 {
        seq![p]
    } else if p.0 > s.first().0 {
        seq![p] + s
    } else {
        seq![s.first()] + insert_desc(p, s.drop_first())
    }
}

/// Stable insertion sort by descending fee.
pub open spec fn sort_desc(s: Seq<(int, TxModel)>) -> Seq<(int, TxModel)>
    decreases s.len(),
{
    if s.len() == 0 {
        s
    } else {
        insert_desc(s.first(), sort_desc(s.drop_first()))
    }
}

/// The order the max-fee handler feeds a batch to the wave loop: drop the
/// candidates with no fee, sort the rest by descending fee.
pub open spec fn fee_sorted(txs: Seq<TxModel>, m: Map<UTXOModel, OutputModel>) -> Seq<TxModel> {
    sort_desc(with_fees(txs, m, tx_map_of(txs))).map_values(|p: (int, TxModel)| p.1)
}

/// Views of fee-tagged transaction references.
pub open spec fn pair_views(s: Seq<(u64, &Tx)>) -> Seq<(int, TxModel)> {
    s.map_values(|p: (u64, &Tx)| (p.0 as int, p.1@))
}

/// The index of the last batch transaction with the given hash, if any.
fn find_last_by_hash<'a>(batch: &Vec<&'a Tx>, h: &[u8; 32]) -> (r: Option<&'a Tx>)
    ensures
        ({
            let tm = tx_map_of(tx_views(batch@));
            match r {
                Some(t) => tm.contains_key(h@) && t@ == tm[h@],
                None => !tm.contains_key(h@),
            }
        }),
{
    let ghost views = tx_views(batch@);
    let mut i: usize = batch.len();
    while i > 0
        invariant
            i <= batch.len(),
            views == tx_views(batch@),
            forall|j: int| i <= j < views.len() ==> (#[trigger] views[j]).hash != h@,
        decreases i,
    {
        i = i - 1;
        let tx = batch[i];
        let th = tx.hash();
        proof {
            assert(views[i as int] == batch@[i as int]@);
        }
        if digest_eq(&th, h) {
            proof {
                lemma_tx_map_last(views, i as int);
            }
            return Some(tx);
        }
    }
    proof {
        lemma_tx_map_contains(views, h@);
    }
    None
}

/// The fee of `tx` against the pool and the batch, or nothing when an input
/// cannot be costed, a total leaves 64 bits, or the outputs exceed the inputs.
fn calc_fee(pool: &UTXOPool, batch: &Vec<&Tx>, tx: &Tx) -> (r: Option<u64>)
    requires
        pool.wf(),
    ensures
        ({
            let f = fee_of(tx@, pool@, tx_map_of(tx_views(batch@)));
            match r {
                Some(v) => f == Some(v as int),
                None => f is None,
            }
        }),
{
    let ghost txm = tx@;
    let ghost m = pool@;
    let ghost tm = tx_map_of(tx_views(batch@));
    let inputs = tx.inputs();
    let mut in_total: u64 = 0;
    let mut i: usize = 0;
    while i < inputs.len()
        invariant
            pool.wf(),
            txm == tx@,
            m == pool@,
            tm == tx_map_of(tx_views(batch@)),
            inputs@.map_values(|x: Input| x@) == txm.inputs,
            inputs.len() == txm.inputs.len(),
            i <= inputs.len(),
            fee_in_sum(txm.inputs.take(i as int), m, tm) == Some(in_total as int),
        decreases inputs.len() - i,
    {
        let input = &inputs[i];
        proof {
            assert(input@ == txm.inputs[i as int]);
            assert(txm.inputs.take(i + 1).drop_last() =~= txm.inputs.take(i as int));
            assert(txm.inputs.take(i + 1).last() == txm.inputs[i as int]);
        }
        let utxo = UTXO::new(input.output_tx_hash(), input.output_idx());
        proof {
            assert(utxo@ =~= input_key(txm.inputs[i as int]));
        }
        let value: u32 = match pool.utxo_output(&utxo) {
            Some(o) => o.value(),
            None => {
                let h = input.output_tx_hash();
                match find_last_by_hash(batch, &h) {
                    Some(t) => {
                        match t.output(input.output_idx()) {
                            Some(o) => o.value(),
                            None => {
                                proof {
                                    assert(fee_value(m, tm, txm.inputs[i as int]) is None);
                                    lemma_fee_in_sum_prefix_none(txm.inputs, m, tm, i + 1);
                                }
                                return None;
                            },
                        }
                    },
                    None => {
                        proof {
                            assert(fee_value(m, tm, txm.inputs[i as int]) is None);
                            lemma_fee_in_sum_prefix_none(txm.inputs, m, tm, i + 1);
                        }
                        return None;
                    },
                }
            },
        };
        proof {
            assert(fee_value(m, tm, txm.inputs[i as int]) == Some(value));
        }
        if in_total > u64::MAX - (value as u64) {
            proof {
                if fee_in_sum(txm.inputs, m, tm) is Some {
                    lemma_fee_in_sum_monotone(txm.inputs, m, tm, i + 1);
                }
            }
            return None;
        }
        in_total = in_total + (value as u64);
        i += 1;
    }
    proof {
        assert(txm.inputs.take(txm.inputs.len() as int) =~= txm.inputs);
    }
    let outputs = tx.outputs();
    let mut out_total: u64 = 0;
    let mut j: usize = 0;
    while j < outputs.len()
        invariant
            txm == tx@,
            outputs@.map_values(|o: crate::tx::Output| o@) == txm.outputs,
            outputs.len() == txm.outputs.len(),
            j <= outputs.len(),
            out_total == sum_values(txm.outputs.take(j as int)),
        decreases outputs.len() - j,
    {
        let value = outputs[j].value();
        proof {
            assert(outputs@[j as int]@ == txm.outputs[j as int]);
            assert(txm.outputs.take(j + 1).drop_last() =~= txm.outputs.take(j as int));
            assert(txm.outputs.take(j + 1).last() == txm.outputs[j as int]);
        }
        if out_total > u64::MAX - (value as u64) {
            proof {
                lemma_sum_values_prefix(txm.outputs, j + 1);
            }
            return None;
        }
        out_total = out_total + (value as u64);
        j += 1;
    }
    proof {
        assert(txm.outputs.take(txm.outputs.len() as int) =~= txm.outputs);
    }
    if in_total < out_total {
        return None;
    }
    Some(in_total - out_total)
}

/// An unresolved prefix leaves the whole input total unresolved.
proof fn lemma_fee_in_sum_prefix_none(
    is: Seq<InputModel>,
    m: Map<UTXOModel, OutputModel>,
    tm: Map<Seq<u8>, TxModel>,
    k: int,
)
    requires
        0 <= k <= is.len(),
        fee_in_sum(is.take(k), m, tm) is None,
    ensures
        fee_in_sum(is, m, tm) is None,
    decreases is.len(),
{
    if k == is.len() {
        assert(is.take(k) =~= is);
    } else {
        assert(is.take(k) =~= is.drop_last().take(k));
        lemma_fee_in_sum_prefix_none(is.drop_last(), m, tm, k);
    }
}

/// A resolved total bounds each resolved prefix total.
proof fn lemma_fee_in_sum_monotone(
    is: Seq<InputModel>,
    m: Map<UTXOModel, OutputModel>,
    tm: Map<Seq<u8>, TxModel>,
    k: int,
)
    requires
        0 <= k <= is.len(),
        fee_in_sum(is, m, tm) is Some,
    ensures
        fee_in_sum(is.take(k), m, tm) is Some,
        fee_in_sum(is, m, tm)->0 >= fee_in_sum(is.take(k), m, tm)->0,
{
    lemma_fee_in_sum_prefix(is, m, tm, k);
}

/// Inserts a fee-tagged transaction into a fee-descending vector.
#[verifier::rlimit(60)]
#[verifier::loop_isolation(false)]
fn insert_desc_exec<'a>(p: (u64, &'a Tx), sorted: Vec<(u64, &'a Tx)>) -> (r: Vec<(u64, &'a Tx)>)
    ensures
        pair_views(r@) == insert_desc((p.0 as int, p.1@), pair_views(sorted@)),
{
    let ghost sv = pair_views(sorted@);
    let ghost pv = (p.0 as int, p.1@);
    let mut r: Vec<(u64, &'a Tx)> = Vec::new();
    proof {
        assert(pair_views(r@) =~= Seq::<(int, TxModel)>::empty());
        assert(sv.take(0) =~= Seq::<(int, TxModel)>::empty());
        assert(sv.skip(0) =~= sv);
        assert(sv.take(0) + insert_desc(pv, sv.skip(0)) =~= insert_desc(pv, sv));
    }
    let mut j: usize = 0;
    while j < sorted.len() && p.0 <= sorted[j].0
        invariant
            j <= sorted.len(),
            sv == pair_views(sorted@),
            pair_views(r@) == sv.take(j as int),
            insert_desc(pv, sv) == sv.take(j as int) + insert_desc(pv, sv.skip(j as int)),
        decreases sorted.len() - j,
    {
        let ghost rp = r@;
        r.push(sorted[j]);
        proof {
            assert(sv[j as int] == (sorted@[j as int].0 as int, sorted@[j as int].1@));
            assert(pair_views(r@) =~= pair_views(rp).push(sv[j as int]));
            assert(pair_views(r@) =~= sv.take(j + 1));
            assert(sv.skip(j as int).first() == sv[j as int]);
            assert(sv.skip(j as int).drop_first() =~= sv.skip(j + 1));
            assert(!(pv.0 > sv[j as int].0));
            assert(insert_desc(pv, sv.skip(j as int)) == seq![sv[j as int]] + insert_desc(
                pv,
                sv.skip(j + 1),
            ));
            assert(sv.take(j as int) + (seq![sv[j as int]] + insert_desc(pv, sv.skip(j + 1)))
                =~= sv.take(j + 1) + insert_desc(pv, sv.skip(j + 1)));
        }
        j += 1;
    }
    let ghost tail = sv.skip(j as int);
    proof {
        if j < sorted.len() {
            assert(sorted@[j as int].0 as int == sv[j as int].0);
            assert(pv.0 > tail.first().0);
            assert(insert_desc(pv, tail) == seq![pv] + tail);
        } else {
            assert(tail =~= Seq::<(int, TxModel)>::empty());
            assert(insert_desc(pv, tail) == seq![pv]);
        }
    }
    let ghost rp = r@;
    r.push(p);
    proof {
        assert(pair_views(r@) =~= pair_views(rp).push(pv));
    }
    let mut k: usize = j;
    while k < sorted.len()
        invariant
            j <= k <= sorted.len(),
            sv == pair_views(sorted@),
            pair_views(r@) == sv.take(j as int) + seq![pv] + sv.skip(j as int).take(k - j),
        decreases sorted.len() - k,
    {
        let ghost rp2 = r@;
        r.push(sorted[k]);
        proof {
            assert(pair_views(r@) =~= pair_views(rp2).push(sv[k as int]));
            assert(sv.skip(j as int).take(k - j).push(sv[k as int]) =~= sv.skip(j as int).take(
                k + 1 - j,
            ));
            assert(pair_views(r@) =~= sv.take(j as int) + seq![pv] + sv.skip(j as int).take(
                k + 1 - j,
            ));
        }
        k += 1;
    }
    proof {
        assert(sv.skip(j as int).take(sorted@.len() - j) =~= sv.skip(j as int));
        assert(pair_views(r@) =~= sv.take(j as int) + insert_desc(pv, sv.skip(j as int)));
    }
    r
}

/// Sorts fee-tagged transactions by descending fee, stably.
fn sort_by_fee_desc<'a>(pairs: Vec<(u64, &'a Tx)>) -> (r: Vec<(u64, &'a Tx)>)
    ensures
        pair_views(r@) == sort_desc(pair_views(pairs@)),
{
    let ghost pv = pair_views(pairs@);
    let mut r: Vec<(u64, &'a Tx)> = Vec::new();
    let mut i: usize = pairs.len();
    proof {
        assert(pv.skip(pairs@.len() as int) =~= Seq::<(int, TxModel)>::empty());
        assert(pair_views(r@) =~= Seq::<(int, TxModel)>::empty());
    }
    while i > 0
        invariant
            i <= pairs.len(),
            pv == pair_views(pairs@),
            pair_views(r@) == sort_desc(pv.skip(i as int)),
        decreases i,
    {
        i = i - 1;
        proof {
            assert(pv.skip(i as int).first() == pv[i as int]);
            assert(pv[i as int] == (pairs@[i as int].0 as int, pairs@[i as int].1@));
            assert(pv.skip(i as int).drop_first() =~= pv.skip(i + 1));
        }
        r = insert_desc_exec(pairs[i], r);
    }
    proof {
        assert(pv.skip(0) =~= pv);
    }
    r
}

/// The fee-maximizing handler: like the default handler, but the batch is
/// costed and fed to the wave loop in descending fee order. The greedy order
/// maximizes fees wave-locally; it is not guaranteed optimal when conflicting
/// candidates form a non-trivial graph.
pub struct MaxFeeHandler {
    pool: UTXOPool,
}

impl MaxFeeHandler {
    /// A max-fee handler over the given pool.
    pub fn new(pool: UTXOPool) -> (r: Self)
        ensures
            r.spec_pool() == pool,
    {
        MaxFeeHandler { pool }
    }
}

impl TxHandler for MaxFeeHandler {
    closed spec fn spec_pool(&self) -> UTXOPool {
        self.pool
    }

    open spec fn prepared(&self, txs: Seq<TxModel>) -> Seq<TxModel> {
        fee_sorted(txs, self.spec_pool()@)
    }

    fn handle<'a>(&mut self, possible_txs: Vec<&'a Tx>) -> (r: Vec<&'a Tx>) {
        let ghost views = tx_views(possible_txs@);
        let ghost m = self.pool@;
        let ghost tm = tx_map_of(views);
        let mut tagged: Vec<(u64, &'a Tx)> = Vec::new();
        proof {
            assert(views.take(0) =~= Seq::<TxModel>::empty());
            assert(pair_views(tagged@) =~= Seq::<(int, TxModel)>::empty());
        }
        let mut i: usize = 0;
        while i < possible_txs.len()
            invariant
                self.pool.wf(),
                self.pool == old(self).spec_pool(),
                m == self.pool@,
                views == tx_views(possible_txs@),
                tm == tx_map_of(views),
                i <= possible_txs.len(),
                pair_views(tagged@) == with_fees(views.take(i as int), m, tm),
            decreases possible_txs.len() - i,
        {
            let tx = possible_txs[i];
            proof {
                assert(views[i as int] == possible_txs@[i as int]@);
                assert(views.take(i + 1).drop_last() =~= views.take(i as int));
                assert(views.take(i + 1).last() == views[i as int]);
            }
            match calc_fee(&self.pool, &possible_txs, tx) {
                Some(f) => {
                    let ghost tp = tagged@;
                    tagged.push((f, tx));
                    proof {
                        assert(pair_views(tagged@) =~= pair_views(tp).push((f as int, tx@)));
                    }
                },
                None => {},
            }
            i += 1;
        }
        proof {
            assert(views.take(views.len() as int) =~= views);
        }
        let sorted = sort_by_fee_desc(tagged);
        let mut order: Vec<&'a Tx> = Vec::new();
        proof {
            assert(tx_views(order@) =~= Seq::<TxModel>::empty());
            assert(sort_desc(with_fees(views, m, tm)).map_values(|p: (int, TxModel)| p.1).take(0)
                =~= Seq::<TxModel>::empty());
        }
        let mut k: usize = 0;
        while k < sorted.len()
            invariant
                self.pool.wf(),
                self.pool == old(self).spec_pool(),
                m == self.pool@,
                k <= sorted.len(),
                pair_views(sorted@) == sort_desc(with_fees(views, m, tm)),
                tx_views(order@) == sort_desc(with_fees(views, m, tm)).map_values(
                    |p: (int, TxModel)| p.1,
                ).take(k as int),
            decreases sorted.len() - k,
        {
            let ghost op = order@;
            order.push(sorted[k].1);
            proof {
                let full = sort_desc(with_fees(views, m, tm)).map_values(|p: (int, TxModel)| p.1);
                assert(pair_views(sorted@)[k as int] == (sorted@[k as int].0 as int, sorted@[k as int].1@));
                assert(full[k as int] == sorted@[k as int].1@);
                assert(tx_views(order@) =~= tx_views(op).push(sorted@[k as int].1@));
                assert(full.take(k + 1) =~= full.take(k as int).push(full[k as int]));
            }
            k += 1;
        }
        proof {
            let full = sort_desc(with_fees(views, m, tm)).map_values(|p: (int, TxModel)| p.1);
            assert(full.take(full.len() as int) =~= full);
            assert(tx_views(order@) == old(self).prepared(views));
        }
        handle_in(&mut self.pool, order)
    }

    fn handle_independent<'a>(&mut self, txs: Vec<&'a Tx>) -> (r: (Vec<&'a Tx>, Vec<&'a Tx>)) {
        handle_independent_in(&mut self.pool, txs)
    }

    fn pool(&self) -> (r: &UTXOPool) {
        &self.pool
    }

    fn pool_mut(&mut self) -> (r: &mut UTXOPool) {
        &mut self.pool
    }

    fn move_pool(self) -> (r: UTXOPool) {
        self.pool
    }

    fn is_tx_valid(&self, tx: &Tx) -> (r: bool) {
        is_tx_valid_in(&self.pool, tx)
    }

    fn apply_tx(&mut self, tx: &Tx) {
        apply_tx_in(&mut self.pool, tx)
    }

    fn is_input_in_pool(&self, input: &Input) -> (r: bool) {
        let utxo = UTXO::new(input.output_tx_hash(), input.output_idx());
        proof {
            assert(utxo@ =~= input_key(input@));
        }
        self.pool.contains(&utxo)
    }
}

} // verus!
