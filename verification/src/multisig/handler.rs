//! Validation and batch handling for multi-signature transactions.
//!
//! Signature checking is m-of-n: the signatures of an input are matched
//! greedily against the spent output's verifiers in order, and a verifier,
//! once it has accepted a signature, is consumed and may certify no second
//! one. The batch handler applies candidates in waves exactly as the
//! single-signature handler does.

use vstd::prelude::*;

use crate::crypto::{rsa_verify, rsa_verify_spec};
use crate::key::VerifierKeyModel;
use crate::multisig::tx::{
    signing_preimage, Input, InputModel, Output, OutputModel, Tx, TxModel,
};
use crate::multisig::utxo::UTXOPool;
use crate::utxo::{UTXOModel, UTXO};

verus! {

/// The UTXO a given input spends.
pub open spec fn input_key(i: InputModel) -> UTXOModel {
    UTXOModel { tx_hash: i.output_tx_hash, output_idx: i.output_idx }
}

/// Every input of `tx` refers to a key present in the pool.
pub open spec fn inputs_resolve(tx: TxModel, m: Map<UTXOModel, OutputModel>) -> bool {
    forall|i: int|
        0 <= i < tx.inputs.len() ==> m.contains_key(input_key(#[trigger] tx.inputs[i]))
}

/// No UTXO is spent twice within the same transaction.
pub open spec fn inputs_distinct(tx: TxModel) -> bool {
    forall|i: int, j: int|
        0 <= i < j < tx.inputs.len() ==> input_key(#[trigger] tx.inputs[i]) != input_key(
            #[trigger] tx.inputs[j],
        )
}

/// The first verifier at or after `j` that is not yet consumed and accepts
/// the signature over the message.
pub open spec fn first_free_match(
    vs: Seq<VerifierKeyModel>,
    consumed: Set<int>,
    msg: Seq<u8>,
    sig: Seq<u8>,
    j: int,
) -> Option<int>
    decreases vs.len() - j,
{
    if j < 0 || j >= vs.len() {
        None
    } else if !consumed.contains(j) && rsa_verify_spec(vs[j].e, vs[j].n, msg, sig) {
        Some(j)
    } else {
        first_free_match(vs, consumed, msg, sig, j + 1)
    }
}

/// The number of signatures the greedy matching certifies: each signature in
/// order takes the first free verifier that accepts it, consuming it.
pub open spec fn greedy_count(
    vs: Seq<VerifierKeyModel>,
    consumed: Set<int>,
    msg: Seq<u8>,
    sigs: Seq<Seq<u8>>,
) -> int
    decreases sigs.len(),
{
    if sigs.len() == 0 {
        0
    } else {
        match first_free_match(vs, consumed, msg, sigs.first(), 0) {
            Some(j) => 1 + greedy_count(vs, consumed.insert(j), msg, sigs.drop_first()),
            None => greedy_count(vs, consumed, msg, sigs.drop_first()),
        }
    }
}

/// Input `i` of `tx` reaches the threshold of the output it spends.
pub open spec fn input_sig_ok(tx: TxModel, i: int, o: OutputModel) -> bool {
    greedy_count(o.verifiers, Set::empty(), signing_preimage(tx), tx.inputs[i].signatures)
        >= o.threshold
}

/// Every input reaches the threshold of the pool output it spends.
pub open spec fn sigs_ok(tx: TxModel, m: Map<UTXOModel, OutputModel>) -> bool {
    forall|i: int|
        0 <= i < tx.inputs.len() ==> input_sig_ok(tx, i, m[input_key(#[trigger] tx.inputs[i])])
}

/// The total pool value consumed by a sequence of inputs.
pub open spec fn in_sum(is: Seq<InputModel>, m: Map<UTXOModel, OutputModel>) -> int
    decreases is.len(),
{
    if is.len() == 0 {
        0
    } else {
        in_sum(is.drop_last(), m) + m[input_key(is.last())].value
    }
}

/// The total value of a sequence of outputs.
pub open spec fn sum_values(os: Seq<OutputModel>) -> int
    decreases os.len(),
{
    if os.len() == 0 {
        0
    } else {
        sum_values(os.drop_last()) + os.last().value
    }
}

/// A prefix of inputs never sums to more than the whole.
pub proof fn lemma_in_sum_prefix(is: Seq<InputModel>, m: Map<UTXOModel, OutputModel>, k: int)
    requires
        0 <= k <= is.len(),
    ensures
        in_sum(is.take(k), m) <= in_sum(is, m),
        in_sum(is, m) >= 0,
    decreases is.len(),
{
    if is.len() > 0 {
        lemma_in_sum_prefix(is.drop_last(), m, if k < is.len() { k } else { k - 1 });
        if k < is.len() {
            assert(is.take(k) =~= is.drop_last().take(k));
        } else {
            assert(is.take(k) =~= is);
        }
    } else {
        assert(is.take(k) =~= is);
    }
}

/// A prefix of outputs never sums to more than the whole.
pub proof fn lemma_sum_values_prefix(os: Seq<OutputModel>, k: int)
    requires
        0 <= k <= os.len(),
    ensures
        sum_values(os.take(k)) <= sum_values(os),
        sum_values(os) >= 0,
    decreases os.len(),
{
    if os.len() > 0 {
        lemma_sum_values_prefix(os.drop_last(), if k < os.len() { k } else { k - 1 });
        if k < os.len() {
            assert(os.take(k) =~= os.drop_last().take(k));
        } else {
            assert(os.take(k) =~= os);
        }
    } else {
        assert(os.take(k) =~= os);
    }
}

/// The validity verdict on a transaction against a pool: every input
/// resolves, no intra-transaction double spend, every input reaches its
/// output's threshold, both value sums fit 64 bits, the inputs cover the
/// outputs, the outputs are worth something, and the output count stays in
/// 8-bit index range.
pub open spec fn tx_valid(tx: TxModel, m: Map<UTXOModel, OutputModel>) -> bool {
    &&& inputs_resolve(tx, m)
    &&& inputs_distinct(tx)
    &&& sigs_ok(tx, m)
    &&& tx.outputs.len() <= 256
    &&& in_sum(tx.inputs, m) <= u64::MAX
    &&& sum_values(tx.outputs) <= u64::MAX
    &&& sum_values(tx.outputs) <= in_sum(tx.inputs, m)
    &&& sum_values(tx.outputs) > 0
}

/// The pool after the spent keys of `is` are removed.
pub open spec fn remove_inputs(m: Map<UTXOModel, OutputModel>, is: Seq<InputModel>) -> Map<
    UTXOModel,
    OutputModel,
>
    decreases is.len(),
{
    if is.len() == 0 {
        m
    } else {
        remove_inputs(m.remove(input_key(is.first())), is.drop_first())
    }
}

/// The pool after outputs `j..` of a transaction with hash `hash` are added.
pub open spec fn add_outputs(
    m: Map<UTXOModel, OutputModel>,
    hash: Seq<u8>,
    os: Seq<OutputModel>,
    j: nat,
) -> Map<UTXOModel, OutputModel>
    decreases os.len() - j,
{
    if j >= os.len() {
        m
    } else {
        add_outputs(
            m.insert(UTXOModel { tx_hash: hash, output_idx: j as u8 }, os[j as int]),
            hash,
            os,
            j + 1,
        )
    }
}

/// The pool after a transaction is applied.
pub open spec fn apply_tx_spec(m: Map<UTXOModel, OutputModel>, tx: TxModel) -> Map<
    UTXOModel,
    OutputModel,
> {
    add_outputs(remove_inputs(m, tx.inputs), tx.hash, tx.outputs, 0)
}

/// The set of transaction hashes present in a batch.
pub open spec fn batch_hashes(txs: Seq<TxModel>) -> Set<Seq<u8>> {
    Set::new(|h: Seq<u8>| exists|i: int| 0 <= i < txs.len() && (#[trigger] txs[i]).hash == h)
}

/// Whether some input of `tx` references a transaction of the batch.
pub open spec fn refs_batch(tx: TxModel, hs: Set<Seq<u8>>) -> bool {
    exists|i: int| 0 <= i < tx.inputs.len() && hs.contains((#[trigger] tx.inputs[i]).output_tx_hash)
}

/// One wave over a batch, exactly as in the single-signature handler.
pub open spec fn wave_step(
    m: Map<UTXOModel, OutputModel>,
    hs: Set<Seq<u8>>,
    txs: Seq<TxModel>,
    acc: Seq<TxModel>,
    dep: Seq<TxModel>,
) -> (Seq<TxModel>, Seq<TxModel>, Map<UTXOModel, OutputModel>)
    decreases txs.len(),
{
    if txs.len() == 0 {
        (acc, dep, m)
    } else {
        let t = txs.first();
        let rest = txs.drop_first();
        if inputs_resolve(t, m) {
            if tx_valid(t, m) {
                wave_step(apply_tx_spec(m, t), hs, rest, acc.push(t), dep)
            } else {
                wave_step(m, hs, rest, acc, dep)
            }
        } else if refs_batch(t, hs) {
            wave_step(m, hs, rest, acc, dep.push(t))
        } else {
            wave_step(m, hs, rest, acc, dep)
        }
    }
}

/// A wave sorts each transaction into at most one of the two piles.
pub proof fn lemma_wave_step_len(
    m: Map<UTXOModel, OutputModel>,
    hs: Set<Seq<u8>>,
    txs: Seq<TxModel>,
    acc: Seq<TxModel>,
    dep: Seq<TxModel>,
)
    ensures
        wave_step(m, hs, txs, acc, dep).1.len() <= dep.len() + txs.len(),
    decreases txs.len(),
{
    if txs.len() > 0 {
        let t = txs.first();
        let rest = txs.drop_first();
        if inputs_resolve(t, m) {
            if tx_valid(t, m) {
                lemma_wave_step_len(apply_tx_spec(m, t), hs, rest, acc.push(t), dep);
            } else {
                lemma_wave_step_len(m, hs, rest, acc, dep);
            }
        } else if refs_batch(t, hs) {
            lemma_wave_step_len(m, hs, rest, acc, dep.push(t));
        } else {
            lemma_wave_step_len(m, hs, rest, acc, dep);
        }
    }
}

/// The fixed point of the wave loop.
pub open spec fn waves(m: Map<UTXOModel, OutputModel>, txs: Seq<TxModel>, acc: Seq<TxModel>) -> (
    Seq<TxModel>,
    Map<UTXOModel, OutputModel>,
)
    decreases txs.len(),
{
    let r = wave_step(m, batch_hashes(txs), txs, acc, Seq::empty());
    if r.1.len() == 0 {
        (r.0, r.2)
    } else if r.1.len() < txs.len() {
        waves(r.2, r.1, r.0)
    } else {
        (r.0, r.2)
    }
}

/// The set of consumed verifier indices a flag vector describes.
pub open spec fn consumed_set(flags: Seq<bool>) -> Set<int> {
    Set::new(|j: int| 0 <= j < flags.len() && flags[j])
}

/// Counts the signatures of `input` that the greedy matching certifies
/// against the verifiers of `output` over the given message.
fn count_valid_sigs(output: &Output, msg: &Vec<u8>, input: &Input) -> (r: usize)
    ensures
        r as int == greedy_count(output@.verifiers, Set::empty(), msg@, input@.signatures),
{
    let ghost vs = output@.verifiers;
    let ghost sigs = input@.signatures;
    let verifiers = output.verifiers();
    let signatures = input.signatures();
    let mut consumed: Vec<bool> = Vec::new();
    let mut c: usize = 0;
    while c < verifiers.len()
        invariant
            c <= verifiers.len(),
            consumed@.len() == c,
            forall|j: int| 0 <= j < c ==> !(#[trigger] consumed@[j]),
        decreases verifiers.len() - c,
    {
        consumed.push(false);
        c += 1;
    }
    proof {
        assert(consumed_set(consumed@) =~= Set::<int>::empty());
    }
    let mut valid: usize = 0;
    let mut s: usize = 0;
    proof {
        assert(sigs.skip(0) =~= sigs);
    }
    while s < signatures.len()
        invariant
            s <= signatures.len(),
            valid <= s,
            vs == output@.verifiers,
            sigs == input@.signatures,
            verifiers@.len() == vs.len(),
            signatures@.len() == sigs.len(),
            verifier_views_agree(verifiers@, vs),
            sig_views_agree(signatures@, sigs),
            consumed@.len() == vs.len(),
            valid as int + greedy_count(vs, consumed_set(consumed@), msg@, sigs.skip(s as int))
                == greedy_count(vs, Set::empty(), msg@, sigs),
        decreases signatures.len() - s,
    {
        let ghost cset = consumed_set(consumed@);
        proof {
            assert(sigs.skip(s as int).first() == sigs[s as int]);
            assert(sigs.skip(s as int).drop_first() =~= sigs.skip(s + 1));
            assert(sigs[s as int] == signatures@[s as int]@);
        }
        let sig = &signatures[s];
        let mut j: usize = 0;
        let mut found: Option<usize> = None;
        while j < verifiers.len() && found.is_none()
            invariant
                j <= verifiers.len(),
                vs == output@.verifiers,
                verifiers@.len() == vs.len(),
                verifier_views_agree(verifiers@, vs),
                consumed@.len() == vs.len(),
                s < sigs.len(),
                sig@ == sigs[s as int],
                match found {
                    None => cset == consumed_set(consumed@) && first_free_match(
                        vs,
                        cset,
                        msg@,
                        sigs[s as int],
                        0,
                    ) == first_free_match(vs, cset, msg@, sigs[s as int], j as int),
                    Some(jf) => first_free_match(vs, cset, msg@, sigs[s as int], 0) == Some(
                        jf as int,
                    ) && consumed_set(consumed@) == cset.insert(jf as int),
                },
            decreases verifiers.len() - j,
        {
            proof {
                assert(vs[j as int] == verifiers@[j as int]@);
            }
            if !consumed[j] && rsa_verify(
                verifiers[j].e_bytes(),
                verifiers[j].n_bytes(),
                msg,
                sig,
            ) {
                consumed.set(j, true);
                found = Some(j);
                proof {
                    assert(first_free_match(vs, cset, msg@, sigs[s as int], j as int) == Some(
                        j as int,
                    ));
                    assert(consumed_set(consumed@) =~= cset.insert(j as int));
                }
            } else {
                proof {
                    assert(first_free_match(vs, cset, msg@, sigs[s as int], j as int)
                        == first_free_match(vs, cset, msg@, sigs[s as int], j + 1));
                }
            }
            j += 1;
        }
        match found {
            Some(_) => {
                valid += 1;
            },
            None => {
                proof {
                    assert(first_free_match(vs, cset, msg@, sigs[s as int], 0) is None);
                }
            },
        }
        s += 1;
    }
    proof {
        assert(sigs.skip(sigs.len() as int) =~= Seq::<Seq<u8>>::empty());
    }
    valid
}

/// Pointwise agreement of a verifier vector with its views.
pub open spec fn verifier_views_agree(vs: Seq<crate::key::VerifierKey>, m: Seq<VerifierKeyModel>) -> bool {
    vs.len() == m.len() && forall|i: int| 0 <= i < vs.len() ==> (#[trigger] vs[i])@ == m[i]
}

/// Pointwise agreement of a signature vector with its views.
pub open spec fn sig_views_agree(ss: Seq<Vec<u8>>, m: Seq<Seq<u8>>) -> bool {
    ss.len() == m.len() && forall|i: int| 0 <= i < ss.len() ==> (#[trigger] ss[i])@ == m[i]
}

/// Whether two UTXO key vectors hold a common entry is decided by scanning.
fn contains_key_vec(used: &Vec<UTXO>, utxo: &UTXO) -> (r: bool)
    ensures
        r == exists|j: int| 0 <= j < used@.len() && (#[trigger] used@[j])@ == utxo@,
{
    let mut j: usize = 0;
    while j < used.len()
        invariant
            j <= used.len(),
            forall|k: int| 0 <= k < j ==> (#[trigger] used@[k])@ != utxo@,
        decreases used.len() - j,
    {
        if used[j].key_eq(utxo) {
            return true;
        }
        j += 1;
    }
    false
}

/// The validator: decides `tx_valid` against the given pool.
pub fn is_tx_valid_in(pool: &UTXOPool, tx: &Tx) -> (r: bool)
    requires
        pool.wf(),
    ensures
        r == tx_valid(tx@, pool@),
{
    let inputs = tx.inputs();
    let outputs = tx.outputs();
    if outputs.len() > 256 {
        return false;
    }
    let raw = tx.raw_tx();
    let ghost txm = tx@;
    let ghost m = pool@;
    let mut used: Vec<UTXO> = Vec::new();
    let mut in_total: u64 = 0;
    let mut i: usize = 0;
    while i < inputs.len()
        invariant
            pool.wf(),
            m == pool@,
            txm == tx@,
            raw@ == signing_preimage(txm),
            inputs@.map_values(|x: Input| x@) == txm.inputs,
            inputs.len() == txm.inputs.len(),
            txm.outputs.len() <= 256,
            i <= inputs.len(),
            used@.len() == i,
            forall|k: int| 0 <= k < i ==> (#[trigger] used@[k])@ == input_key(txm.inputs[k]),
            forall|k: int| 0 <= k < i ==> m.contains_key(input_key(#[trigger] txm.inputs[k])),
            forall|k1: int, k2: int|
                0 <= k1 < k2 < i ==> input_key(#[trigger] txm.inputs[k1]) != input_key(
                    #[trigger] txm.inputs[k2],
                ),
            forall|k: int|
                0 <= k < i ==> input_sig_ok(txm, k, m[input_key(#[trigger] txm.inputs[k])]),
            in_total == in_sum(txm.inputs.take(i as int), m),
        decreases inputs.len() - i,
    {
        let input = &inputs[i];
        proof {
            assert(input@ == txm.inputs[i as int]);
        }
        let utxo = UTXO::new(input.output_tx_hash(), input.output_idx());
        proof {
            assert(utxo@ =~= input_key(txm.inputs[i as int]));
        }
        if contains_key_vec(&used, &utxo) {
            proof {
                let j = choose|j: int| 0 <= j < used@.len() && (#[trigger] used@[j])@ == utxo@;
                assert(input_key(txm.inputs[j]) == input_key(txm.inputs[i as int]));
                assert(!inputs_distinct(txm));
            }
            return false;
        }
        let ghost used_prev = used@;
        used.push(utxo);
        proof {
            assert(used@[i as int]@ == input_key(txm.inputs[i as int]));
            assert forall|k: int|
                0 <= k < i implies input_key(#[trigger] txm.inputs[k]) != input_key(
                txm.inputs[i as int],
            ) by {
                assert(used_prev[k]@ == input_key(txm.inputs[k]));
            }
        }
        let output = match pool.utxo_output(&utxo) {
            Some(o) => o,
            None => {
                proof {
                    assert(!inputs_resolve(txm, m));
                }
                return false;
            },
        };
        let valid_sigs = count_valid_sigs(output, &raw, input);
        if valid_sigs < output.threshold() {
            proof {
                assert(!input_sig_ok(txm, i as int, m[input_key(txm.inputs[i as int])]));
                assert(!sigs_ok(txm, m));
            }
            return false;
        }
        let value = output.value();
        if in_total > u64::MAX - (value as u64) {
            proof {
                assert(txm.inputs.take(i + 1).drop_last() =~= txm.inputs.take(i as int));
                assert(txm.inputs.take(i + 1).last() == txm.inputs[i as int]);
                lemma_in_sum_prefix(txm.inputs, m, i + 1);
                assert(in_sum(txm.inputs, m) > u64::MAX);
            }
            return false;
        }
        in_total = in_total + (value as u64);
        proof {
            assert(txm.inputs.take(i + 1).drop_last() =~= txm.inputs.take(i as int));
            assert(txm.inputs.take(i + 1).last() == txm.inputs[i as int]);
        }
        i += 1;
    }
    proof {
        assert(txm.inputs.take(txm.inputs.len() as int) =~= txm.inputs);
        assert(inputs_resolve(txm, m));
        assert(inputs_distinct(txm));
        assert(sigs_ok(txm, m));
    }
    let mut out_total: u64 = 0;
    let mut j: usize = 0;
    while j < outputs.len()
        invariant
            txm == tx@,
            outputs@.map_values(|o: Output| o@) == txm.outputs,
            outputs.len() == txm.outputs.len(),
            j <= outputs.len(),
            out_total == sum_values(txm.outputs.take(j as int)),
        decreases outputs.len() - j,
    {
        let value = outputs[j].value();
        proof {
            assert(outputs@[j as int]@ == txm.outputs[j as int]);
            assert(txm.outputs.take(j + 1).drop_last() =~= txm.outputs.take(j as int));
            assert(txm.outputs.take(j + 1).last() == txm.outputs[j as int]);
        }
        if out_total > u64::MAX - (value as u64) {
            proof {
                lemma_sum_values_prefix(txm.outputs, j + 1);
                assert(sum_values(txm.outputs) > u64::MAX);
            }
            return false;
        }
        out_total = out_total + (value as u64);
        j += 1;
    }
    proof {
        assert(txm.outputs.take(txm.outputs.len() as int) =~= txm.outputs);
    }
    out_total > 0 && in_total >= out_total
}

/// Applies a transaction to the pool: spent keys leave, new outputs enter.
pub fn apply_tx_in(pool: &mut UTXOPool, tx: &Tx)
    requires
        old(pool).wf(),
        tx@.outputs.len() <= 256,
    ensures
        final(pool).wf(),
        final(pool)@ == apply_tx_spec(old(pool)@, tx@),
{
    let ghost txm = tx@;
    let ghost m0 = pool@;
    let inputs = tx.inputs();
    proof {
        assert(txm.inputs.skip(0) =~= txm.inputs);
    }
    let mut i: usize = 0;
    while i < inputs.len()
        invariant
            pool.wf(),
            txm == tx@,
            inputs@.map_values(|x: Input| x@) == txm.inputs,
            inputs.len() == txm.inputs.len(),
            i <= inputs.len(),
            remove_inputs(pool@, txm.inputs.skip(i as int)) == remove_inputs(m0, txm.inputs),
        decreases inputs.len() - i,
    {
        let input = &inputs[i];
        proof {
            assert(input@ == txm.inputs[i as int]);
        }
        let utxo = UTXO::new(input.output_tx_hash(), input.output_idx());
        proof {
            assert(utxo@ =~= input_key(txm.inputs[i as int]));
            assert(txm.inputs.skip(i as int).first() == txm.inputs[i as int]);
            assert(txm.inputs.skip(i as int).drop_first() =~= txm.inputs.skip(i + 1));
        }
        pool.remove_utxo(&utxo);
        i += 1;
    }
    proof {
        assert(txm.inputs.skip(txm.inputs.len() as int) =~= Seq::<InputModel>::empty());
        assert(pool@ == remove_inputs(m0, txm.inputs));
    }
    let ghost m1 = pool@;
    let outputs = tx.outputs();
    let hash = tx.hash();
    let mut j: usize = 0;
    while j < outputs.len()
        invariant
            pool.wf(),
            txm == tx@,
            hash@ == txm.hash,
            outputs@.map_values(|o: Output| o@) == txm.outputs,
            outputs.len() == txm.outputs.len(),
            txm.outputs.len() <= 256,
            j <= outputs.len(),
            add_outputs(pool@, txm.hash, txm.outputs, j as nat) == add_outputs(
                m1,
                txm.hash,
                txm.outputs,
                0,
            ),
        decreases outputs.len() - j,
    {
        let utxo = UTXO::new(hash, j as u8);
        proof {
            assert(outputs@[j as int]@ == txm.outputs[j as int]);
            assert(utxo@ =~= (UTXOModel { tx_hash: txm.hash, output_idx: j as u8 }));
        }
        pool.add_utxo(utxo, &outputs[j]);
        j += 1;
    }
}

/// Views of a sequence of transaction references.
pub open spec fn tx_views(ts: Seq<&Tx>) -> Seq<TxModel> {
    ts.map_values(|t: &Tx| t@)
}

/// Every input of `tx` resolves in the pool.
fn all_inputs_in(pool: &UTXOPool, tx: &Tx) -> (r: bool)
    ensures
        r == inputs_resolve(tx@, pool@),
{
    let inputs = tx.inputs();
    let mut i: usize = 0;
    while i < inputs.len()
        invariant
            i <= inputs.len(),
            inputs@.map_values(|x: Input| x@) == tx@.inputs,
            inputs.len() == tx@.inputs.len(),
            forall|k: int|
                0 <= k < i ==> pool@.contains_key(input_key(#[trigger] tx@.inputs[k])),
        decreases inputs.len() - i,
    {
        let input = &inputs[i];
        proof {
            assert(input@ == tx@.inputs[i as int]);
        }
        let utxo = UTXO::new(input.output_tx_hash(), input.output_idx());
        proof {
            assert(utxo@ =~= input_key(tx@.inputs[i as int]));
        }
        if !pool.contains(&utxo) {
            return false;
        }
        i += 1;
    }
    true
}

/// Whether a batch hash list holds the given digest.
fn contains_hash(hashes: &Vec<[u8; 32]>, h: &[u8; 32]) -> (r: bool)
    ensures
        r == exists|j: int| 0 <= j < hashes@.len() && (#[trigger] hashes@[j])@ == h@,
{
    let mut j: usize = 0;
    while j < hashes.len()
        invariant
            j <= hashes.len(),
            forall|k: int| 0 <= k < j ==> (#[trigger] hashes@[k])@ != h@,
        decreases hashes.len() - j,
    {
        if crate::bytes::digest_eq(&hashes[j], h) {
            return true;
        }
        j += 1;
    }
    false
}

/// Whether some input of `tx` refers to a hash of the list.
fn refs_hashes(hashes: &Vec<[u8; 32]>, tx: &Tx, Ghost(hs): Ghost<Set<Seq<u8>>>) -> (r: bool)
    requires
        forall|h: Seq<u8>|
            hs.contains(h) <==> exists|j: int| 0 <= j < hashes@.len() && (#[trigger] hashes@[j])@
                == h,
    ensures
        r == refs_batch(tx@, hs),
{
    let inputs = tx.inputs();
    let mut i: usize = 0;
    while i < inputs.len()
        invariant
            i <= inputs.len(),
            inputs@.map_values(|x: Input| x@) == tx@.inputs,
            inputs.len() == tx@.inputs.len(),
            forall|h: Seq<u8>|
                hs.contains(h) <==> exists|j: int| 0 <= j < hashes@.len() && (#[trigger] hashes@[j])@
                    == h,
            forall|k: int|
                0 <= k < i ==> !hs.contains((#[trigger] tx@.inputs[k]).output_tx_hash),
        decreases inputs.len() - i,
    {
        let input = &inputs[i];
        proof {
            assert(input@ == tx@.inputs[i as int]);
        }
        let h = input.output_tx_hash();
        if contains_hash(hashes, &h) {
            proof {
                assert(hs.contains(tx@.inputs[i as int].output_tx_hash));
            }
            return true;
        }
        i += 1;
    }
    false
}

/// Accumulators distribute over a wave.
pub proof fn lemma_wave_step_acc(
    m: Map<UTXOModel, OutputModel>,
    hs: Set<Seq<u8>>,
    txs: Seq<TxModel>,
    acc: Seq<TxModel>,
    dep: Seq<TxModel>,
)
    ensures
        ({
            let base = wave_step(m, hs, txs, Seq::empty(), Seq::empty());
            wave_step(m, hs, txs, acc, dep) == (acc + base.0, dep + base.1, base.2)
        }),
    decreases txs.len(),
{
    let base = wave_step(m, hs, txs, Seq::empty(), Seq::empty());
    if txs.len() == 0 {
        assert(acc + base.0 =~= acc);
        assert(dep + base.1 =~= dep);
    } else {
        let t = txs.first();
        let rest = txs.drop_first();
        if inputs_resolve(t, m) {
            if tx_valid(t, m) {
                let m2 = apply_tx_spec(m, t);
                lemma_wave_step_acc(m2, hs, rest, acc.push(t), dep);
                lemma_wave_step_acc(m2, hs, rest, Seq::empty().push(t), Seq::empty());
                let inner = wave_step(m2, hs, rest, Seq::empty(), Seq::empty());
                assert(acc.push(t) + inner.0 =~= acc + (Seq::empty().push(t) + inner.0));
                assert(dep + inner.1 =~= dep + inner.1);
            } else {
                lemma_wave_step_acc(m, hs, rest, acc, dep);
            }
        } else if refs_batch(t, hs) {
            lemma_wave_step_acc(m, hs, rest, acc, dep.push(t));
            lemma_wave_step_acc(m, hs, rest, Seq::empty(), Seq::empty().push(t));
            let inner = wave_step(m, hs, rest, Seq::empty(), Seq::empty());
            assert(dep.push(t) + inner.1 =~= dep + (Seq::empty().push(t) + inner.1));
        } else {
            lemma_wave_step_acc(m, hs, rest, acc, dep);
        }
    }
}

/// One wave over a vector of candidates.
fn handle_independent_in<'a>(pool: &mut UTXOPool, txs: Vec<&'a Tx>) -> (r: (
    Vec<&'a Tx>,
    Vec<&'a Tx>,
))
    requires
        old(pool).wf(),
    ensures
        final(pool).wf(),
        ({
            let step = wave_step(
                old(pool)@,
                batch_hashes(tx_views(txs@)),
                tx_views(txs@),
                Seq::empty(),
                Seq::empty(),
            );
            &&& tx_views(r.0@) == step.0
            &&& tx_views(r.1@) == step.1
            &&& final(pool)@ == step.2
        }),
{
    let ghost views = tx_views(txs@);
    let ghost m0 = pool@;
    let mut hashes: Vec<[u8; 32]> = Vec::new();
    let mut i: usize = 0;
    while i < txs.len()
        invariant
            i <= txs.len(),
            views == tx_views(txs@),
            hashes@.len() == i,
            forall|k: int| 0 <= k < i ==> (#[trigger] hashes@[k])@ == views[k].hash,
        decreases txs.len() - i,
    {
        hashes.push(txs[i].hash());
        proof {
            assert(views[i as int] == txs@[i as int]@);
        }
        i += 1;
    }
    let ghost hs = batch_hashes(views);
    proof {
        assert forall|h: Seq<u8>|
            hs.contains(h) <==> exists|j: int| 0 <= j < hashes@.len() && (#[trigger] hashes@[j])@
                == h by {
            if hs.contains(h) {
                let j = choose|j: int| 0 <= j < views.len() && (#[trigger] views[j]).hash == h;
                assert(hashes@[j]@ == h);
            }
            if exists|j: int| 0 <= j < hashes@.len() && (#[trigger] hashes@[j])@ == h {
                let j = choose|j: int| 0 <= j < hashes@.len() && (#[trigger] hashes@[j])@ == h;
                assert(views[j].hash == h);
            }
        }
    }
    let mut handled: Vec<&'a Tx> = Vec::new();
    let mut dependent: Vec<&'a Tx> = Vec::new();
    proof {
        assert(views.skip(0) =~= views);
        assert(tx_views(handled@) =~= Seq::<TxModel>::empty());
        assert(tx_views(dependent@) =~= Seq::<TxModel>::empty());
    }
    let mut i: usize = 0;
    while i < txs.len()
        invariant
            pool.wf(),
            views == tx_views(txs@),
            txs@.len() == views.len(),
            i <= txs.len(),
            forall|h: Seq<u8>|
                hs.contains(h) <==> exists|j: int| 0 <= j < hashes@.len() && (#[trigger] hashes@[j])@
                    == h,
            wave_step(pool@, hs, views.skip(i as int), tx_views(handled@), tx_views(dependent@))
                == wave_step(m0, hs, views, Seq::empty(), Seq::empty()),
        decreases txs.len() - i,
    {
        let tx = txs[i];
        proof {
            assert(views[i as int] == txs@[i as int]@);
            assert(views.skip(i as int).first() == views[i as int]);
            assert(views.skip(i as int).drop_first() =~= views.skip(i + 1));
        }
        if all_inputs_in(pool, tx) {
            if is_tx_valid_in(pool, tx) {
                apply_tx_in(pool, tx);
                let ghost hprev = handled@;
                handled.push(tx);
                proof {
                    assert(tx_views(handled@) =~= tx_views(hprev).push(tx@));
                }
            }
        } else if refs_hashes(&hashes, tx, Ghost(hs)) {
            let ghost dprev = dependent@;
            dependent.push(tx);
            proof {
                assert(tx_views(dependent@) =~= tx_views(dprev).push(tx@));
            }
        }
        i += 1;
    }
    proof {
        assert(views.skip(views.len() as int) =~= Seq::<TxModel>::empty());
    }
    (handled, dependent)
}

/// The wave loop over a batch against the given pool; returns the accepted
/// transactions in application order.
#[verifier::loop_isolation(false)]
pub fn handle_in<'a>(pool: &mut UTXOPool, possible_txs: Vec<&'a Tx>) -> (r: Vec<&'a Tx>)
    requires
        old(pool).wf(),
    ensures
        final(pool).wf(),
        ({
            let w = waves(old(pool)@, tx_views(possible_txs@), Seq::empty());
            &&& tx_views(r@) == w.0
            &&& final(pool)@ == w.1
        }),
{
    let ghost m0 = pool@;
    let ghost views0 = tx_views(possible_txs@);
    let mut handled: Vec<&'a Tx> = Vec::new();
    let mut to_handle = possible_txs;
    proof {
        assert(tx_views(handled@) =~= Seq::<TxModel>::empty());
    }
    loop
        invariant
            pool.wf(),
            waves(pool@, tx_views(to_handle@), tx_views(handled@)) == waves(
                m0,
                views0,
                Seq::empty(),
            ),
        decreases tx_views(to_handle@).len(),
    {
        let ghost m_round = pool@;
        let ghost round_views = tx_views(to_handle@);
        let ghost acc_views = tx_views(handled@);
        let n = to_handle.len();
        let (independent, dependent) = handle_independent_in(pool, to_handle);
        proof {
            assert(acc_views + tx_views(independent@).take(0) =~= acc_views);
        }
        let mut k: usize = 0;
        while k < independent.len()
            invariant
                k <= independent.len(),
                tx_views(handled@) == acc_views + tx_views(independent@).take(k as int),
            decreases independent.len() - k,
        {
            let ghost hp = handled@;
            handled.push(independent[k]);
            proof {
                assert(tx_views(handled@) =~= tx_views(hp).push(independent@[k as int]@));
                assert(tx_views(independent@)[k as int] == independent@[k as int]@);
                assert(tx_views(independent@).take(k + 1).drop_last() =~= tx_views(
                    independent@,
                ).take(k as int));
                assert(tx_views(independent@).take(k + 1) =~= tx_views(independent@).take(
                    k as int,
                ).push(independent@[k as int]@));
                assert(tx_views(handled@) =~= acc_views + tx_views(independent@).take(k + 1));
            }
            k += 1;
        }
        let ghost hs_round = batch_hashes(round_views);
        let ghost base = wave_step(m_round, hs_round, round_views, Seq::<TxModel>::empty(), Seq::<
            TxModel,
        >::empty());
        proof {
            assert(tx_views(independent@).take(independent@.len() as int) =~= tx_views(
                independent@,
            ));
            lemma_wave_step_acc(m_round, hs_round, round_views, acc_views, Seq::empty());
            assert(Seq::<TxModel>::empty() + base.1 =~= base.1);
            assert(tx_views(handled@) =~= acc_views + base.0);
            lemma_wave_step_len(m_round, hs_round, round_views, Seq::empty(), Seq::empty());
            assert(wave_step(m_round, hs_round, round_views, acc_views, Seq::empty()) == (
                acc_views + base.0,
                base.1,
                base.2,
            ));
        }
        if dependent.len() == 0 || dependent.len() == n {
            proof {
                assert(tx_views(dependent@).len() == dependent@.len());
                assert(waves(m_round, round_views, acc_views) == (tx_views(handled@), pool@));
            }
            return handled;
        }
        to_handle = dependent;
        proof {
            assert(tx_views(to_handle@).len() < round_views.len());
            assert(waves(pool@, tx_views(to_handle@), tx_views(handled@)) == waves(
                m0,
                views0,
                Seq::empty(),
            ));
        }
    }
}

/// The handler of multi-signature transaction batches.
pub struct Handler {
    pool: UTXOPool,
}

impl Handler {
    /// The pool the handler validates against and updates.
    pub closed spec fn spec_pool(&self) -> UTXOPool {
        self.pool
    }

    /// A handler over the given pool.
    pub fn new(pool: UTXOPool) -> (r: Self)
        ensures
            r.spec_pool() == pool,
    {
        Handler { pool }
    }

    /// Accepts an unordered batch of candidate transactions, applies every
    /// admissible one to the internal pool, and returns them in application
    /// order.
    pub fn handle<'a>(&mut self, possible_txs: Vec<&'a Tx>) -> (r: Vec<&'a Tx>)
        requires
            old(self).spec_pool().wf(),
        ensures
            final(self).spec_pool().wf(),
            ({
                let w = waves(old(self).spec_pool()@, tx_views(possible_txs@), Seq::empty());
                &&& tx_views(r@) == w.0
                &&& final(self).spec_pool()@ == w.1
            }),
    {
        handle_in(&mut self.pool, possible_txs)
    }

    /// Decides `tx_valid` for `tx` against the internal pool.
    pub fn is_tx_valid(&self, tx: &Tx) -> (r: bool)
        requires
            self.spec_pool().wf(),
        ensures
            r == tx_valid(tx@, self.spec_pool()@),
    {
        is_tx_valid_in(&self.pool, tx)
    }

    /// The internal pool, consuming the handler.
    pub fn move_pool(self) -> (r: UTXOPool)
        ensures
            r == self.spec_pool(),
    {
        self.pool
    }
}

/// The pool after a sequence of transactions is applied in order.
pub open spec fn apply_all(m: Map<UTXOModel, OutputModel>, txs: Seq<TxModel>) -> Map<
    UTXOModel,
    OutputModel,
>
    decreases txs.len(),
{
    if txs.len() == 0 {
        m
    } else {
        apply_tx_spec(apply_all(m, txs.drop_last()), txs.last())
    }
}

/// Whether `tx` spends the UTXO `u`.
pub open spec fn spends(tx: TxModel, u: UTXOModel) -> bool {
    exists|i: int| 0 <= i < tx.inputs.len() && input_key(#[trigger] tx.inputs[i]) == u
}

/// A key missing from the pool stays missing under input removal.
proof fn lemma_remove_inputs_mono(m: Map<UTXOModel, OutputModel>, is: Seq<InputModel>, u: UTXOModel)
    requires
        !m.contains_key(u),
    ensures
        !remove_inputs(m, is).contains_key(u),
    decreases is.len(),
{
    if is.len() > 0 {
        lemma_remove_inputs_mono(m.remove(input_key(is.first())), is.drop_first(), u);
    }
}

/// Removing the inputs removes every spent key.
proof fn lemma_remove_inputs_spent(
    m: Map<UTXOModel, OutputModel>,
    is: Seq<InputModel>,
    u: UTXOModel,
)
    requires
        exists|i: int| 0 <= i < is.len() && input_key(#[trigger] is[i]) == u,
    ensures
        !remove_inputs(m, is).contains_key(u),
    decreases is.len(),
{
    let i = choose|i: int| 0 <= i < is.len() && input_key(#[trigger] is[i]) == u;
    if i == 0 {
        lemma_remove_inputs_mono(m.remove(input_key(is.first())), is.drop_first(), u);
    } else {
        assert(input_key(is.drop_first()[i - 1]) == u);
        lemma_remove_inputs_spent(m.remove(input_key(is.first())), is.drop_first(), u);
    }
}

/// Input removal introduces no key.
proof fn lemma_remove_inputs_dom(m: Map<UTXOModel, OutputModel>, is: Seq<InputModel>, u: UTXOModel)
    requires
        remove_inputs(m, is).contains_key(u),
    ensures
        m.contains_key(u),
    decreases is.len(),
{
    if is.len() > 0 {
        lemma_remove_inputs_dom(m.remove(input_key(is.first())), is.drop_first(), u);
    }
}

/// Adding outputs introduces keys under the producing hash alone.
proof fn lemma_add_outputs_dom(
    m: Map<UTXOModel, OutputModel>,
    hash: Seq<u8>,
    os: Seq<OutputModel>,
    j: nat,
    u: UTXOModel,
)
    requires
        add_outputs(m, hash, os, j).contains_key(u),
    ensures
        m.contains_key(u) || u.tx_hash == hash,
    decreases os.len() - j,
{
    if j < os.len() {
        lemma_add_outputs_dom(
            m.insert(UTXOModel { tx_hash: hash, output_idx: j as u8 }, os[j as int]),
            hash,
            os,
            j + 1,
            u,
        );
    }
}

/// Applying a transaction introduces keys under its own hash alone.
pub proof fn lemma_apply_dom(m: Map<UTXOModel, OutputModel>, t: TxModel, u: UTXOModel)
    requires
        apply_tx_spec(m, t).contains_key(u),
    ensures
        m.contains_key(u) || u.tx_hash == t.hash,
{
    lemma_add_outputs_dom(remove_inputs(m, t.inputs), t.hash, t.outputs, 0, u);
    if !m.contains_key(u) && u.tx_hash != t.hash {
        lemma_remove_inputs_dom(m, t.inputs, u);
    }
}

/// A spent key is gone after the spending transaction is applied, unless the
/// transaction's own hash recreates it.
pub proof fn lemma_apply_spent(m: Map<UTXOModel, OutputModel>, t: TxModel, u: UTXOModel)
    requires
        spends(t, u),
        u.tx_hash != t.hash,
    ensures
        !apply_tx_spec(m, t).contains_key(u),
{
    lemma_remove_inputs_spent(m, t.inputs, u);
    if apply_tx_spec(m, t).contains_key(u) {
        lemma_add_outputs_dom(remove_inputs(m, t.inputs), t.hash, t.outputs, 0, u);
    }
}

/// Soundness of one wave.
#[verifier::rlimit(80)]
proof fn lemma_wave_step_sound(
    m0: Map<UTXOModel, OutputModel>,
    m: Map<UTXOModel, OutputModel>,
    hs: Set<Seq<u8>>,
    txs: Seq<TxModel>,
    acc: Seq<TxModel>,
    dep: Seq<TxModel>,
)
    requires
        m == apply_all(m0, acc),
        forall|k: int|
            0 <= k < acc.len() ==> tx_valid(#[trigger] acc[k], apply_all(m0, acc.take(k))),
    ensures
        ({
            let r = wave_step(m, hs, txs, acc, dep);
            &&& r.2 == apply_all(m0, r.0)
            &&& forall|k: int|
                0 <= k < r.0.len() ==> tx_valid(#[trigger] r.0[k], apply_all(m0, r.0.take(k)))
        }),
    decreases txs.len(),
{
    if txs.len() > 0 {
        let t = txs.first();
        let rest = txs.drop_first();
        if inputs_resolve(t, m) {
            if tx_valid(t, m) {
                let acc2 = acc.push(t);
                assert(acc2.drop_last() =~= acc);
                assert(apply_all(m0, acc2) == apply_tx_spec(m, t));
                assert(acc2.take(acc.len() as int) =~= acc);
                assert forall|k: int|
                    0 <= k < acc2.len() implies tx_valid(
                    #[trigger] acc2[k],
                    apply_all(m0, acc2.take(k)),
                ) by {
                    if k < acc.len() {
                        assert(acc2.take(k) =~= acc.take(k));
                        assert(acc2[k] == acc[k]);
                    }
                }
                lemma_wave_step_sound(m0, apply_tx_spec(m, t), hs, rest, acc2, dep);
            } else {
                lemma_wave_step_sound(m0, m, hs, rest, acc, dep);
            }
        } else if refs_batch(t, hs) {
            lemma_wave_step_sound(m0, m, hs, rest, acc, dep.push(t));
        } else {
            lemma_wave_step_sound(m0, m, hs, rest, acc, dep);
        }
    }
}

/// Soundness of the wave loop, relative to a base pool.
proof fn lemma_waves_sound_from(
    m0: Map<UTXOModel, OutputModel>,
    m: Map<UTXOModel, OutputModel>,
    txs: Seq<TxModel>,
    acc: Seq<TxModel>,
)
    requires
        m == apply_all(m0, acc),
        forall|k: int|
            0 <= k < acc.len() ==> tx_valid(#[trigger] acc[k], apply_all(m0, acc.take(k))),
    ensures
        ({
            let w = waves(m, txs, acc);
            &&& w.1 == apply_all(m0, w.0)
            &&& forall|k: int|
                0 <= k < w.0.len() ==> tx_valid(#[trigger] w.0[k], apply_all(m0, w.0.take(k)))
        }),
    decreases txs.len(),
{
    let r = wave_step(m, batch_hashes(txs), txs, acc, Seq::empty());
    lemma_wave_step_sound(m0, m, batch_hashes(txs), txs, acc, Seq::empty());
    if r.1.len() != 0 && r.1.len() < txs.len() {
        lemma_waves_sound_from(m0, r.2, r.1, r.0);
    }
}

/// Law: the wave loop accepts only transactions valid against the pool
/// reached by applying every earlier accepted transaction — each input was
/// present when spent, and the outputs are covered by the inputs' value —
/// and the final pool is the fold of the accepted transactions.
pub proof fn lemma_handle_sound(m: Map<UTXOModel, OutputModel>, txs: Seq<TxModel>)
    ensures
        ({
            let w = waves(m, txs, Seq::empty());
            &&& w.1 == apply_all(m, w.0)
            &&& forall|k: int|
                0 <= k < w.0.len() ==> tx_valid(#[trigger] w.0[k], apply_all(m, w.0.take(k)))
            &&& forall|k: int|
                0 <= k < w.0.len() ==> sum_values((#[trigger] w.0[k]).outputs) <= in_sum(
                    w.0[k].inputs,
                    apply_all(m, w.0.take(k)),
                )
        }),
{
    lemma_waves_sound_from(m, m, txs, Seq::empty());
}

/// No key of the pool carries `h` as its source hash.
pub open spec fn key_hash_fresh(h: Seq<u8>, m: Map<UTXOModel, OutputModel>) -> bool {
    forall|u: UTXOModel| #[trigger] m.contains_key(u) ==> u.tx_hash != h
}

/// Accepted hashes collide with no key of any earlier pool state: the digest
/// behaves injectively over the run.
pub open spec fn fresh_hashes(m: Map<UTXOModel, OutputModel>, acc: Seq<TxModel>) -> bool {
    forall|j: int, k: int|
        0 <= k <= j < acc.len() ==> key_hash_fresh(
            (#[trigger] acc[j]).hash,
            apply_all(m, #[trigger] acc.take(k)),
        )
}

/// A key absent from the pool stays absent while the applied transactions'
/// hashes avoid it.
proof fn lemma_absent_through(
    m0: Map<UTXOModel, OutputModel>,
    acc: Seq<TxModel>,
    u: UTXOModel,
    start: int,
    end: int,
)
    requires
        0 <= start <= end <= acc.len(),
        !apply_all(m0, acc.take(start)).contains_key(u),
        forall|j: int| start <= j < end ==> u.tx_hash != (#[trigger] acc[j]).hash,
    ensures
        !apply_all(m0, acc.take(end)).contains_key(u),
    decreases end - start,
{
    if end > start {
        lemma_absent_through(m0, acc, u, start, end - 1);
        assert(acc.take(end).drop_last() =~= acc.take(end - 1));
        assert(acc.take(end).last() == acc[end - 1]);
        if apply_all(m0, acc.take(end)).contains_key(u) {
            lemma_apply_dom(apply_all(m0, acc.take(end - 1)), acc[end - 1], u);
        }
    }
}

/// Law: no UTXO is spent by two distinct accepted transactions of one run of
/// the wave loop, provided the accepted hashes are fresh (no digest
/// collision recreates a spent key).
pub proof fn lemma_no_double_spend(
    m: Map<UTXOModel, OutputModel>,
    txs: Seq<TxModel>,
    k1: int,
    k2: int,
    u: UTXOModel,
)
    requires
        ({
            let acc = waves(m, txs, Seq::empty()).0;
            &&& 0 <= k1 < k2 < acc.len()
            &&& fresh_hashes(m, acc)
        }),
    ensures
        !(spends(waves(m, txs, Seq::empty()).0[k1], u) && spends(
            waves(m, txs, Seq::empty()).0[k2],
            u,
        )),
{
    let acc = waves(m, txs, Seq::empty()).0;
    if spends(acc[k1], u) && spends(acc[k2], u) {
        lemma_handle_sound(m, txs);
        let p1 = apply_all(m, acc.take(k1));
        // the key was present when the first spender was applied
        let i = choose|i: int|
            0 <= i < acc[k1].inputs.len() && input_key(#[trigger] acc[k1].inputs[i]) == u;
        assert(p1.contains_key(u));
        // freshness: no accepted hash from k1 on matches the key's source hash
        assert forall|j: int| k1 <= j < acc.len() implies u.tx_hash != (#[trigger] acc[j]).hash by {
            assert(key_hash_fresh(acc[j].hash, apply_all(m, acc.take(k1))));
        }
        // applying the first spender removes the key
        assert(acc.take(k1 + 1).drop_last() =~= acc.take(k1));
        assert(acc.take(k1 + 1).last() == acc[k1]);
        lemma_apply_spent(p1, acc[k1], u);
        assert(!apply_all(m, acc.take(k1 + 1)).contains_key(u));
        // and it stays gone up to the second spender
        lemma_absent_through(m, acc, u, k1 + 1, k2);
        // yet the second spender's validity needs it present
        assert(apply_all(m, acc.take(k2)).contains_key(u));
    }
}

/// Law: a UTXO spent by an accepted transaction is absent from every later
/// pool state of the run, the final pool included, under the same freshness
/// of hashes.
pub proof fn lemma_spent_consumed(
    m: Map<UTXOModel, OutputModel>,
    txs: Seq<TxModel>,
    k: int,
    u: UTXOModel,
)
    requires
        ({
            let acc = waves(m, txs, Seq::empty()).0;
            &&& 0 <= k < acc.len()
            &&& spends(acc[k], u)
            &&& fresh_hashes(m, acc)
        }),
    ensures
        forall|j: int|
            k < j <= waves(m, txs, Seq::empty()).0.len() ==> !apply_all(
                m,
                waves(m, txs, Seq::empty()).0.take(j),
            ).contains_key(u),
        !waves(m, txs, Seq::empty()).1.contains_key(u),
{
    let acc = waves(m, txs, Seq::empty()).0;
    lemma_handle_sound(m, txs);
    let pk = apply_all(m, acc.take(k));
    let i = choose|i: int|
        0 <= i < acc[k].inputs.len() && input_key(#[trigger] acc[k].inputs[i]) == u;
    assert(pk.contains_key(u));
    assert forall|j: int| k <= j < acc.len() implies u.tx_hash != (#[trigger] acc[j]).hash by {
        assert(key_hash_fresh(acc[j].hash, apply_all(m, acc.take(k))));
    }
    assert(acc.take(k + 1).drop_last() =~= acc.take(k));
    assert(acc.take(k + 1).last() == acc[k]);
    lemma_apply_spent(pk, acc[k], u);
    assert forall|j: int| k < j <= acc.len() implies !apply_all(m, acc.take(j)).contains_key(
        u,
    ) by {
        lemma_absent_through(m, acc, u, k + 1, j);
    }
    assert(acc.take(acc.len() as int) =~= acc);
}

/// Law: a transaction that was valid against a pool is invalid against the
/// pool it produced, provided it does not spend an output under its own
/// hash.
pub proof fn lemma_revalidation_fails(m: Map<UTXOModel, OutputModel>, t: TxModel)
    requires
        tx_valid(t, m),
        t.inputs.len() > 0,
        forall|i: int|
            0 <= i < t.inputs.len() ==> (#[trigger] t.inputs[i]).output_tx_hash != t.hash,
    ensures
        !tx_valid(t, apply_tx_spec(m, t)),
{
    let u = input_key(t.inputs[0]);
    assert(spends(t, u));
    lemma_apply_spent(m, t, u);
    assert(!inputs_resolve(t, apply_tx_spec(m, t)));
}

} // verus!
