//! Multi-signature transactions: outputs carry an ordered verifier set and a
//! threshold; every input of a finalized transaction carries one signature
//! per signer, each over the whole-transaction signing preimage.
//!
//! The signing preimage serializes every input as `(output_tx_hash,
//! output_idx)` and every output as its value followed by each verifier's
//! exponent and modulus bytes. The transaction hash is the digest of the
//! full encoding, signatures included.

use vstd::prelude::*;

use crate::bytes::{copy_bytes, extend_bytes, extend_digest, u32_be, u32_be_spec};
use crate::crypto::{sha256, sha256_spec, sign};
use crate::key::{VerifierKey, VerifierKeyModel};

verus! {

/// A transaction hash.
pub type TxDigest = [u8; 32];

/// The mathematical content of an input slot awaiting signatures.
#[verifier::ext_equal]
pub struct UnsignedInputModel {
    pub output_tx_hash: Seq<u8>,
    pub output_idx: u8,
}

/// The mathematical content of a signed input.
#[verifier::ext_equal]
pub struct InputModel {
    pub output_tx_hash: Seq<u8>,
    pub output_idx: u8,
    pub signatures: Seq<Seq<u8>>,
}

/// The mathematical content of an output.
#[verifier::ext_equal]
pub struct OutputModel {
    pub value: u32,
    pub verifiers: Seq<VerifierKeyModel>,
    pub threshold: usize,
}

/// The mathematical content of a transaction under construction.
#[verifier::ext_equal]
pub struct UnsignedTxModel {
    pub inputs: Seq<UnsignedInputModel>,
    pub outputs: Seq<OutputModel>,
}

/// The mathematical content of a finalized transaction.
#[verifier::ext_equal]
pub struct TxModel {
    pub hash: Seq<u8>,
    pub inputs: Seq<InputModel>,
    pub outputs: Seq<OutputModel>,
}

/// The concatenated exponent and modulus bytes of a verifier list.
pub open spec fn verifiers_bytes(vs: Seq<VerifierKeyModel>) -> Seq<u8>
    decreases vs.len(),
{
    if vs.len() == 0 {
        Seq::empty()
    } else {
        verifiers_bytes(vs.drop_last()) + vs.last().e + vs.last().n
    }
}

/// The canonical bytes of one output: value, then every verifier in order.
pub open spec fn output_bytes(o: OutputModel) -> Seq<u8> {
    u32_be_spec(o.value) + verifiers_bytes(o.verifiers)
}

/// The canonical bytes of a sequence of outputs, in order.
pub open spec fn outputs_bytes(os: Seq<OutputModel>) -> Seq<u8>
    decreases os.len(),
{
    if os.len() == 0 {
        Seq::empty()
    } else {
        outputs_bytes(os.drop_last()) + output_bytes(os.last())
    }
}

/// The unsigned bytes of one input slot: referenced hash, then index.
pub open spec fn unsigned_input_bytes(h: Seq<u8>, idx: u8) -> Seq<u8> {
    h + seq![idx]
}

/// The unsigned bytes of the input slots of a transaction under construction.
pub open spec fn unsigned_inputs_bytes(is: Seq<UnsignedInputModel>) -> Seq<u8>
    decreases is.len(),
{
    if is.len() == 0 {
        Seq::empty()
    } else {
        unsigned_inputs_bytes(is.drop_last()) + unsigned_input_bytes(
            is.last().output_tx_hash,
            is.last().output_idx,
        )
    }
}

/// The unsigned bytes of the inputs of a finalized transaction: signatures
/// play no part in the signing preimage.
pub open spec fn tx_inputs_unsigned_bytes(is: Seq<InputModel>) -> Seq<u8>
    decreases is.len(),
{
    if is.len() == 0 {
        Seq::empty()
    } else {
        tx_inputs_unsigned_bytes(is.drop_last()) + unsigned_input_bytes(
            is.last().output_tx_hash,
            is.last().output_idx,
        )
    }
}

/// The whole-transaction signing preimage of a finalized transaction.
pub open spec fn signing_preimage(t: TxModel) -> Seq<u8> {
    tx_inputs_unsigned_bytes(t.inputs) + outputs_bytes(t.outputs)
}

/// The concatenated bytes of a signature list.
pub open spec fn sigs_bytes(sigs: Seq<Seq<u8>>) -> Seq<u8>
    decreases sigs.len(),
{
    if sigs.len() == 0 {
        Seq::empty()
    } else {
        sigs_bytes(sigs.drop_last()) + sigs.last()
    }
}

/// The signed bytes of one input: referenced hash, index, signatures.
pub open spec fn signed_input_bytes(i: InputModel) -> Seq<u8> {
    i.output_tx_hash + seq![i.output_idx] + sigs_bytes(i.signatures)
}

/// The signed bytes of the inputs of a finalized transaction.
pub open spec fn signed_inputs_bytes(is: Seq<InputModel>) -> Seq<u8>
    decreases is.len(),
{
    if is.len() == 0 {
        Seq::empty()
    } else {
        signed_inputs_bytes(is.drop_last()) + signed_input_bytes(is.last())
    }
}

/// The full canonical encoding of a finalized transaction, whose digest is
/// the transaction hash.
pub open spec fn raw_signed_bytes(is: Seq<InputModel>, os: Seq<OutputModel>) -> Seq<u8> {
    signed_inputs_bytes(is) + outputs_bytes(os)
}

/// A finalized transaction whose stored hash is the digest of its encoding.
pub open spec fn tx_hash_consistent(t: TxModel) -> bool {
    t.hash == sha256_spec(raw_signed_bytes(t.inputs, t.outputs))
}

/// Law: the hash of a finalized transaction is a function of its content
/// alone — hashing the same inputs and outputs twice yields identical bytes.
pub proof fn lemma_hash_deterministic(a: TxModel, b: TxModel)
    requires
        a.inputs == b.inputs,
        a.outputs == b.outputs,
        tx_hash_consistent(a),
        tx_hash_consistent(b),
    ensures
        a.hash == b.hash,
{
}

/// The view of a signature list.
pub open spec fn sig_views(sigs: Seq<Vec<u8>>) -> Seq<Seq<u8>> {
    sigs.map_values(|v: Vec<u8>| v@)
}

/// Copies a signature list.
fn copy_sigs(sigs: &Vec<Vec<u8>>) -> (r: Vec<Vec<u8>>)
    ensures
        sig_views(r@) == sig_views(sigs@),
{
    let mut r: Vec<Vec<u8>> = Vec::new();
    let mut i: usize = 0;
    proof {
        assert(sig_views(r@) =~= sig_views(sigs@).take(0));
    }
    while i < sigs.len()
        invariant
            i <= sigs.len(),
            sig_views(r@) == sig_views(sigs@).take(i as int),
        decreases sigs.len() - i,
    {
        let ghost rp = r@;
        r.push(copy_bytes(&sigs[i]));
        proof {
            assert(sig_views(r@) =~= sig_views(rp).push(sigs@[i as int]@));
            assert(sig_views(sigs@).take(i + 1) =~= sig_views(sigs@).take(i as int).push(
                sigs@[i as int]@,
            ));
        }
        i += 1;
    }
    proof {
        assert(sig_views(sigs@).take(sigs@.len() as int) =~= sig_views(sigs@));
    }
    r
}

/// An input slot of a transaction under construction.
pub struct UnsignedInput {
    output_tx_hash: TxDigest,
    output_idx: u8,
}

impl View for UnsignedInput {
    type V = UnsignedInputModel;

    closed spec fn view(&self) -> UnsignedInputModel {
        UnsignedInputModel { output_tx_hash: self.output_tx_hash@, output_idx: self.output_idx }
    }
}

/// A signed input: a reference to an earlier output and the signature list
/// that unlocks it.
pub struct Input {
    output_tx_hash: TxDigest,
    output_idx: u8,
    signatures: Vec<Vec<u8>>,
}

impl View for Input {
    type V = InputModel;

    closed spec fn view(&self) -> InputModel {
        InputModel {
            output_tx_hash: self.output_tx_hash@,
            output_idx: self.output_idx,
            signatures: sig_views(self.signatures@),
        }
    }
}

impl Input {
    /// An input spending output `output_idx` of the transaction with hash
    /// `output_tx_hash`, unlocked by the given signatures.
    pub fn new(output_tx_hash: TxDigest, output_idx: u8, signatures: Vec<Vec<u8>>) -> (r: Self)
        ensures
            r@ == (InputModel {
                output_tx_hash: output_tx_hash@,
                output_idx,
                signatures: sig_views(signatures@),
            }),
    {
        Input { output_tx_hash, output_idx, signatures }
    }

    /// The hash of the transaction whose output this input spends.
    pub fn output_tx_hash(&self) -> (r: [u8; 32])
        ensures
            r@ == self@.output_tx_hash,
    {
        self.output_tx_hash
    }

    /// The index of the spent output within that transaction.
    pub fn output_idx(&self) -> (r: u8)
        ensures
            r == self@.output_idx,
    {
        self.output_idx
    }

    /// The signatures on this input, in signer order.
    pub fn signatures(&self) -> (r: &Vec<Vec<u8>>)
        ensures
            sig_views(r@) == self@.signatures,
    {
        &self.signatures
    }
}

impl Clone for Input {
    fn clone(&self) -> (r: Self)
        ensures
            r@ == self@,
    {
        Input {
            output_tx_hash: self.output_tx_hash,
            output_idx: self.output_idx,
            signatures: copy_sigs(&self.signatures),
        }
    }
}

/// The view of a verifier list.
pub open spec fn verifier_views(vs: Seq<VerifierKey>) -> Seq<VerifierKeyModel> {
    vs.map_values(|v: VerifierKey| v@)
}

/// An output: a value, the ordered verifiers it is locked to, and how many
/// of them must sign to spend it.
pub struct Output {
    value: u32,
    verifiers: Vec<VerifierKey>,
    threshold: usize,
}

impl View for Output {
    type V = OutputModel;

    closed spec fn view(&self) -> OutputModel {
        OutputModel {
            value: self.value,
            verifiers: verifier_views(self.verifiers@),
            threshold: self.threshold,
        }
    }
}

/// Copies a verifier list.
fn copy_verifiers(vs: &Vec<VerifierKey>) -> (r: Vec<VerifierKey>)
    ensures
        verifier_views(r@) == verifier_views(vs@),
{
    let mut r: Vec<VerifierKey> = Vec::new();
    let mut i: usize = 0;
    proof {
        assert(verifier_views(r@) =~= verifier_views(vs@).take(0));
    }
    while i < vs.len()
        invariant
            i <= vs.len(),
            verifier_views(r@) == verifier_views(vs@).take(i as int),
        decreases vs.len() - i,
    {
        let ghost rp = r@;
        r.push(vs[i].clone());
        proof {
            assert(verifier_views(r@) =~= verifier_views(rp).push(vs@[i as int]@));
            assert(verifier_views(vs@).take(i + 1) =~= verifier_views(vs@).take(i as int).push(
                vs@[i as int]@,
            ));
        }
        i += 1;
    }
    proof {
        assert(verifier_views(vs@).take(vs@.len() as int) =~= verifier_views(vs@));
    }
    r
}

impl Output {
    /// A simple output: one verifier, threshold one.
    pub fn new(value: u32, verifier: VerifierKey) -> (r: Self)
        ensures
            r@.value == value,
            r@.verifiers == seq![verifier@],
            r@.threshold == 1usize,
    {
        let mut verifiers: Vec<VerifierKey> = Vec::new();
        verifiers.push(verifier);
        let r = Output { value, verifiers, threshold: 1 };
        proof {
            assert(r@.verifiers =~= seq![r.verifiers@[0]@]);
        }
        r
    }

    /// An output locked to `verifiers` with the given threshold.
    pub fn multisig(value: u32, verifiers: Vec<VerifierKey>, threshold: usize) -> (r: Self)
        ensures
            r@.value == value,
            r@.verifiers == verifier_views(verifiers@),
            r@.threshold == threshold,
    {
        Output { value, verifiers, threshold }
    }

    /// The value of this output.
    pub fn value(&self) -> (r: u32)
        ensures
            r == self@.value,
    {
        self.value
    }

    /// The verifiers, in order.
    pub fn verifiers(&self) -> (r: &Vec<VerifierKey>)
        ensures
            verifier_views(r@) == self@.verifiers,
    {
        &self.verifiers
    }

    /// How many verifiers must sign to spend this output.
    pub fn threshold(&self) -> (r: usize)
        ensures
            r == self@.threshold,
    {
        self.threshold
    }
}

impl Clone for Output {
    fn clone(&self) -> (r: Self)
        ensures
            r@ == self@,
    {
        Output {
            value: self.value,
            verifiers: copy_verifiers(&self.verifiers),
            threshold: self.threshold,
        }
    }
}

/// Appends the canonical bytes of one output.
fn append_output(buf: &mut Vec<u8>, o: &Output)
    ensures
        final(buf)@ == old(buf)@ + output_bytes(o@),
{
    let be = u32_be(o.value);
    extend_bytes(buf, &be);
    let ghost vs = o@.verifiers;
    let ghost mid = buf@;
    let mut j: usize = 0;
    while j < o.verifiers.len()
        invariant
            j <= o.verifiers.len(),
            vs == verifier_views(o.verifiers@),
            o.verifiers@.len() == vs.len(),
            buf@ == mid + verifiers_bytes(vs.take(j as int)),
        decreases o.verifiers.len() - j,
    {
        extend_bytes(buf, o.verifiers[j].e_bytes());
        extend_bytes(buf, o.verifiers[j].n_bytes());
        proof {
            assert(vs[j as int] == o.verifiers@[j as int]@);
            assert(vs.take(j + 1).drop_last() =~= vs.take(j as int));
            assert(vs.take(j + 1).last() == vs[j as int]);
            assert(buf@ =~= mid + verifiers_bytes(vs.take(j + 1)));
        }
        j += 1;
    }
    proof {
        assert(vs.take(vs.len() as int) =~= vs);
        assert(final(buf)@ =~= old(buf)@ + output_bytes(o@));
    }
}

/// Appends the canonical bytes of every output, in order.
fn append_outputs(buf: &mut Vec<u8>, outputs: &Vec<Output>)
    ensures
        final(buf)@ == old(buf)@ + outputs_bytes(outputs@.map_values(|o: Output| o@)),
{
    let ghost orig = buf@;
    let ghost os = outputs@.map_values(|o: Output| o@);
    let mut j: usize = 0;
    while j < outputs.len()
        invariant
            j <= outputs.len(),
            os == outputs@.map_values(|o: Output| o@),
            buf@ == orig + outputs_bytes(os.take(j as int)),
        decreases outputs.len() - j,
    {
        append_output(buf, &outputs[j]);
        proof {
            assert(os.take(j + 1).drop_last() =~= os.take(j as int));
            assert(os.take(j + 1).last() == os[j as int]);
        }
        j += 1;
    }
    proof {
        assert(os.take(os.len() as int) =~= os);
    }
}

/// A structured failure while signing a transaction.
#[derive(Debug)]
pub enum TxError {
    /// The signing primitive failed for the signer at the carried position.
    SigningFailed(usize),
}

/// A transaction under construction: inputs and outputs may still be added.
pub struct UnsignedTx {
    inputs: Vec<UnsignedInput>,
    outputs: Vec<Output>,
}

impl View for UnsignedTx {
    type V = UnsignedTxModel;

    closed spec fn view(&self) -> UnsignedTxModel {
        UnsignedTxModel {
            inputs: self.inputs@.map_values(|i: UnsignedInput| i@),
            outputs: self.outputs@.map_values(|o: Output| o@),
        }
    }
}

impl UnsignedTx {
    /// A transaction with no inputs and no outputs yet.
    pub fn new() -> (r: Self)
        ensures
            r@.inputs.len() == 0,
            r@.outputs.len() == 0,
    {
        let r = UnsignedTx { inputs: Vec::new(), outputs: Vec::new() };
        proof {
            assert(r@.inputs =~= Seq::<UnsignedInputModel>::empty());
            assert(r@.outputs =~= Seq::<OutputModel>::empty());
        }
        r
    }

    /// Appends an input slot for output `output_idx` of the transaction with
    /// hash `output_tx_hash`.
    pub fn add_input(&mut self, output_tx_hash: TxDigest, output_idx: u8)
        ensures
            final(self)@.inputs == old(self)@.inputs.push(
                UnsignedInputModel { output_tx_hash: output_tx_hash@, output_idx },
            ),
            final(self)@.outputs == old(self)@.outputs,
    {
        self.inputs.push(UnsignedInput { output_tx_hash, output_idx });
        proof {
            assert(final(self)@.inputs =~= old(self)@.inputs.push(
                UnsignedInputModel { output_tx_hash: output_tx_hash@, output_idx },
            ));
        }
    }

    /// Appends an output of `value` locked to `verifiers` with the given
    /// threshold.
    pub fn add_output(&mut self, value: u32, verifiers: Vec<&VerifierKey>, threshold: usize)
        ensures
            final(self)@.outputs == old(self)@.outputs.push(
                OutputModel {
                    value,
                    verifiers: verifiers@.map_values(|v: &VerifierKey| v@),
                    threshold,
                },
            ),
            final(self)@.inputs == old(self)@.inputs,
    {
        let mut owned: Vec<VerifierKey> = Vec::new();
        let mut i: usize = 0;
        proof {
            assert(verifier_views(owned@) =~= verifiers@.map_values(|v: &VerifierKey| v@).take(0));
        }
        while i < verifiers.len()
            invariant
                i <= verifiers.len(),
                verifier_views(owned@) == verifiers@.map_values(|v: &VerifierKey| v@).take(
                    i as int,
                ),
            decreases verifiers.len() - i,
        {
            let ghost op = owned@;
            owned.push(verifiers[i].clone());
            proof {
                let vs = verifiers@.map_values(|v: &VerifierKey| v@);
                assert(vs[i as int] == verifiers@[i as int]@);
                assert(verifier_views(owned@) =~= verifier_views(op).push(verifiers@[i as int]@));
                assert(vs.take(i + 1) =~= vs.take(i as int).push(vs[i as int]));
            }
            i += 1;
        }
        proof {
            let vs = verifiers@.map_values(|v: &VerifierKey| v@);
            assert(vs.take(vs.len() as int) =~= vs);
        }
        self.outputs.push(Output { value, verifiers: owned, threshold });
        proof {
            assert(final(self)@.outputs =~= old(self)@.outputs.push(
                OutputModel {
                    value,
                    verifiers: verifiers@.map_values(|v: &VerifierKey| v@),
                    threshold,
                },
            ));
        }
    }

    /// The whole-transaction signing preimage: every input slot, then every
    /// output.
    fn raw_tx(&self) -> (r: Vec<u8>)
        ensures
            r@ == unsigned_inputs_bytes(self@.inputs) + outputs_bytes(self@.outputs),
    {
        let ghost is = self@.inputs;
        let mut buf: Vec<u8> = Vec::new();
        let mut i: usize = 0;
        while i < self.inputs.len()
            invariant
                i <= self.inputs.len(),
                is == self@.inputs,
                self.inputs@.len() == is.len(),
                buf@ == unsigned_inputs_bytes(is.take(i as int)),
            decreases self.inputs.len() - i,
        {
            let input = &self.inputs[i];
            extend_digest(&mut buf, &input.output_tx_hash);
            buf.push(input.output_idx);
            proof {
                assert(input@ == is[i as int]);
                assert(is.take(i + 1).drop_last() =~= is.take(i as int));
                assert(is.take(i + 1).last() == is[i as int]);
                assert(buf@ =~= unsigned_inputs_bytes(is.take(i as int)) + unsigned_input_bytes(
                    is[i as int].output_tx_hash,
                    is[i as int].output_idx,
                ));
            }
            i += 1;
        }
        proof {
            assert(is.take(is.len() as int) =~= is);
        }
        append_outputs(&mut buf, &self.outputs);
        buf
    }

    /// Signs the preimage once with every signer, stores that one signature
    /// list, in signer order, on every input slot, and hashes the full
    /// encoding. Fails when the signing primitive fails for some signer.
    pub fn finalize(self, signers: Vec<&rsa::RsaPrivateKey>) -> (r: Result<Tx, TxError>)
        ensures
            signers@.len() == 0 ==> r is Ok,
            r matches Err(TxError::SigningFailed(j)) ==> j < signers@.len(),
            r matches Ok(tx) ==> {
                &&& tx@.outputs == self@.outputs
                &&& tx@.inputs.len() == self@.inputs.len()
                &&& forall|k: int|
                    0 <= k < tx@.inputs.len() ==> {
                        &&& (#[trigger] tx@.inputs[k]).output_tx_hash
                            == self@.inputs[k].output_tx_hash
                        &&& tx@.inputs[k].output_idx == self@.inputs[k].output_idx
                        &&& tx@.inputs[k].signatures.len() == signers@.len()
                    }
                &&& forall|k: int, l: int|
                    0 <= k < l < tx@.inputs.len() ==> (#[trigger] tx@.inputs[k]).signatures == (
                    #[trigger] tx@.inputs[l]).signatures
                &&& tx_hash_consistent(tx@)
                &&& signing_preimage(tx@) == unsigned_inputs_bytes(self@.inputs) + outputs_bytes(
                    self@.outputs,
                )
            },
    {
        let raw = self.raw_tx();
        let mut signatures: Vec<Vec<u8>> = Vec::new();
        let mut s: usize = 0;
        while s < signers.len()
            invariant
                s <= signers.len(),
                signatures@.len() == s,
            decreases signers.len() - s,
        {
            match sign(signers[s], &raw) {
                Some(signature) => signatures.push(signature),
                None => {
                    return Err(TxError::SigningFailed(s));
                },
            }
            s += 1;
        }
        let mut inputs: Vec<Input> = Vec::new();
        let mut i: usize = 0;
        while i < self.inputs.len()
            invariant
                i <= self.inputs.len(),
                inputs@.len() == i,
                signatures@.len() == signers@.len(),
                forall|k: int|
                    0 <= k < i ==> {
                        &&& (#[trigger] inputs@[k])@.output_tx_hash
                            == self@.inputs[k].output_tx_hash
                        &&& inputs@[k]@.output_idx == self@.inputs[k].output_idx
                        &&& inputs@[k]@.signatures == sig_views(signatures@)
                        &&& inputs@[k]@.signatures.len() == signers@.len()
                    },
            decreases self.inputs.len() - i,
        {
            let slot = &self.inputs[i];
            proof {
                assert(slot@ == self@.inputs[i as int]);
            }
            inputs.push(
                Input {
                    output_tx_hash: slot.output_tx_hash,
                    output_idx: slot.output_idx,
                    signatures: copy_sigs(&signatures),
                },
            );
            i += 1;
        }
        let ghost ivs = inputs@.map_values(|x: Input| x@);
        // the encoding with signatures
        let mut buf: Vec<u8> = Vec::new();
        let mut k: usize = 0;
        while k < inputs.len()
            invariant
                k <= inputs.len(),
                ivs == inputs@.map_values(|x: Input| x@),
                inputs@.len() == ivs.len(),
                buf@ == signed_inputs_bytes(ivs.take(k as int)),
            decreases inputs.len() - k,
        {
            let input = &inputs[k];
            extend_digest(&mut buf, &input.output_tx_hash);
            buf.push(input.output_idx);
            let ghost mid = buf@;
            let mut t: usize = 0;
            while t < input.signatures.len()
                invariant
                    t <= input.signatures.len(),
                    input@ == ivs[k as int],
                    0 <= k < ivs.len(),
                    input.signatures@.len() == ivs[k as int].signatures.len(),
                    buf@ == mid + sigs_bytes(ivs[k as int].signatures.take(t as int)),
                decreases input.signatures.len() - t,
            {
                extend_bytes(&mut buf, &input.signatures[t]);
                proof {
                    let ss = ivs[k as int].signatures;
                    assert(ss[t as int] == input.signatures@[t as int]@);
                    assert(ss.take(t + 1).drop_last() =~= ss.take(t as int));
                    assert(ss.take(t + 1).last() == ss[t as int]);
                    assert(buf@ =~= mid + sigs_bytes(ss.take(t + 1)));
                }
                t += 1;
            }
            proof {
                let ss = ivs[k as int].signatures;
                assert(ss.take(ss.len() as int) =~= ss);
                assert(input@ == ivs[k as int]);
                assert(ivs.take(k + 1).drop_last() =~= ivs.take(k as int));
                assert(ivs.take(k + 1).last() == ivs[k as int]);
                assert(buf@ =~= signed_inputs_bytes(ivs.take(k as int)) + signed_input_bytes(
                    ivs[k as int],
                ));
            }
            k += 1;
        }
        proof {
            assert(ivs.take(ivs.len() as int) =~= ivs);
        }
        append_outputs(&mut buf, &self.outputs);
        let hash = sha256(&buf);
        let r = Tx { hash, inputs, outputs: self.outputs };
        proof {
            assert(r@.inputs == ivs);
            assert(tx_inputs_unsigned_bytes(r@.inputs) =~= unsigned_inputs_bytes(self@.inputs))
                by {
                lemma_unsigned_bytes_agree(r@.inputs, self@.inputs);
            }
            assert forall|k: int, l: int|
                0 <= k < l < r@.inputs.len() implies (#[trigger] r@.inputs[k]).signatures == (
                #[trigger] r@.inputs[l]).signatures by {
                assert(r@.inputs[k].signatures == sig_views(signatures@));
                assert(r@.inputs[l].signatures == sig_views(signatures@));
            }
        }
        Ok(r)
    }
}

/// Inputs with the same references serialize to the same unsigned bytes.
proof fn lemma_unsigned_bytes_agree(a: Seq<InputModel>, b: Seq<UnsignedInputModel>)
    requires
        a.len() == b.len(),
        forall|k: int|
            0 <= k < a.len() ==> (#[trigger] a[k]).output_tx_hash == b[k].output_tx_hash && a[k].output_idx
                == b[k].output_idx,
    ensures
        tx_inputs_unsigned_bytes(a) == unsigned_inputs_bytes(b),
    decreases a.len(),
{
    if a.len() > 0 {
        assert(forall|k: int|
            0 <= k < a.len() - 1 ==> (#[trigger] a.drop_last()[k]) == a[k]);
        assert(forall|k: int|
            0 <= k < b.len() - 1 ==> (#[trigger] b.drop_last()[k]) == b[k]);
        lemma_unsigned_bytes_agree(a.drop_last(), b.drop_last());
    }
}

/// A finalized transaction: its hash is fixed over the signed encoding.
pub struct Tx {
    hash: TxDigest,
    inputs: Vec<Input>,
    outputs: Vec<Output>,
}

impl View for Tx {
    type V = TxModel;

    closed spec fn view(&self) -> TxModel {
        TxModel {
            hash: self.hash@,
            inputs: self.inputs@.map_values(|i: Input| i@),
            outputs: self.outputs@.map_values(|o: Output| o@),
        }
    }
}

impl Tx {
    /// The coinbase transaction: no inputs, a single output of `value`
    /// locked to `address` with the given threshold.
    pub fn coinbase(value: u32, address: Vec<&VerifierKey>, threshold: usize) -> (r: Self)
        ensures
            r@.inputs.len() == 0,
            r@.outputs == seq![
                OutputModel {
                    value,
                    verifiers: address@.map_values(|v: &VerifierKey| v@),
                    threshold,
                },
            ],
            tx_hash_consistent(r@),
    {
        let mut unsigned = UnsignedTx::new();
        unsigned.add_output(value, address, threshold);
        // a coinbase has no inputs, so no signers are needed
        let signers: Vec<&rsa::RsaPrivateKey> = Vec::new();
        let r = match unsigned.finalize(signers) {
            Ok(tx) => tx,
            Err(_) => vstd::pervasive::unreached(),
        };
        proof {
            assert(r@.inputs =~= Seq::<InputModel>::empty());
        }
        r
    }

    /// The transaction hash.
    pub fn hash(&self) -> (r: [u8; 32])
        ensures
            r@ == self@.hash,
    {
        self.hash
    }

    /// The output at `idx`, if it exists.
    pub fn output(&self, idx: u8) -> (r: Option<&Output>)
        ensures
            match r {
                Some(o) => idx < self@.outputs.len() && o@ == self@.outputs[idx as int],
                None => idx >= self@.outputs.len(),
            },
    {
        self.outputs.get(usize::from(idx))
    }

    /// The number of outputs.
    pub fn output_len(&self) -> (r: usize)
        ensures
            r == self@.outputs.len(),
    {
        self.outputs.len()
    }

    /// The inputs, in order.
    pub fn inputs(&self) -> (r: &Vec<Input>)
        ensures
            r@.map_values(|i: Input| i@) == self@.inputs,
    {
        &self.inputs
    }

    /// The outputs, in order.
    pub fn outputs(&self) -> (r: &Vec<Output>)
        ensures
            r@.map_values(|o: Output| o@) == self@.outputs,
    {
        &self.outputs
    }

    /// The whole-transaction signing preimage, as verification recomputes it.
    pub fn raw_tx(&self) -> (r: Vec<u8>)
        ensures
            r@ == signing_preimage(self@),
    {
        let ghost is = self@.inputs;
        let mut buf: Vec<u8> = Vec::new();
        let mut i: usize = 0;
        while i < self.inputs.len()
            invariant
                i <= self.inputs.len(),
                is == self@.inputs,
                self.inputs@.len() == is.len(),
                buf@ == tx_inputs_unsigned_bytes(is.take(i as int)),
            decreases self.inputs.len() - i,
        {
            let input = &self.inputs[i];
            extend_digest(&mut buf, &input.output_tx_hash);
            buf.push(input.output_idx);
            proof {
                assert(input@ == is[i as int]);
                assert(is.take(i + 1).drop_last() =~= is.take(i as int));
                assert(is.take(i + 1).last() == is[i as int]);
                assert(buf@ =~= tx_inputs_unsigned_bytes(is.take(i as int)) + unsigned_input_bytes(
                    is[i as int].output_tx_hash,
                    is[i as int].output_idx,
                ));
            }
            i += 1;
        }
        proof {
            assert(is.take(is.len() as int) =~= is);
        }
        append_outputs(&mut buf, &self.outputs);
        buf
    }
}

impl Clone for Tx {
    fn clone(&self) -> (r: Self)
        ensures
            r@ == self@,
    {
        let mut inputs: Vec<Input> = Vec::new();
        let mut i: usize = 0;
        while i < self.inputs.len()
            invariant
                i <= self.inputs.len(),
                inputs@.len() == i,
                forall|k: int| 0 <= k < i ==> #[trigger] inputs@[k]@ == self.inputs@[k]@,
            decreases self.inputs.len() - i,
        {
            inputs.push(self.inputs[i].clone());
            i += 1;
        }
        let mut outputs: Vec<Output> = Vec::new();
        let mut j: usize = 0;
        while j < self.outputs.len()
            invariant
                j <= self.outputs.len(),
                outputs@.len() == j,
                forall|k: int| 0 <= k < j ==> #[trigger] outputs@[k]@ == self.outputs@[k]@,
            decreases self.outputs.len() - j,
        {
            outputs.push(self.outputs[j].clone());
            j += 1;
        }
        let r = Tx { hash: self.hash, inputs, outputs };
        proof {
            assert(r@.inputs =~= self@.inputs);
            assert(r@.outputs =~= self@.outputs);
            assert(r@ =~= self@);
        }
        r
    }
}

} // verus!
