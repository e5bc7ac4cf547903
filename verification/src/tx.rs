//! Single-signature transactions: inputs, outputs, canonical byte encodings,
//! signing and the finalized (hashed) form.
//!
//! A finalized transaction's hash is the SHA-256 digest of its full encoding,
//! signatures included. Each input is signed separately over a per-input
//! preimage: that input's `(output_tx_hash, output_idx)` followed by every
//! output.

use vstd::prelude::*;

use crate::bytes::{copy_bytes, extend_bytes, extend_digest, u32_be, u32_be_spec};
use crate::crypto::{sha256, sha256_spec, sign};
use crate::key::{VerifierKey, VerifierKeyModel};

verus! {

/// The mathematical content of an input.
#[verifier::ext_equal]
pub struct InputModel {
    pub output_tx_hash: Seq<u8>,
    pub output_idx: u8,
    pub signature: Option<Seq<u8>>,
}

/// The mathematical content of an output.
#[verifier::ext_equal]
pub struct OutputModel {
    pub value: u32,
    pub verifying_key: VerifierKeyModel,
}

/// The mathematical content of a transaction still under construction.
#[verifier::ext_equal]
pub struct UnsignedTxModel {
    pub inputs: Seq<InputModel>,
    pub outputs: Seq<OutputModel>,
}

/// The mathematical content of a finalized transaction.
#[verifier::ext_equal]
pub struct TxModel {
    pub hash: Seq<u8>,
    pub inputs: Seq<InputModel>,
    pub outputs: Seq<OutputModel>,
}

/// The canonical bytes of one output: the value in big-endian, then the
/// verifier's exponent and modulus bytes.
pub open spec fn output_bytes(o: OutputModel) -> Seq<u8> {
    u32_be_spec(o.value) + o.verifying_key.e + o.verifying_key.n
}

/// The canonical bytes of a sequence of outputs, in order.
pub open spec fn outputs_bytes(os: Seq<OutputModel>) -> Seq<u8>
    decreases os.len(),
{
    if os.len() == 0 {
        Seq::empty()
    } else {
        outputs_bytes(os.drop_last()) + output_bytes(os.last())
    }
}

/// The canonical bytes of one signed input: referenced transaction hash,
/// output index, then the signature bytes.
pub open spec fn input_signed_bytes(i: InputModel) -> Seq<u8> {
    i.output_tx_hash + seq![i.output_idx] + (match i.signature {
        Some(s) => s,
        None => Seq::empty(),
    })
}

/// The canonical bytes of a sequence of signed inputs, in order.
pub open spec fn inputs_signed_bytes(is: Seq<InputModel>) -> Seq<u8>
    decreases is.len(),
{
    if is.len() == 0 {
        Seq::empty()
    } else {
        inputs_signed_bytes(is.drop_last()) + input_signed_bytes(is.last())
    }
}

/// Whether every input slot carries a signature.
pub open spec fn all_signed(is: Seq<InputModel>) -> bool {
    forall|k: int| 0 <= k < is.len() ==> is[k].signature is Some
}

/// The full canonical encoding of a finalized transaction: all signed inputs
/// followed by all outputs. Its digest is the transaction hash.
pub open spec fn raw_tx_bytes(is: Seq<InputModel>, os: Seq<OutputModel>) -> Seq<u8> {
    inputs_signed_bytes(is) + outputs_bytes(os)
}

/// The per-input signing preimage: the input's reference, then all outputs.
pub open spec fn one_input_bytes(inp: InputModel, os: Seq<OutputModel>) -> Seq<u8> {
    inp.output_tx_hash + seq![inp.output_idx] + outputs_bytes(os)
}

/// A finalized transaction whose stored hash is the digest of its encoding.
pub open spec fn tx_hash_consistent(t: TxModel) -> bool {
    t.hash == sha256_spec(raw_tx_bytes(t.inputs, t.outputs))
}

/// Law: the hash of a finalized transaction is a function of its content
/// alone — hashing the same inputs and outputs twice yields identical bytes.
pub proof fn lemma_hash_deterministic(a: TxModel, b: TxModel)
    requires
        a.inputs == b.inputs,
        a.outputs == b.outputs,
        tx_hash_consistent(a),
        tx_hash_consistent(b),
    ensures
        a.hash == b.hash,
{
}

/// An input of a transaction: a reference to an earlier output, and the
/// signature that unlocks it once the transaction is signed.
#[derive(Debug)]
pub struct Input {
    output_tx_hash: [u8; 32],
    output_idx: u8,
    signature: Option<Vec<u8>>,
}

impl View for Input {
    type V = InputModel;

    closed spec fn view(&self) -> InputModel {
        InputModel {
            output_tx_hash: self.output_tx_hash@,
            output_idx: self.output_idx,
            signature: match self.signature {
                Some(s) => Some(s@),
                None => None,
            },
        }
    }
}

impl Input {
    /// The hash of the transaction whose output this input spends.
    pub fn output_tx_hash(&self) -> (r: [u8; 32])
        ensures
            r@ == self@.output_tx_hash,
    {
        self.output_tx_hash
    }

    /// The index of the spent output within that transaction.
    pub fn output_idx(&self) -> (r: u8)
        ensures
            r == self@.output_idx,
    {
        self.output_idx
    }

    /// The signature on this input, if the transaction has been signed.
    pub fn signature(&self) -> (r: Option<&Vec<u8>>)
        ensures
            match r {
                Some(s) => self@.signature == Some(s@),
                None => self@.signature is None,
            },
    {
        self.signature.as_ref()
    }
}

impl Clone for Input {
    fn clone(&self) -> (r: Self)
        ensures
            r@ == self@,
    {
        Input {
            output_tx_hash: self.output_tx_hash,
            output_idx: self.output_idx,
            signature: match &self.signature {
                Some(s) => Some(copy_bytes(s)),
                None => None,
            },
        }
    }
}

/// An output: a value and the key that may spend it.
pub struct Output {
    value: u32,
    verifying_key: VerifierKey,
}

impl View for Output {
    type V = OutputModel;

    closed spec fn view(&self) -> OutputModel {
        OutputModel { value: self.value, verifying_key: self.verifying_key@ }
    }
}

impl Output {
    /// The key this output is locked to.
    pub fn verifying_key(&self) -> (r: &VerifierKey)
        ensures
            r@ == self@.verifying_key,
    {
        &self.verifying_key
    }

    /// The value of this output.
    pub fn value(&self) -> (r: u32)
        ensures
            r == self@.value,
    {
        self.value
    }
}

impl Clone for Output {
    fn clone(&self) -> (r: Self)
        ensures
            r@ == self@,
    {
        Output { value: self.value, verifying_key: self.verifying_key.clone() }
    }
}

/// A structured failure while building or encoding a transaction.
#[derive(Debug)]
pub enum TxError {
    /// An input had no signature where one was required; carries the input.
    UnsignedInput(Input),
    /// An index and the bound it violated.
    InputIndexOutOfBounds(usize, usize),
    /// A position too large to be an 8-bit output index.
    DownCastFromUsize(usize),
    /// The signing primitive failed on the input at the carried position.
    SigningFailed(usize),
}

/// A transaction under construction: inputs and outputs may still be added
/// and no hash has been fixed yet.
pub struct UnsignedTx {
    inputs: Vec<Input>,
    outputs: Vec<Output>,
}

impl View for UnsignedTx {
    type V = UnsignedTxModel;

    closed spec fn view(&self) -> UnsignedTxModel {
        UnsignedTxModel {
            inputs: self.inputs@.map_values(|i: Input| i@),
            outputs: self.outputs@.map_values(|o: Output| o@),
        }
    }
}

/// Appends the canonical bytes of one output.
fn append_output(buf: &mut Vec<u8>, o: &Output)
    ensures
        final(buf)@ == old(buf)@ + output_bytes(o@),
{
    let be = u32_be(o.value);
    extend_bytes(buf, &be);
    extend_bytes(buf, o.verifying_key.e_bytes());
    extend_bytes(buf, o.verifying_key.n_bytes());
    proof {
        assert(final(buf)@ =~= old(buf)@ + output_bytes(o@));
    }
}

/// Appends the canonical bytes of every output, in order.
fn append_outputs(buf: &mut Vec<u8>, outputs: &Vec<Output>)
    ensures
        final(buf)@ == old(buf)@ + outputs_bytes(outputs@.map_values(|o: Output| o@)),
{
    let ghost orig = buf@;
    let ghost os = outputs@.map_values(|o: Output| o@);
    let mut j: usize = 0;
    while j < outputs.len()
        invariant
            j <= outputs.len(),
            os == outputs@.map_values(|o: Output| o@),
            buf@ == orig + outputs_bytes(os.take(j as int)),
        decreases outputs.len() - j,
    {
        append_output(buf, &outputs[j]);
        proof {
            assert(os.take(j + 1).drop_last() =~= os.take(j as int));
            assert(os.take(j + 1).last() == os[j as int]);
        }
        j += 1;
    }
    proof {
        assert(os.take(os.len() as int) =~= os);
    }
}

/// The canonical byte encoding of a signed transaction: every input with its
/// signature, then every output. Fails on the first unsigned input.
pub fn raw_tx(inputs: &Vec<Input>, outputs: &Vec<Output>) -> (r: Result<Vec<u8>, TxError>)
    ensures
        all_signed(inputs@.map_values(|i: Input| i@)) ==> (r matches Ok(b) && b@ == raw_tx_bytes(
            inputs@.map_values(|i: Input| i@),
            outputs@.map_values(|o: Output| o@),
        )),
        !all_signed(inputs@.map_values(|i: Input| i@)) ==> (r matches Err(
            TxError::UnsignedInput(inp),
        ) && exists|k: int|
            0 <= k < inputs@.len() && (#[trigger] inputs@[k])@.signature is None && inp@
                == inputs@[k]@),
{
    let ghost is = inputs@.map_values(|i: Input| i@);
    let ghost os = outputs@.map_values(|o: Output| o@);
    let mut buf: Vec<u8> = Vec::new();
    let mut i: usize = 0;
    while i < inputs.len()
        invariant
            i <= inputs.len(),
            is == inputs@.map_values(|i: Input| i@),
            os == outputs@.map_values(|o: Output| o@),
            forall|j: int| 0 <= j < i ==> is[j].signature is Some,
            buf@ == inputs_signed_bytes(is.take(i as int)),
        decreases inputs.len() - i,
    {
        let input = &inputs[i];
        match &input.signature {
            Some(sig) => {
                extend_digest(&mut buf, &input.output_tx_hash);
                buf.push(input.output_idx);
                extend_bytes(&mut buf, sig);
                proof {
                    assert(is.take(i + 1).drop_last() =~= is.take(i as int));
                    assert(is.take(i + 1).last() == is[i as int]);
                    assert(buf@ =~= inputs_signed_bytes(is.take(i as int)) + input_signed_bytes(
                        is[i as int],
                    ));
                }
            },
            None => {
                return Err(TxError::UnsignedInput(input.clone()));
            },
        }
        i += 1;
    }
    proof {
        assert(is.take(is.len() as int) =~= is);
    }
    append_outputs(&mut buf, outputs);
    Ok(buf)
}

/// The per-input signing preimage: input `idx`'s reference followed by all
/// outputs. Fails when `idx` is out of bounds.
pub fn raw_tx_from_one_input(inputs: &Vec<Input>, outputs: &Vec<Output>, idx: u8) -> (r: Result<
    Vec<u8>,
    TxError,
>)
    ensures
        idx < inputs@.len() ==> (r matches Ok(b) && b@ == one_input_bytes(
            inputs@.map_values(|i: Input| i@)[idx as int],
            outputs@.map_values(|o: Output| o@),
        )),
        idx >= inputs@.len() ==> (r matches Err(TxError::InputIndexOutOfBounds(got, len)) && got
            == idx as usize && len == inputs@.len()),
{
    if usize::from(idx) >= inputs.len() {
        return Err(TxError::InputIndexOutOfBounds(usize::from(idx), inputs.len()));
    }
    let input = &inputs[usize::from(idx)];
    let mut buf: Vec<u8> = Vec::new();
    extend_digest(&mut buf, &input.output_tx_hash);
    buf.push(input.output_idx);
    append_outputs(&mut buf, outputs);
    proof {
        assert(buf@ =~= one_input_bytes(
            inputs@.map_values(|i: Input| i@)[idx as int],
            outputs@.map_values(|o: Output| o@),
        ));
    }
    Ok(buf)
}

impl UnsignedTx {
    /// A transaction with no inputs and no outputs yet.
    pub fn new() -> (r: Self)
        ensures
            r@.inputs.len() == 0,
            r@.outputs.len() == 0,
    {
        let r = UnsignedTx { inputs: Vec::new(), outputs: Vec::new() };
        proof {
            assert(r@.inputs =~= Seq::<InputModel>::empty());
            assert(r@.outputs =~= Seq::<OutputModel>::empty());
        }
        r
    }

    /// Appends an unsigned input referring to output `output_idx` of the
    /// transaction with hash `output_tx_hash`.
    pub fn add_input(&mut self, output_tx_hash: [u8; 32], output_idx: u8)
        ensures
            final(self)@.inputs == old(self)@.inputs.push(
                InputModel { output_tx_hash: output_tx_hash@, output_idx, signature: None },
            ),
            final(self)@.outputs == old(self)@.outputs,
    {
        self.inputs.push(Input { output_tx_hash, output_idx, signature: None });
        proof {
            assert(final(self)@.inputs =~= old(self)@.inputs.push(
                InputModel { output_tx_hash: output_tx_hash@, output_idx, signature: None },
            ));
        }
    }

    /// Appends an output of `value` locked to the given key.
    pub fn add_output(&mut self, value: u32, receiver_verifying_key: &VerifierKey)
        ensures
            final(self)@.outputs == old(self)@.outputs.push(
                OutputModel { value, verifying_key: receiver_verifying_key@ },
            ),
            final(self)@.inputs == old(self)@.inputs,
    {
        self.outputs.push(Output { value, verifying_key: receiver_verifying_key.clone() });
        proof {
            assert(final(self)@.outputs =~= old(self)@.outputs.push(
                OutputModel { value, verifying_key: receiver_verifying_key@ },
            ));
        }
    }

    /// Signs every input with the sender's key over its per-input preimage,
    /// then finalizes. Fails when an input position cannot be an 8-bit index,
    /// or when the signing primitive itself fails on some input.
    pub fn sing_inputs_and_finalize(self, sender_sk: &rsa::RsaPrivateKey) -> (r: Result<
        Tx,
        TxError,
    >)
        ensures
            self@.inputs.len() > 256 ==> (r matches Err(TxError::DownCastFromUsize(k)) && k
                == 256),
            self@.inputs.len() <= 256 ==> (r is Ok || (r matches Err(TxError::SigningFailed(i))
                && i < self@.inputs.len())),
            r matches Ok(tx) ==> {
                &&& tx@.outputs == self@.outputs
                &&& tx@.inputs.len() == self@.inputs.len()
                &&& forall|k: int|
                    0 <= k < tx@.inputs.len() ==> {
                        &&& tx@.inputs[k].output_tx_hash == self@.inputs[k].output_tx_hash
                        &&& tx@.inputs[k].output_idx == self@.inputs[k].output_idx
                        &&& tx@.inputs[k].signature is Some
                    }
                &&& tx@.hash == sha256_spec(raw_tx_bytes(tx@.inputs, tx@.outputs))
            },
    {
        if self.inputs.len() > 256 {
            return Err(TxError::DownCastFromUsize(256));
        }
        let mut signed: Vec<Input> = Vec::new();
        let mut i: usize = 0;
        while i < self.inputs.len()
            invariant
                i <= self.inputs.len(),
                self.inputs.len() <= 256,
                signed@.len() == i,
                forall|k: int|
                    0 <= k < i ==> {
                        &&& #[trigger] signed@[k]@.output_tx_hash == self@.inputs[k].output_tx_hash
                        &&& signed@[k]@.output_idx == self@.inputs[k].output_idx
                        &&& signed@[k]@.signature is Some
                    },
            decreases self.inputs.len() - i,
        {
            let raw = match raw_tx_from_one_input(&self.inputs, &self.outputs, i as u8) {
                Ok(raw) => raw,
                Err(e) => {
                    return Err(e);
                },
            };
            let signature = match sign(sender_sk, &raw) {
                Some(s) => s,
                None => {
                    return Err(TxError::SigningFailed(i));
                },
            };
            let input = &self.inputs[i];
            signed.push(
                Input {
                    output_tx_hash: input.output_tx_hash,
                    output_idx: input.output_idx,
                    signature: Some(signature),
                },
            );
            i += 1;
        }
        let with_signatures = UnsignedTx { inputs: signed, outputs: self.outputs };
        proof {
            assert(with_signatures@.outputs == self@.outputs);
            assert forall|k: int|
                0 <= k < with_signatures@.inputs.len() implies (#[trigger] with_signatures@.inputs[k]).signature
                is Some by {
                assert(with_signatures@.inputs[k] == signed@[k]@);
                assert(signed@[k]@.output_tx_hash == self@.inputs[k].output_tx_hash);
            }
            assert(all_signed(with_signatures@.inputs));
        }
        with_signatures.finalize()
    }

    /// Hashes the canonical encoding and fixes it as the transaction hash.
    /// Fails when some input is still unsigned.
    pub fn finalize(self) -> (r: Result<Tx, TxError>)
        ensures
            all_signed(self@.inputs) ==> (r matches Ok(tx) && {
                &&& tx@.inputs == self@.inputs
                &&& tx@.outputs == self@.outputs
                &&& tx@.hash == sha256_spec(raw_tx_bytes(self@.inputs, self@.outputs))
                &&& tx_hash_consistent(tx@)
            }),
            !all_signed(self@.inputs) ==> (r matches Err(TxError::UnsignedInput(_))),
    {
        let tx_bytes = match raw_tx(&self.inputs, &self.outputs) {
            Ok(b) => b,
            Err(e) => {
                return Err(e);
            },
        };
        let hash = sha256(&tx_bytes);
        Ok(Tx { hash, inputs: self.inputs, outputs: self.outputs })
    }
}

/// A finalized transaction: its hash is fixed over the signed encoding.
pub struct Tx {
    hash: [u8; 32],
    inputs: Vec<Input>,
    outputs: Vec<Output>,
}

impl View for Tx {
    type V = TxModel;

    closed spec fn view(&self) -> TxModel {
        TxModel {
            hash: self.hash@,
            inputs: self.inputs@.map_values(|i: Input| i@),
            outputs: self.outputs@.map_values(|o: Output| o@),
        }
    }
}

impl Tx {
    /// The coinbase transaction: no inputs, a single output of `value`
    /// credited to `address`.
    pub fn coinbase(value: u32, address: &VerifierKey) -> (r: Self)
        ensures
            r@.inputs.len() == 0,
            r@.outputs == seq![OutputModel { value, verifying_key: address@ }],
            tx_hash_consistent(r@),
    {
        let mut unsigned = UnsignedTx::new();
        unsigned.add_output(value, address);
        proof {
            assert(unsigned@.outputs =~= seq![OutputModel { value, verifying_key: address@ }]);
        }
        // a coinbase has no inputs, so nothing needs a signature
        match unsigned.finalize() {
            Ok(tx) => tx,
            Err(_) => vstd::pervasive::unreached(),
        }
    }

    /// The transaction hash.
    pub fn hash(&self) -> (r: [u8; 32])
        ensures
            r@ == self@.hash,
    {
        self.hash
    }

    /// The output at `idx`, if it exists.
    pub fn output(&self, idx: u8) -> (r: Option<&Output>)
        ensures
            match r {
                Some(o) => idx < self@.outputs.len() && o@ == self@.outputs[idx as int],
                None => idx >= self@.outputs.len(),
            },
    {
        self.outputs.get(usize::from(idx))
    }

    /// The number of outputs.
    pub fn output_len(&self) -> (r: usize)
        ensures
            r == self@.outputs.len(),
    {
        self.outputs.len()
    }

    /// The inputs, in order.
    pub fn inputs(&self) -> (r: &Vec<Input>)
        ensures
            r@.map_values(|i: Input| i@) == self@.inputs,
    {
        &self.inputs
    }

    /// The outputs, in order.
    pub fn outputs(&self) -> (r: &Vec<Output>)
        ensures
            r@.map_values(|o: Output| o@) == self@.outputs,
    {
        &self.outputs
    }

    /// Overwrites the signature on input `idx` without re-hashing; this
    /// deliberately desynchronizes hash and content and exists for tests.
    pub fn force_signature_on_input(&mut self, idx: u8, signature: Vec<u8>)
        requires
            idx < old(self)@.inputs.len(),
        ensures
            final(self)@.hash == old(self)@.hash,
            final(self)@.outputs == old(self)@.outputs,
            final(self)@.inputs == old(self)@.inputs.update(
                idx as int,
                InputModel {
                    output_tx_hash: old(self)@.inputs[idx as int].output_tx_hash,
                    output_idx: old(self)@.inputs[idx as int].output_idx,
                    signature: Some(signature@),
                },
            ),
    {
        let i = usize::from(idx);
        let updated = Input {
            output_tx_hash: self.inputs[i].output_tx_hash,
            output_idx: self.inputs[i].output_idx,
            signature: Some(signature),
        };
        self.inputs.set(i, updated);
        proof {
            assert(final(self)@.inputs =~= old(self)@.inputs.update(
                idx as int,
                InputModel {
                    output_tx_hash: old(self)@.inputs[idx as int].output_tx_hash,
                    output_idx: old(self)@.inputs[idx as int].output_idx,
                    signature: Some(signature@),
                },
            ));
        }
    }
}

impl Clone for Tx {
    fn clone(&self) -> (r: Self)
        ensures
            r@ == self@,
    {
        let mut inputs: Vec<Input> = Vec::new();
        let mut i: usize = 0;
        while i < self.inputs.len()
            invariant
                i <= self.inputs.len(),
                inputs@.len() == i,
                forall|k: int| 0 <= k < i ==> #[trigger] inputs@[k]@ == self.inputs@[k]@,
            decreases self.inputs.len() - i,
        {
            inputs.push(self.inputs[i].clone());
            i += 1;
        }
        let mut outputs: Vec<Output> = Vec::new();
        let mut j: usize = 0;
        while j < self.outputs.len()
            invariant
                j <= self.outputs.len(),
                outputs@.len() == j,
                forall|k: int| 0 <= k < j ==> #[trigger] outputs@[k]@ == self.outputs@[k]@,
            decreases self.outputs.len() - j,
        {
            outputs.push(self.outputs[j].clone());
            j += 1;
        }
        let r = Tx { hash: self.hash, inputs, outputs };
        proof {
            assert(r@.inputs =~= self@.inputs);
            assert(r@.outputs =~= self@.outputs);
            assert(r@ =~= self@);
        }
        r
    }
}

} // verus!
