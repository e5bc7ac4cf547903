use fiitcoin::handler::{Handler, TxHandler};
use fiitcoin::key::VerifierKey;
use fiitcoin::tx::{raw_tx, Tx, UnsignedTx};
use fiitcoin::utxo::{UTXO, UTXOPool};
use rsa::signature::{SignatureEncoding, Signer};
use rsa::traits::PublicKeyParts;
use rand::SeedableRng;
use std::sync::atomic::{AtomicU64, Ordering};

const OUTPUT_VALUE: u32 = 100;

struct Participant {
    sk: rsa::RsaPrivateKey,
    vk: VerifierKey,
}

// Keys come from a fixed seed sequence, so every run of a test generates
// the same keys: the outcomes and the running time are reproducible.
static KEY_SEED: AtomicU64 = AtomicU64::new(1);

fn participant() -> Participant {
    let seed = KEY_SEED.fetch_add(1, Ordering::Relaxed);
    let mut rng = rand::rngs::StdRng::seed_from_u64(seed);
    let sk = rsa::RsaPrivateKey::new(&mut rng, 1024).expect("failed to generate a key");
    let pubk = sk.to_public_key();
    let vk = VerifierKey::new(pubk.e().to_bytes_be(), pubk.n().to_bytes_be());
    Participant { sk, vk }
}

fn build_tx(
    sender: &Participant,
    inputs: &[(&Tx, u8)],
    outputs: &[(&Participant, u32)],
    return_to_sender: Option<u32>,
) -> UnsignedTx {
    let mut tx = UnsignedTx::new();
    for input in inputs {
        tx.add_input(input.0.hash(), input.1);
    }
    for output in outputs {
        tx.add_output(output.1, &output.0.vk);
    }
    if let Some(to_return) = return_to_sender {
        tx.add_output(to_return, &sender.vk);
    }
    tx
}

fn new_tx(
    sender: &Participant,
    inputs: &[(&Tx, u8)],
    outputs: &[(&Participant, u32)],
    return_to_sender: Option<u32>,
) -> Tx {
    build_tx(sender, inputs, outputs, return_to_sender)
        .sing_inputs_and_finalize(&sender.sk)
        .unwrap()
}

fn new_tx_forged_signatures(
    sender: &Participant,
    inputs: &[(&Tx, u8)],
    outputs: &[(&Participant, u32)],
    return_to_sender: Option<u32>,
    adversary: &Participant,
) -> Tx {
    build_tx(sender, inputs, outputs, return_to_sender)
        .sing_inputs_and_finalize(&adversary.sk)
        .unwrap()
}

fn setup_pool(receiver: &Participant, output_value: u32, root_outputs: u8) -> (UTXOPool, Tx) {
    let genesis_hash: [u8; 32] = [7; 32];
    let mut root_tx = UnsignedTx::new();
    for _ in 0..root_outputs {
        root_tx.add_output(output_value, &receiver.vk);
    }
    root_tx.add_input(genesis_hash, 0);
    let root_tx = root_tx.sing_inputs_and_finalize(&receiver.sk).unwrap();

    let mut utxo_pool = UTXOPool::new();
    for output_idx in 0..root_tx.output_len() {
        let output_idx = output_idx as u8;
        let root_utxo = UTXO::new(root_tx.hash(), output_idx);
        utxo_pool.add_utxo(root_utxo, root_tx.output(output_idx).unwrap());
    }
    (utxo_pool, root_tx)
}

fn random_signature(signer: &Participant) -> Vec<u8> {
    let sk = rsa::pkcs1v15::SigningKey::<sha2::Sha256>::new(signer.sk.clone());
    sk.sign(b"random data").to_vec()
}

#[test]
fn all_valid_transactions() {
    let bob = participant();
    let alice = participant();
    let charlie = participant();
    let derek = participant();

    let (utxo_pool, root_tx) = setup_pool(&bob, OUTPUT_VALUE, 10);
    let handler = Handler::new(utxo_pool);

    // 2 * 100 from the root tx => 200 to alice
    let to_alice_tx = new_tx(
        &bob,
        &[(&root_tx, 0), (&root_tx, 9)],
        &[(&alice, 2 * OUTPUT_VALUE)],
        None,
    );
    assert!(handler.is_tx_valid(&to_alice_tx));

    // 3 * 100 from the root tx => 4 * 50 to charlie, 100 back to bob
    let to_charlie_tx = new_tx(
        &bob,
        &[(&root_tx, 1), (&root_tx, 2), (&root_tx, 3)],
        &[(&charlie, 50), (&charlie, 50), (&charlie, 50), (&charlie, 50)],
        Some(100),
    );
    assert!(handler.is_tx_valid(&to_charlie_tx));

    // 100 from the root tx => 2 * 25 to derek, fee 50
    let to_derek_tx = new_tx(&bob, &[(&root_tx, 1)], &[(&derek, 25), (&derek, 25)], None);
    assert!(handler.is_tx_valid(&to_derek_tx));
}

#[test]
fn is_tx_valid_test_invalid_signature() {
    let bob = participant();
    let alice = participant();

    let (utxo_pool, root_tx) = setup_pool(&bob, OUTPUT_VALUE, 2);
    let handler = Handler::new(utxo_pool);

    let mut tx1 = new_tx(&bob, &[(&root_tx, 0)], &[(&alice, OUTPUT_VALUE)], None);
    assert!(handler.is_tx_valid(&tx1));

    tx1.force_signature_on_input(0, random_signature(&bob));
    assert!(!handler.is_tx_valid(&tx1));

    let mut tx2 = new_tx(&bob, &[(&root_tx, 1)], &[(&alice, OUTPUT_VALUE)], None);
    assert!(handler.is_tx_valid(&tx2));

    // a signature over tx1's bytes does not unlock tx2's input
    let raw_tx1 = raw_tx(tx1.inputs(), tx1.outputs()).unwrap();
    let sk = rsa::pkcs1v15::SigningKey::<sha2::Sha256>::new(bob.sk.clone());
    let crossed = sk.sign(&raw_tx1).to_vec();
    tx2.force_signature_on_input(0, crossed);
    assert!(!handler.is_tx_valid(&tx1));
}

#[test]
fn different_private_key() {
    let bob = participant();
    let alice = participant();
    let charlie = participant();

    let (utxo_pool, root_tx) = setup_pool(&bob, OUTPUT_VALUE, 2);
    let handler = Handler::new(utxo_pool);

    let tx = new_tx(&bob, &[(&root_tx, 0)], &[(&alice, OUTPUT_VALUE)], None);
    assert!(handler.is_tx_valid(&tx));

    let same_tx = new_tx_forged_signatures(
        &bob,
        &[(&root_tx, 0)],
        &[(&alice, OUTPUT_VALUE)],
        None,
        &charlie,
    );
    assert!(!handler.is_tx_valid(&same_tx));
}

#[test]
fn is_tx_valid_test_outputs_greater_than_inputs() {
    let bob = participant();
    let alice = participant();

    let (utxo_pool, root_tx) = setup_pool(&bob, OUTPUT_VALUE, 1);
    let handler = Handler::new(utxo_pool);

    let tx = new_tx(&bob, &[(&root_tx, 0)], &[(&alice, OUTPUT_VALUE + 1)], None);
    assert!(!handler.is_tx_valid(&tx));
}

#[test]
fn output_not_in_pool() {
    let bob = participant();
    let alice = participant();

    let (utxo_pool, root_tx) = setup_pool(&bob, OUTPUT_VALUE, 1);
    let mut handler = Handler::new(utxo_pool);

    let valid_tx = new_tx(&bob, &[(&root_tx, 0)], &[(&alice, OUTPUT_VALUE)], None);
    assert!(handler.is_tx_valid(&valid_tx));
    assert_eq!(1, handler.handle(vec![&valid_tx]).len());

    let invalid_tx = new_tx(&bob, &[(&root_tx, 0)], &[(&alice, OUTPUT_VALUE)], None);
    assert!(!handler.is_tx_valid(&invalid_tx));
}

#[test]
fn one_output_multiple_times() {
    let bob = participant();
    let alice = participant();

    let (utxo_pool, root_tx) = setup_pool(&bob, OUTPUT_VALUE, 1);
    let handler = Handler::new(utxo_pool);

    let tx = new_tx(
        &bob,
        &[(&root_tx, 0), (&root_tx, 0)],
        &[(&alice, OUTPUT_VALUE)],
        None,
    );
    assert!(!handler.is_tx_valid(&tx));
}
