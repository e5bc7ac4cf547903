use fiitcoin::handler::{balance_of, Handler, TxHandler};
use fiitcoin::key::VerifierKey;
use fiitcoin::tx::{Tx, UnsignedTx};
use fiitcoin::utxo::{UTXO, UTXOPool};
use rsa::signature::{SignatureEncoding, Signer};
use rsa::traits::PublicKeyParts;
use rand::SeedableRng;
use std::sync::atomic::{AtomicU64, Ordering};

const OUTPUT_VALUE: u32 = 100;

struct Participant {
    sk: rsa::RsaPrivateKey,
    vk: VerifierKey,
}

// Keys come from a fixed seed sequence, so every run of a test generates
// the same keys: the outcomes and the running time are reproducible.
static KEY_SEED: AtomicU64 = AtomicU64::new(1);

fn participant() -> Participant {
    let seed = KEY_SEED.fetch_add(1, Ordering::Relaxed);
    let mut rng = rand::rngs::StdRng::seed_from_u64(seed);
    let sk = rsa::RsaPrivateKey::new(&mut rng, 1024).expect("failed to generate a key");
    let pubk = sk.to_public_key();
    let vk = VerifierKey::new(pubk.e().to_bytes_be(), pubk.n().to_bytes_be());
    Participant { sk, vk }
}

fn new_tx(
    sender: &Participant,
    inputs: &[(&Tx, u8)],
    outputs: &[(&Participant, u32)],
    return_to_sender: Option<u32>,
) -> Tx {
    let mut tx = UnsignedTx::new();
    for input in inputs {
        tx.add_input(input.0.hash(), input.1);
    }
    for output in outputs {
        tx.add_output(output.1, &output.0.vk);
    }
    if let Some(to_return) = return_to_sender {
        tx.add_output(to_return, &sender.vk);
    }
    tx.sing_inputs_and_finalize(&sender.sk).unwrap()
}

fn setup_pool(receiver: &Participant, output_value: u32, root_outputs: u8) -> (UTXOPool, Tx) {
    let genesis_hash: [u8; 32] = [7; 32];
    let mut root_tx = UnsignedTx::new();
    for _ in 0..root_outputs {
        root_tx.add_output(output_value, &receiver.vk);
    }
    root_tx.add_input(genesis_hash, 0);
    let root_tx = root_tx.sing_inputs_and_finalize(&receiver.sk).unwrap();

    let mut utxo_pool = UTXOPool::new();
    for output_idx in 0..root_tx.output_len() {
        let output_idx = output_idx as u8;
        let root_utxo = UTXO::new(root_tx.hash(), output_idx);
        utxo_pool.add_utxo(root_utxo, root_tx.output(output_idx).unwrap());
    }
    (utxo_pool, root_tx)
}

#[test]
fn transaction_is_valid_and_possible() {
    let bob = participant();
    let alice = participant();

    let genesis_hash: [u8; 32] = [7; 32];
    let mut bob_tx = UnsignedTx::new();
    bob_tx.add_output(10, &bob.vk);
    bob_tx.add_input(genesis_hash, 0);
    let root_bob_tx = bob_tx.sing_inputs_and_finalize(&bob.sk).unwrap();

    let mut utxo_pool = UTXOPool::new();
    let root_utxo = UTXO::new(root_bob_tx.hash(), 0);
    utxo_pool.add_utxo(root_utxo, root_bob_tx.output(0).unwrap());

    let mut tx_to_alice = UnsignedTx::new();
    tx_to_alice.add_input(root_bob_tx.hash(), 0);
    // split the 10 into outputs of 4, 3, 2 and 1 as fee
    tx_to_alice.add_output(4, &alice.vk);
    tx_to_alice.add_output(3, &alice.vk);
    tx_to_alice.add_output(2, &alice.vk);
    let alice_tx = tx_to_alice.sing_inputs_and_finalize(&bob.sk).unwrap();

    let mut handler = Handler::new(utxo_pool);
    assert!(handler.is_tx_valid(&alice_tx));

    let possible_txs = handler.handle(vec![&alice_tx]);
    assert_eq!(1, possible_txs.len());

    assert_eq!(9, balance_of(handler.pool(), &alice.vk));
    assert_eq!(0, balance_of(handler.pool(), &bob.vk));
}

#[test]
fn handler_test_invalid_signature() {
    let bob = participant();
    let alice = participant();

    let (utxo_pool, root_tx) = setup_pool(&bob, OUTPUT_VALUE, 1);
    let mut handler = Handler::new(utxo_pool);

    let tx1 = new_tx(&bob, &[(&root_tx, 0)], &[(&alice, 10)], Some(13));
    let mut invalid_tx = tx1.clone();
    let sk = rsa::pkcs1v15::SigningKey::<sha2::Sha256>::new(bob.sk.clone());
    let random_signature = sk.sign(b"random data").to_vec();
    invalid_tx.force_signature_on_input(0, random_signature);

    let txs = handler.handle(vec![&tx1, &invalid_tx]);
    assert_eq!(1, txs.len());

    assert_eq!(10, balance_of(handler.pool(), &alice.vk));
    assert_eq!(13, balance_of(handler.pool(), &bob.vk));
}

#[test]
fn handler_test_outputs_greater_than_inputs() {
    let bob = participant();
    let alice = participant();

    let (utxo_pool, root_tx) = setup_pool(&bob, OUTPUT_VALUE, 1);
    let mut handler = Handler::new(utxo_pool);

    let tx1 = new_tx(&bob, &[(&root_tx, 0)], &[(&alice, OUTPUT_VALUE + 1)], None);

    let txs = handler.handle(vec![&tx1]);
    assert_eq!(0, txs.len());

    assert_eq!(0, balance_of(handler.pool(), &alice.vk));
    assert_eq!(OUTPUT_VALUE as u64, balance_of(handler.pool(), &bob.vk));
}

#[test]
fn output_double_spend() {
    let bob = participant();
    let alice = participant();

    let (utxo_pool, root_tx) = setup_pool(&bob, OUTPUT_VALUE, 1);
    let mut handler = Handler::new(utxo_pool);

    let to_alice_tx = new_tx(&bob, &[(&root_tx, 0)], &[(&alice, 10)], Some(13));
    let to_alice_doublespend = to_alice_tx.clone();

    let txs = handler.handle(vec![&to_alice_tx, &to_alice_doublespend]);
    assert_eq!(1, txs.len());

    assert_eq!(10, balance_of(handler.pool(), &alice.vk));
    assert_eq!(13, balance_of(handler.pool(), &bob.vk));
}

#[test]
fn related_transactions_chronological_order() {
    let bob = participant();
    let alice = participant();
    let charlie = participant();

    let (utxo_pool, root_tx) = setup_pool(&bob, OUTPUT_VALUE, 1);
    let mut handler = Handler::new(utxo_pool);

    let to_alice_tx = new_tx(&bob, &[(&root_tx, 0)], &[(&alice, 10)], None);
    assert!(handler.is_tx_valid(&to_alice_tx));

    let to_john_from_alice = new_tx(&alice, &[(&to_alice_tx, 0)], &[(&charlie, 10)], None);
    assert!(!handler.is_tx_valid(&to_john_from_alice));

    let txs = handler.handle(vec![&to_alice_tx, &to_john_from_alice]);
    assert_eq!(2, txs.len());

    assert_eq!(0, balance_of(handler.pool(), &alice.vk));
    assert_eq!(0, balance_of(handler.pool(), &bob.vk));
    assert_eq!(10, balance_of(handler.pool(), &charlie.vk));
}

#[test]
fn non_existent_utxo_as_input() {
    let bob = participant();
    let alice = participant();

    let (utxo_pool, root_tx) = setup_pool(&bob, OUTPUT_VALUE, 1);
    let mut handler = Handler::new(utxo_pool);

    let with_invalid_utxo = new_tx(&bob, &[(&root_tx, 123)], &[(&alice, 10)], None);

    let txs = handler.handle(vec![&with_invalid_utxo]);
    assert_eq!(0, txs.len());

    assert_eq!(0, balance_of(handler.pool(), &alice.vk));
    assert_eq!(OUTPUT_VALUE as u64, balance_of(handler.pool(), &bob.vk));
}

#[test]
fn related_transactions_reverse_order() {
    let bob = participant();
    let alice = participant();
    let charlie = participant();
    let derek = participant();

    let (utxo_pool, root_tx) = setup_pool(&bob, OUTPUT_VALUE, 1);
    let mut handler = Handler::new(utxo_pool);

    // alice: 3 x 10, bob: 50, fee: 100 - 50 - 3 x 10 = 20
    let tx1 = new_tx(
        &bob,
        &[(&root_tx, 0)],
        &[(&alice, 10), (&alice, 10), (&alice, 10)],
        Some(50),
    );

    // spends tx1 at 0 and 2: charlie 15, alice 5 back, fee 0
    let tx2 = new_tx(&alice, &[(&tx1, 0), (&tx1, 2)], &[(&charlie, 15)], Some(5));

    // spends tx1 at 3 (bob's 50): charlie 40, bob 5 back, fee 5
    let tx3 = new_tx(&bob, &[(&tx1, 3)], &[(&charlie, 40)], Some(5));

    // derek tries to send himself alice's output from tx1 at 1
    let tx_invalid = new_tx(&derek, &[(&tx1, 1)], &[], Some(10));

    let txs = handler.handle(vec![&tx2, &tx_invalid, &tx3, &tx1]);
    assert_eq!(3, txs.len());

    assert_eq!(15, balance_of(handler.pool(), &alice.vk));
    assert_eq!(5, balance_of(handler.pool(), &bob.vk));
    assert_eq!(55, balance_of(handler.pool(), &charlie.vk));
    assert_eq!(0, balance_of(handler.pool(), &derek.vk));
}

#[test]
fn multiple_rounds() {
    let bob = participant();
    let alice = participant();

    let (utxo_pool, root_tx) = setup_pool(&bob, OUTPUT_VALUE, 2);
    let mut handler = Handler::new(utxo_pool);

    let tx1 = new_tx(
        &bob,
        &[(&root_tx, 0)],
        &[(&alice, 25), (&alice, 50), (&alice, 25)],
        None,
    );
    let mut txs = handler.handle(vec![&tx1]);
    assert_eq!(1, txs.len());
    assert_eq!(OUTPUT_VALUE as u64, balance_of(handler.pool(), &alice.vk));
    assert_eq!(OUTPUT_VALUE as u64, balance_of(handler.pool(), &bob.vk));

    let tx2 = new_tx(&alice, &[(&tx1, 1)], &[(&bob, 30)], Some(20));
    txs = handler.handle(vec![&tx2]);
    assert_eq!(1, txs.len());
    assert_eq!(25 + 25 + 20, balance_of(handler.pool(), &alice.vk));
    assert_eq!(OUTPUT_VALUE as u64 + 30, balance_of(handler.pool(), &bob.vk));
}
