use fiitcoin::handler::{balance_of, MaxFeeHandler, TxHandler};
use fiitcoin::key::VerifierKey;
use fiitcoin::tx::{Tx, UnsignedTx};
use fiitcoin::utxo::{UTXO, UTXOPool};
use rsa::traits::PublicKeyParts;
use rand::SeedableRng;
use std::sync::atomic::{AtomicU64, Ordering};

const OUTPUT_VALUE: u32 = 100;

struct Participant {
    sk: rsa::RsaPrivateKey,
    vk: VerifierKey,
}

// Keys come from a fixed seed sequence, so every run of a test generates
// the same keys: the outcomes and the running time are reproducible.
static KEY_SEED: AtomicU64 = AtomicU64::new(1);

fn participant() -> Participant {
    let seed = KEY_SEED.fetch_add(1, Ordering::Relaxed);
    let mut rng = rand::rngs::StdRng::seed_from_u64(seed);
    let sk = rsa::RsaPrivateKey::new(&mut rng, 1024).expect("failed to generate a key");
    let pubk = sk.to_public_key();
    let vk = VerifierKey::new(pubk.e().to_bytes_be(), pubk.n().to_bytes_be());
    Participant { sk, vk }
}

fn new_tx(
    sender: &Participant,
    inputs: &[(&Tx, u8)],
    outputs: &[(&Participant, u32)],
    return_to_sender: Option<u32>,
) -> Tx {
    let mut tx = UnsignedTx::new();
    for input in inputs {
        tx.add_input(input.0.hash(), input.1);
    }
    for output in outputs {
        tx.add_output(output.1, &output.0.vk);
    }
    if let Some(to_return) = return_to_sender {
        tx.add_output(to_return, &sender.vk);
    }
    tx.sing_inputs_and_finalize(&sender.sk).unwrap()
}

fn setup_pool(receiver: &Participant, output_value: u32, root_outputs: u8) -> (UTXOPool, Tx) {
    let genesis_hash: [u8; 32] = [7; 32];
    let mut root_tx = UnsignedTx::new();
    for _ in 0..root_outputs {
        root_tx.add_output(output_value, &receiver.vk);
    }
    root_tx.add_input(genesis_hash, 0);
    let root_tx = root_tx.sing_inputs_and_finalize(&receiver.sk).unwrap();

    let mut utxo_pool = UTXOPool::new();
    for output_idx in 0..root_tx.output_len() {
        let output_idx = output_idx as u8;
        let root_utxo = UTXO::new(root_tx.hash(), output_idx);
        utxo_pool.add_utxo(root_utxo, root_tx.output(output_idx).unwrap());
    }
    (utxo_pool, root_tx)
}

#[test]
fn valid_txs() {
    let bob = participant();
    let alice = participant();
    let charlie = participant();

    let (utxo_pool, root_tx) = setup_pool(&bob, OUTPUT_VALUE, 3);
    let mut handler = MaxFeeHandler::new(utxo_pool);

    // bob: 100 + 20, alice: 80, charlie: 80, fee: 20
    let tx1 = new_tx(
        &bob,
        &[(&root_tx, 0), (&root_tx, 1)],
        &[(&alice, 40), (&alice, 40), (&charlie, 80)],
        Some(20),
    );

    let mut txs = handler.handle(vec![&tx1]);
    assert_eq!(1, txs.len());
    assert_eq!(120, balance_of(handler.pool(), &bob.vk));
    assert_eq!(80, balance_of(handler.pool(), &alice.vk));
    assert_eq!(80, balance_of(handler.pool(), &charlie.vk));

    let tx_alice_combine_outputs = new_tx(&alice, &[(&tx1, 0), (&tx1, 1)], &[(&alice, 80)], None);
    txs = handler.handle(vec![&tx_alice_combine_outputs]);
    assert_eq!(1, txs.len());
    assert_eq!(120, balance_of(handler.pool(), &bob.vk));
    assert_eq!(80, balance_of(handler.pool(), &alice.vk));
    assert_eq!(80, balance_of(handler.pool(), &charlie.vk));
}

#[test]
fn transactions_with_same_output() {
    let bob = participant();
    let alice = participant();
    let charlie = participant();

    let (utxo_pool, root_tx) = setup_pool(&bob, OUTPUT_VALUE, 1);
    let mut handler = MaxFeeHandler::new(utxo_pool);

    let tx_fee_50 = new_tx(&bob, &[(&root_tx, 0)], &[(&alice, 10)], Some(40));
    let tx_fee_10 = new_tx(&bob, &[(&root_tx, 0)], &[(&charlie, 10)], Some(80));

    let txs = handler.handle(vec![&tx_fee_10, &tx_fee_50]);
    assert_eq!(1, txs.len());
    assert_eq!(tx_fee_50.hash(), txs.get(0).unwrap().hash());
    assert_eq!(40, balance_of(handler.pool(), &bob.vk));
    assert_eq!(10, balance_of(handler.pool(), &alice.vk));
    assert_eq!(0, balance_of(handler.pool(), &charlie.vk));
}

#[test]
fn mix_of_txs() {
    let bob = participant();
    let alice = participant();
    let charlie = participant();

    let (utxo_pool, root_tx) = setup_pool(&bob, OUTPUT_VALUE, 3);
    let mut handler = MaxFeeHandler::new(utxo_pool);

    let tx_fee_50 = new_tx(&bob, &[(&root_tx, 0)], &[(&alice, 50)], None);
    let tx_fee_related_10 = new_tx(&alice, &[(&tx_fee_50, 0)], &[(&bob, 20)], Some(20));

    let invalid_output_tx = new_tx(&bob, &[(&root_tx, 69)], &[(&alice, 50)], None);

    let mut txs = handler.handle(vec![&tx_fee_related_10, &invalid_output_tx, &tx_fee_50]);
    assert_eq!(2, txs.len());
    assert_eq!(20, balance_of(handler.pool(), &alice.vk));
    assert_eq!(2 * OUTPUT_VALUE as u64 + 20, balance_of(handler.pool(), &bob.vk));
    assert_eq!(0, balance_of(handler.pool(), &charlie.vk));

    let tx_fee_5 = new_tx(
        &alice,
        &[(&tx_fee_related_10, 1)],
        &[(&charlie, 10), (&charlie, 4), (&charlie, 1)],
        None,
    );
    let invalid_output_greater_than_input = new_tx(
        &charlie,
        &[(&tx_fee_5, 0), (&tx_fee_5, 1), (&tx_fee_5, 2)],
        &[(&bob, 20)],
        None,
    );

    txs = handler.handle(vec![&invalid_output_greater_than_input, &tx_fee_5]);
    assert_eq!(1, txs.len());
    assert_eq!(0, balance_of(handler.pool(), &alice.vk));
    assert_eq!(2 * OUTPUT_VALUE as u64 + 20, balance_of(handler.pool(), &bob.vk));
    assert_eq!(15, balance_of(handler.pool(), &charlie.vk));
}
