use fiitcoin::key::VerifierKey;
use fiitcoin::multisig::handler::Handler;
use fiitcoin::multisig::tx::{Tx, UnsignedTx};
use fiitcoin::multisig::utxo::{UTXOPool, UTXO};
use rsa::traits::PublicKeyParts;
use rand::SeedableRng;
use std::sync::atomic::{AtomicU64, Ordering};

struct Wallet {
    keys: Vec<(rsa::RsaPrivateKey, VerifierKey)>,
    threshold: usize,
}

// Keys come from a fixed seed sequence, so every run of a test generates
// the same keys: the outcomes and the running time are reproducible.
static KEY_SEED: AtomicU64 = AtomicU64::new(1);

fn wallet(n: usize, threshold: usize) -> Wallet {
    let mut keys = Vec::new();
    for _ in 0..n {
        let seed = KEY_SEED.fetch_add(1, Ordering::Relaxed);
        let mut rng = rand::rngs::StdRng::seed_from_u64(seed);
        let sk = rsa::RsaPrivateKey::new(&mut rng, 1024).expect("failed to generate a key");
        let pubk = sk.to_public_key();
        let vk = VerifierKey::new(pubk.e().to_bytes_be(), pubk.n().to_bytes_be());
        keys.push((sk, vk));
    }
    Wallet { keys, threshold }
}

fn verifiers(w: &Wallet) -> Vec<&VerifierKey> {
    w.keys.iter().map(|kp| &kp.1).collect()
}

fn signers(w: &Wallet) -> Vec<&rsa::RsaPrivateKey> {
    w.keys.iter().map(|kp| &kp.0).collect()
}

fn new_tx_first_n_signers_only(
    signer: &Wallet,
    inputs: Vec<UTXO>,
    outputs: Vec<(&Wallet, u32)>,
    return_to_sender: Option<u32>,
    n: usize,
) -> Tx {
    let mut tx = UnsignedTx::new();
    for input in inputs.iter() {
        tx.add_input(input.tx_hash(), input.output_idx());
    }
    for output in outputs.iter() {
        tx.add_output(output.1, verifiers(output.0), output.0.threshold);
    }
    if let Some(to_return) = return_to_sender {
        tx.add_output(to_return, verifiers(signer), signer.threshold);
    }
    let all = signers(signer);
    tx.finalize(all[0..n].to_vec()).unwrap()
}

fn new_tx(
    signer: &Wallet,
    inputs: Vec<UTXO>,
    outputs: Vec<(&Wallet, u32)>,
    return_to_sender: Option<u32>,
) -> Tx {
    let n = signer.keys.len();
    new_tx_first_n_signers_only(signer, inputs, outputs, return_to_sender, n)
}

fn setup_handler(receiver: &Wallet, output_value: u32, root_outputs: u8) -> (Handler, Tx) {
    let genesis_hash: [u8; 32] = [7; 32];
    let mut root_tx = UnsignedTx::new();
    for _ in 0..root_outputs {
        root_tx.add_output(output_value, verifiers(receiver), receiver.threshold);
    }
    root_tx.add_input(genesis_hash, 0);
    let root_tx = root_tx.finalize(signers(receiver)).unwrap();

    let mut utxo_pool = UTXOPool::new();
    for output_idx in 0..root_tx.output_len() {
        let output_idx = output_idx as u8;
        let root_utxo = UTXO::new(root_tx.hash(), output_idx);
        utxo_pool.add_utxo(root_utxo, root_tx.output(output_idx).unwrap());
    }
    (Handler::new(utxo_pool), root_tx)
}

#[test]
fn normal_tx() {
    let bob = wallet(1, 1);
    let alice = wallet(1, 1);
    let (handler, genesis_tx) = setup_handler(&bob, 500, 1);

    let tx1 = new_tx(
        &bob,
        vec![UTXO::new(genesis_tx.hash(), 0)],
        vec![(&alice, 400)],
        Some(100),
    );
    assert!(handler.is_tx_valid(&tx1));
}

#[test]
fn invalid_1_out_of_3() {
    let bob = wallet(3, 3);
    let alice = wallet(1, 1);
    let (handler, genesis_tx) = setup_handler(&bob, 500, 1);

    let tx1 = new_tx_first_n_signers_only(
        &bob,
        vec![UTXO::new(genesis_tx.hash(), 0)],
        vec![(&alice, 400)],
        Some(100),
        1,
    );
    assert!(!handler.is_tx_valid(&tx1));
}

#[test]
fn invalid_2_out_of_3() {
    let bob = wallet(3, 3);
    let alice = wallet(1, 1);
    let (handler, genesis_tx) = setup_handler(&bob, 500, 1);

    let tx1 = new_tx_first_n_signers_only(
        &bob,
        vec![UTXO::new(genesis_tx.hash(), 0)],
        vec![(&alice, 400)],
        Some(100),
        2,
    );
    assert!(!handler.is_tx_valid(&tx1));
}

#[test]
fn valid_1_out_of_3() {
    let bob = wallet(3, 1);
    let alice = wallet(1, 1);
    let (handler, genesis_tx) = setup_handler(&bob, 500, 1);

    let tx1 = new_tx_first_n_signers_only(
        &bob,
        vec![UTXO::new(genesis_tx.hash(), 0)],
        vec![(&alice, 400)],
        Some(100),
        1,
    );
    assert!(handler.is_tx_valid(&tx1));
}

#[test]
fn valid_2_out_of_3() {
    let bob = wallet(3, 1);
    let alice = wallet(1, 1);
    let (handler, genesis_tx) = setup_handler(&bob, 500, 1);

    let tx1 = new_tx_first_n_signers_only(
        &bob,
        vec![UTXO::new(genesis_tx.hash(), 0)],
        vec![(&alice, 400)],
        Some(100),
        2,
    );
    assert!(handler.is_tx_valid(&tx1));
}

#[test]
fn valid_3_out_of_3() {
    let bob = wallet(3, 3);
    let alice = wallet(1, 1);
    let (handler, genesis_tx) = setup_handler(&bob, 500, 1);

    let tx1 = new_tx(
        &bob,
        vec![UTXO::new(genesis_tx.hash(), 0)],
        vec![(&alice, 400)],
        Some(100),
    );
    assert!(handler.is_tx_valid(&tx1));
}
