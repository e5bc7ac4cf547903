use fiitcoin::key::VerifierKey;
use fiitcoin::multisig::block::IncompleteBlock;
use fiitcoin::multisig::block_handler::BlockHandler;
use fiitcoin::multisig::blockchain::Blockchain;
use fiitcoin::multisig::tx::{Tx, UnsignedTx};
use fiitcoin::multisig::utxo::{UTXOPool, UTXO};
use rsa::traits::PublicKeyParts;
use rand::SeedableRng;
use std::sync::atomic::{AtomicU64, Ordering};

struct Wallet {
    keys: Vec<(rsa::RsaPrivateKey, VerifierKey)>,
    threshold: usize,
}

// Keys come from a fixed seed sequence, so every run of a test generates
// the same keys: the outcomes and the running time are reproducible.
static KEY_SEED: AtomicU64 = AtomicU64::new(1);

fn wallet(n: usize, threshold: usize) -> Wallet {
    let mut keys = Vec::new();
    for _ in 0..n {
        let seed = KEY_SEED.fetch_add(1, Ordering::Relaxed);
        let mut rng = rand::rngs::StdRng::seed_from_u64(seed);
        let sk = rsa::RsaPrivateKey::new(&mut rng, 1024).expect("failed to generate a key");
        let pubk = sk.to_public_key();
        let vk = VerifierKey::new(pubk.e().to_bytes_be(), pubk.n().to_bytes_be());
        keys.push((sk, vk));
    }
    Wallet { keys, threshold }
}

fn verifiers(w: &Wallet) -> Vec<&VerifierKey> {
    w.keys.iter().map(|kp| &kp.1).collect()
}

fn signers(w: &Wallet) -> Vec<&rsa::RsaPrivateKey> {
    w.keys.iter().map(|kp| &kp.0).collect()
}

fn new_tx_first_n_signers_only(
    signer: &Wallet,
    inputs: Vec<UTXO>,
    outputs: Vec<(&Wallet, u32)>,
    return_to_sender: Option<u32>,
    n: usize,
) -> Tx {
    let mut tx = UnsignedTx::new();
    for input in inputs.iter() {
        tx.add_input(input.tx_hash(), input.output_idx());
    }
    for output in outputs.iter() {
        tx.add_output(output.1, verifiers(output.0), output.0.threshold);
    }
    if let Some(to_return) = return_to_sender {
        tx.add_output(to_return, verifiers(signer), signer.threshold);
    }
    let all = signers(signer);
    tx.finalize(all[0..n].to_vec()).unwrap()
}

fn new_tx(
    signer: &Wallet,
    inputs: Vec<UTXO>,
    outputs: Vec<(&Wallet, u32)>,
    return_to_sender: Option<u32>,
) -> Tx {
    let n = signer.keys.len();
    new_tx_first_n_signers_only(signer, inputs, outputs, return_to_sender, n)
}

fn setup_block_handler(receiver: &Wallet) -> (BlockHandler, Tx) {
    let genesis = IncompleteBlock::new([0; 32], verifiers(receiver), receiver.threshold).finalize();
    let genesis_tx = genesis.coinbase().clone();
    let mut pool = UTXOPool::new();
    pool.add_utxo(
        UTXO::new(genesis_tx.hash(), 0),
        genesis.coinbase().output(0).unwrap(),
    );
    let chain = Blockchain::new(genesis, pool);
    (BlockHandler::new(chain), genesis_tx)
}

#[test]
fn block_with_normal_tx() {
    let bob = wallet(1, 1);
    let alice = wallet(1, 1);
    let (mut handler, genesis_tx) = setup_block_handler(&bob);

    let tx1 = new_tx(
        &bob,
        vec![UTXO::new(genesis_tx.hash(), 0)],
        vec![(&alice, 400)],
        Some(100),
    );
    handler.process_tx(tx1);
    let block = handler.create_block(verifiers(&bob), bob.threshold);
    assert!(handler.process_block(block));
}

#[test]
fn multisig_blockchain_block_with_many_tx() {
    let bob = wallet(3, 2);
    let alice = wallet(3, 2);
    let charlie = wallet(3, 2);
    let (mut handler, genesis_tx) = setup_block_handler(&bob);

    let tx1 = new_tx_first_n_signers_only(
        &bob,
        vec![UTXO::new(genesis_tx.hash(), 0)],
        vec![(&alice, 100), (&alice, 100), (&charlie, 200)],
        Some(100),
        2,
    );
    let tx2 = new_tx_first_n_signers_only(
        &alice,
        vec![UTXO::new(tx1.hash(), 0), UTXO::new(tx1.hash(), 1)],
        vec![(&charlie, 150)],
        Some(50),
        2,
    );
    let tx3_not_enough_signers = new_tx_first_n_signers_only(
        &charlie,
        vec![UTXO::new(tx2.hash(), 0), UTXO::new(tx1.hash(), 2)],
        vec![(&bob, 340)],
        Some(10),
        1,
    );

    handler.process_tx(tx1);
    handler.process_tx(tx2);
    handler.process_tx(tx3_not_enough_signers);

    let block = handler.create_block(verifiers(&charlie), charlie.threshold);
    assert_eq!(2, block.txs().len());
    assert!(handler.process_block(block));
}

#[test]
fn block_with_invalid_1_out_of_3() {
    let bob = wallet(3, 3);
    let alice = wallet(1, 1);
    let (mut handler, genesis_tx) = setup_block_handler(&bob);

    let tx1 = new_tx_first_n_signers_only(
        &bob,
        vec![UTXO::new(genesis_tx.hash(), 0)],
        vec![(&alice, 400)],
        Some(100),
        1,
    );

    handler.process_tx(tx1);
    let block = handler.create_block(verifiers(&bob), bob.threshold);
    assert_eq!(0, block.txs().len());
    assert!(handler.process_block(block));
}

#[test]
fn block_with_invalid_2_out_of_3() {
    let bob = wallet(3, 3);
    let alice = wallet(1, 1);
    let (mut handler, genesis_tx) = setup_block_handler(&bob);

    let tx1 = new_tx_first_n_signers_only(
        &bob,
        vec![UTXO::new(genesis_tx.hash(), 0)],
        vec![(&alice, 400)],
        Some(100),
        2,
    );
    handler.process_tx(tx1);
    let block = handler.create_block(verifiers(&bob), bob.threshold);
    assert_eq!(0, block.txs().len());
    assert!(handler.process_block(block));
}

#[test]
fn block_with_valid_1_out_of_3() {
    let bob = wallet(3, 1);
    let alice = wallet(1, 1);
    let (mut handler, genesis_tx) = setup_block_handler(&bob);

    let tx1 = new_tx_first_n_signers_only(
        &bob,
        vec![UTXO::new(genesis_tx.hash(), 0)],
        vec![(&alice, 400)],
        Some(100),
        1,
    );
    handler.process_tx(tx1);
    let block = handler.create_block(verifiers(&bob), bob.threshold);
    assert_eq!(1, block.txs().len());
    assert!(handler.process_block(block));
}

#[test]
fn block_with_valid_2_out_of_3() {
    let bob = wallet(3, 1);
    let alice = wallet(1, 1);
    let (mut handler, genesis_tx) = setup_block_handler(&bob);

    let tx1 = new_tx_first_n_signers_only(
        &bob,
        vec![UTXO::new(genesis_tx.hash(), 0)],
        vec![(&alice, 400)],
        Some(100),
        2,
    );
    handler.process_tx(tx1);
    let block = handler.create_block(verifiers(&bob), bob.threshold);
    assert_eq!(1, block.txs().len());
    assert!(handler.process_block(block));
}

/// Adding the same block twice: the second call is rejected because the
/// block's hash is already retained.
#[test]
fn multisig_duplicate_block_rejected() {
    let bob = wallet(1, 1);
    let (mut handler, _genesis_tx) = setup_block_handler(&bob);
    let genesis_block_hash = handler.hash_at_max_height();

    let block = handler.create_block(verifiers(&bob), bob.threshold);
    let block_hash = block.hash();
    assert!(handler.process_block(block));

    let dup = handler
        .create_fork(genesis_block_hash, verifiers(&bob), bob.threshold)
        .unwrap();
    assert_eq!(block_hash, dup.hash());
    assert!(!handler.process_block(dup));
}

#[test]
fn block_with_valid_3_out_of_3() {
    let bob = wallet(3, 3);
    let alice = wallet(1, 1);
    let (mut handler, genesis_tx) = setup_block_handler(&bob);

    let tx1 = new_tx(
        &bob,
        vec![UTXO::new(genesis_tx.hash(), 0)],
        vec![(&alice, 400)],
        Some(100),
    );
    handler.process_tx(tx1);
    let block = handler.create_block(verifiers(&bob), bob.threshold);
    assert_eq!(1, block.txs().len());
    assert!(handler.process_block(block));
}
