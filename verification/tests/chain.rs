use fiitcoin::blockchain::block::{IncompleteBlock, COINBASE};
use fiitcoin::blockchain::blockchain::{Blockchain, CUT_OFF_AGE};
use fiitcoin::blockchain::handler::BlockHandler;
use fiitcoin::key::VerifierKey;
use fiitcoin::tx::{Tx, UnsignedTx};
use fiitcoin::utxo::{UTXO, UTXOPool};
use rsa::signature::{SignatureEncoding, Signer};
use rsa::traits::PublicKeyParts;
use rand::SeedableRng;
use std::sync::atomic::{AtomicU64, Ordering};

struct Participant {
    sk: rsa::RsaPrivateKey,
    vk: VerifierKey,
}

// Keys come from a fixed seed sequence, so every run of a test generates
// the same keys: the outcomes and the running time are reproducible.
static KEY_SEED: AtomicU64 = AtomicU64::new(1);

fn participant() -> Participant {
    let seed = KEY_SEED.fetch_add(1, Ordering::Relaxed);
    let mut rng = rand::rngs::StdRng::seed_from_u64(seed);
    let sk = rsa::RsaPrivateKey::new(&mut rng, 1024).expect("failed to generate a key");
    let pubk = sk.to_public_key();
    let vk = VerifierKey::new(pubk.e().to_bytes_be(), pubk.n().to_bytes_be());
    Participant { sk, vk }
}

fn new_tx(
    sender: &Participant,
    inputs: &[(&Tx, u8)],
    outputs: &[(&Participant, u32)],
    return_to_sender: Option<u32>,
) -> Tx {
    let mut tx = UnsignedTx::new();
    for input in inputs {
        tx.add_input(input.0.hash(), input.1);
    }
    for output in outputs {
        tx.add_output(output.1, &output.0.vk);
    }
    if let Some(to_return) = return_to_sender {
        tx.add_output(to_return, &sender.vk);
    }
    tx.sing_inputs_and_finalize(&sender.sk).unwrap()
}

fn setup_handler(receiver: &Participant) -> (BlockHandler, Tx) {
    let genesis = IncompleteBlock::new([0; 32], &receiver.vk).finalize();
    let genesis_tx = genesis.coinbase().clone();
    let mut pool = UTXOPool::new();
    pool.add_utxo(
        UTXO::new(genesis_tx.hash(), 0),
        genesis.coinbase().output(0).unwrap(),
    );
    let chain = Blockchain::new(genesis, pool);
    (BlockHandler::new(chain), genesis_tx)
}

#[test]
fn empty_block() {
    let bob = participant();
    let (mut handler, _tx) = setup_handler(&bob);

    let block = handler.create_block(&bob.vk);
    assert!(handler.process_block(block));
}

#[test]
fn block_with_one_tx() {
    let bob = participant();
    let alice = participant();
    let (mut handler, genesis_tx) = setup_handler(&bob);

    let tx1 = new_tx(
        &bob,
        &[(&genesis_tx, 0)],
        &[(&alice, COINBASE - 500)],
        Some(500),
    );
    handler.process_tx(tx1);
    let block = handler.create_block(&bob.vk);
    assert!(handler.process_block(block));
}

#[test]
fn tests_block_with_many_tx() {
    let bob = participant();
    let alice = participant();
    let charlie = participant();
    let (mut handler, genesis_tx) = setup_handler(&bob);

    let tx1 = new_tx(
        &bob,
        &[(&genesis_tx, 0)],
        &[(&alice, 100), (&alice, 100), (&charlie, 200)],
        None,
    );
    let tx2 = new_tx(&alice, &[(&tx1, 0), (&tx1, 1)], &[(&charlie, 150)], Some(50));
    let tx3 = new_tx(&charlie, &[(&tx2, 0), (&tx1, 2)], &[(&bob, 340)], Some(10));

    handler.process_tx(tx1);
    handler.process_tx(tx2);
    handler.process_tx(tx3);

    let block = handler.create_block(&charlie.vk);
    assert!(handler.process_block(block));
}

#[test]
fn block_with_many_doublespends() {
    let bob = participant();
    let alice = participant();
    let charlie = participant();
    let (mut handler, genesis_tx) = setup_handler(&bob);

    let tx1 = new_tx(
        &bob,
        &[(&genesis_tx, 0)],
        &[(&alice, 100), (&alice, 100), (&charlie, 200)],
        None,
    );
    let tx2 = new_tx(&bob, &[(&genesis_tx, 0)], &[(&charlie, 150)], Some(50));

    let tx3_from_tx1 = new_tx(&alice, &[(&tx1, 0)], &[(&bob, 100)], None);
    let tx4_from_tx1 = new_tx(&alice, &[(&tx1, 0)], &[(&charlie, 100)], None);

    let tx5_from_tx2 = new_tx(&charlie, &[(&tx2, 0)], &[(&alice, 150)], None);
    let tx6_from_tx2 = new_tx(&charlie, &[(&tx2, 0)], &[(&bob, 150)], None);

    handler.process_tx(tx1);
    handler.process_tx(tx2);
    handler.process_tx(tx3_from_tx1);
    handler.process_tx(tx4_from_tx1);
    handler.process_tx(tx5_from_tx2);
    handler.process_tx(tx6_from_tx2);

    let block = handler.create_block(&charlie.vk);
    assert_eq!(block.txs().len(), 2);
    assert!(handler.process_block(block));
}

#[test]
fn reject_new_genesis_block() {
    let bob = participant();
    let alice = participant();
    let (mut handler, _genesis_tx) = setup_handler(&bob);
    let block = handler.create_block(&bob.vk);
    assert!(handler.process_block(block));

    let new_genesis = IncompleteBlock::new([0; 32], &alice.vk).finalize();
    assert!(!handler.process_block(new_genesis));
}

#[test]
fn block_refences_invalid_prev() {
    let bob = participant();
    let (mut handler, _tx) = setup_handler(&bob);

    let mut block = handler.create_block(&bob.vk);
    block.set_prev([1; 32]);
    assert!(!handler.process_block(block));
}

#[test]
fn reject_block_with_invalid_txs() {
    let bob = participant();
    let alice = participant();
    let (mut handler, genesis_tx) = setup_handler(&bob);

    let tx1_invalid_spender = new_tx(&alice, &[(&genesis_tx, 0)], &[(&alice, 100)], None);
    let tx2_outputs_more_than_inputs =
        new_tx(&bob, &[(&genesis_tx, 0)], &[(&alice, COINBASE)], Some(50));
    let mut tx3_invalid_sig = new_tx(&bob, &[(&genesis_tx, 0)], &[(&bob, 100)], None);
    let sk = rsa::pkcs1v15::SigningKey::<sha2::Sha256>::new(bob.sk.clone());
    let random_signature = sk.sign(b"random data").to_vec();
    tx3_invalid_sig.force_signature_on_input(0, random_signature);

    handler.process_tx(tx1_invalid_spender);
    handler.process_tx(tx2_outputs_more_than_inputs);
    handler.process_tx(tx3_invalid_sig);

    let block = handler.create_block(&bob.vk);
    assert_eq!(0, block.txs().len());
    assert!(handler.process_block(block)); // the block is valid, only its candidates were not
}

#[test]
fn multiple_blocks() {
    let bob = participant();
    let alice = participant();
    let charlie = participant();
    let derek = participant();
    let (mut handler, genesis_tx) = setup_handler(&bob);

    let tx1 = new_tx(
        &bob,
        &[(&genesis_tx, 0)],
        &[
            (&alice, 100),
            (&alice, 100),
            (&charlie, 100),
            (&charlie, 100),
            (&derek, 100),
            (&derek, 100),
        ],
        Some(25),
    );
    handler.process_tx(tx1.clone());
    let block = handler.create_block(&bob.vk);
    assert!(handler.process_block(block));

    let tx2 = new_tx(
        &alice,
        &[(&tx1, 0), (&tx1, 1)],
        &[(&derek, 75), (&derek, 75)],
        Some(50),
    );
    let tx3 = new_tx(
        &derek,
        &[(&tx1, 4), (&tx1, 5)],
        &[(&charlie, 75), (&bob, 75)],
        Some(50),
    );
    handler.process_tx(tx2.clone());
    handler.process_tx(tx3.clone());
    let block = handler.create_block(&alice.vk);
    assert!(handler.process_block(block));

    let tx4 = new_tx(&derek, &[(&tx2, 1)], &[(&bob, 75)], None);
    let tx5 = new_tx(&derek, &[(&tx3, 0)], &[(&bob, 25)], Some(50));
    handler.process_tx(tx4);
    handler.process_tx(tx5);
    let block = handler.create_block(&derek.vk);
    assert!(handler.process_block(block));
}

// The blocks are mined by a third party: a miner's coinbase is a pure
// function of its verifier set, so re-using the genesis miner would mint a
// coinbase with the genesis coinbase's very hash and re-create the spent
// key when it is credited.
#[test]
fn utxo_spent_by_parent() {
    let bob = participant();
    let alice = participant();
    let charlie = participant();
    let (mut handler, genesis_tx) = setup_handler(&bob);

    let tx1 = new_tx(
        &bob,
        &[(&genesis_tx, 0)],
        &[(&alice, 200), (&alice, 200)],
        None,
    );
    handler.process_tx(tx1);
    let block = handler.create_block(&charlie.vk);
    assert_eq!(1, block.txs().len());
    assert!(handler.process_block(block));

    let tx2 = new_tx(
        &bob,
        &[(&genesis_tx, 0)],
        &[(&alice, 200), (&alice, 200)],
        None,
    );
    handler.process_tx(tx2);
    let block = handler.create_block(&charlie.vk);
    assert_eq!(0, block.txs().len());
    assert!(handler.process_block(block));
}

// With the oldest node at maximal height as the canonical tip, a sibling
// fork does not displace the first branch: the chain keeps building on it,
// so a transaction spending the first branch's output stays admissible.
#[test]
fn utxo_from_fork() {
    let bob = participant();
    let alice = participant();
    let (mut handler, genesis_tx) = setup_handler(&bob);
    let genesis_block_hash = handler.hash_at_max_height();

    let tx1 = new_tx(
        &bob,
        &[(&genesis_tx, 0)],
        &[(&alice, 200), (&alice, 200)],
        None,
    );
    handler.process_tx(tx1.clone());
    let block = handler.create_block(&bob.vk);
    assert_eq!(1, block.txs().len());
    let first_branch_hash = block.hash();
    assert!(handler.process_block(block));

    let tx1_fork = new_tx(&bob, &[(&genesis_tx, 0)], &[(&alice, 400)], None);
    handler.process_tx(tx1_fork.clone());
    let block = handler.create_fork(genesis_block_hash, &alice.vk).unwrap();
    assert_eq!(1, block.txs().len());
    assert!(handler.process_block(block));

    // the tip is still the first branch, where tx1's outputs exist
    assert_eq!(first_branch_hash, handler.hash_at_max_height());
    let tx2_depends_on_tx1 = new_tx(&alice, &[(&tx1, 1)], &[(&bob, 200)], None);
    handler.process_tx(tx2_depends_on_tx1);
    let block = handler.create_block(&alice.vk);
    assert_eq!(1, block.txs().len());
    assert!(handler.process_block(block));
}

#[test]
fn spent_old_utxo() {
    let bob = participant();
    let alice = participant();
    let charlie = participant();
    let (mut handler, genesis_tx) = setup_handler(&bob);

    let tx1 = new_tx(
        &bob,
        &[(&genesis_tx, 0)],
        &[
            (&alice, 150),
            (&alice, 150),
            (&charlie, 150),
            (&charlie, 150),
        ],
        Some(25),
    );
    handler.process_tx(tx1.clone());
    let block = handler.create_block(&bob.vk);
    assert_eq!(1, block.txs().len());
    assert!(handler.process_block(block));

    for _ in 0..6 {
        let block = handler.create_block(&alice.vk);
        assert!(handler.process_block(block));
    }

    let tx_with_old_utxo = new_tx(&charlie, &[(&tx1, 2)], &[(&bob, 150)], None);
    handler.process_tx(tx_with_old_utxo);
    let block = handler.create_block(&bob.vk);
    assert_eq!(1, block.txs().len());
    assert!(handler.process_block(block));
}

#[test]
fn linear_blocks() {
    let bob = participant();
    let alice = participant();
    let charlie = participant();
    let (mut handler, _genesis_tx) = setup_handler(&bob);

    for i in 0..24 {
        let miner = match i % 3 {
            0 => &bob.vk,
            1 => &alice.vk,
            _ => &charlie.vk,
        };
        let block = handler.create_block(miner);
        assert!(handler.process_block(block));
    }
}

#[test]
fn accept_block_before_cut_off_age() {
    let bob = participant();
    let alice = participant();
    let charlie = participant();
    let (mut handler, genesis_tx) = setup_handler(&bob);
    let genesis_block_hash = handler.hash_at_max_height();

    for i in 0..(CUT_OFF_AGE - 1) {
        let miner = match i % 3 {
            0 => &bob.vk,
            1 => &alice.vk,
            _ => &charlie.vk,
        };
        let block = handler.create_block(miner);
        assert!(handler.process_block(block));
    }

    // a spend of the genesis coinbase makes the fork distinct from the
    // empty first block of the main chain
    let tx = new_tx(&bob, &[(&genesis_tx, 0)], &[(&alice, 100)], None);
    handler.process_tx(tx);
    let new_b = handler.create_fork(genesis_block_hash, &alice.vk);
    assert!(new_b.is_some());
    assert!(handler.process_block(new_b.unwrap()));
}

#[test]
fn reject_block_after_cut_off_age() {
    let bob = participant();
    let alice = participant();
    let charlie = participant();
    let (mut handler, _genesis_tx) = setup_handler(&bob);
    let genesis_block_hash = handler.hash_at_max_height();

    for i in 0..CUT_OFF_AGE {
        let miner = match i % 3 {
            0 => &bob.vk,
            1 => &alice.vk,
            _ => &charlie.vk,
        };
        let block = handler.create_block(miner);
        assert!(handler.process_block(block));
    }

    let new_b = handler.create_fork(genesis_block_hash, &alice.vk);
    assert!(new_b.is_none());
}

#[test]
fn utxo_from_sibling() {
    let bob = participant();
    let alice = participant();
    let (mut handler, genesis_tx) = setup_handler(&bob);
    let genesis_block_hash = handler.hash_at_max_height();

    let tx1 = new_tx(
        &bob,
        &[(&genesis_tx, 0)],
        &[(&alice, 200), (&alice, 200)],
        None,
    );
    handler.process_tx(tx1.clone());
    let block = handler.create_block(&bob.vk);
    assert_eq!(1, block.txs().len());
    assert!(handler.process_block(block));

    // a fork off genesis does not see tx1's outputs
    let tx_depends_on_sibling = new_tx(&alice, &[(&tx1, 0)], &[(&bob, 200)], None);
    handler.process_tx(tx_depends_on_sibling);
    let block = handler.create_fork(genesis_block_hash, &alice.vk).unwrap();
    assert_eq!(0, block.txs().len());
    assert!(handler.process_block(block));
}

// Same-content forks share a hash (the coinbase is not part of the block
// preimage), so of the eight forks only the first is accepted: the rest are
// duplicates. The tip carries that first fork's hash, which is also the
// hash every later fork announced.
#[test]
fn oldest_fork_is_max_height() {
    let bob = participant();
    let alice = participant();
    let (mut handler, _genesis_tx) = setup_handler(&bob);
    let genesis_block_hash = handler.hash_at_max_height();

    let mut last_hash = [0; 32];
    for i in 0..8 {
        let miner = match i % 2 {
            0 => &bob.vk,
            _ => &alice.vk,
        };
        let block = handler.create_fork(genesis_block_hash, miner).unwrap();
        last_hash = block.hash();
        if i == 0 {
            assert!(handler.process_block(block));
        } else {
            assert!(!handler.process_block(block));
        }
    }

    assert_eq!(handler.hash_at_max_height(), last_hash);
}

// With the oldest node at maximal height as the canonical tip, a later fork
// off genesis never displaces the growing main chain: every assembled block
// keeps extending it.
#[test]
fn new_blocks_on_oldest_fork() {
    let bob = participant();
    let alice = participant();
    let charlie = participant();
    let (mut handler, genesis_tx) = setup_handler(&bob);
    let genesis_block_hash = handler.hash_at_max_height();

    let mut previous_block = [0; 32];
    let mut last_hash = [0; 32];
    for round in 0..3u32 {
        // a distinct spend of the genesis coinbase keeps each fork's hash
        // its own
        let tx = new_tx(&bob, &[(&genesis_tx, 0)], &[(&alice, 100 + round)], None);
        handler.process_tx(tx);
        let block = handler.create_fork(genesis_block_hash, &charlie.vk).unwrap();
        assert_eq!(1, block.txs().len());
        if round == 0 {
            // the first fork becomes the tip: nothing taller exists yet
            previous_block = block.hash();
        }
        assert!(handler.process_block(block));

        for j in 1..3 {
            let miner = if j % 2 == 0 { &bob.vk } else { &alice.vk };

            let block = handler.create_block(miner);
            assert_eq!(block.prev(), previous_block);
            previous_block = block.hash();
            last_hash = block.hash();
            assert!(handler.process_block(block));
        }
    }

    assert_eq!(handler.hash_at_max_height(), last_hash);
    let new_block = handler.create_block(&charlie.vk);
    assert_eq!(last_hash, new_block.prev());
    assert!(handler.process_block(new_block));
}

// A parent that has slid out of the retention window can no longer grow a
// fork, while the canonical chain keeps extending past it.
#[test]
fn reject_block_with_cut_off_parent() {
    let bob = participant();
    let alice = participant();
    let charlie = participant();
    let (mut handler, genesis_tx) = setup_handler(&bob);
    let genesis_block_hash = handler.hash_at_max_height();

    // 1st fork: two blocks on top of genesis
    let block = handler.create_fork(genesis_block_hash, &charlie.vk).unwrap();
    assert!(handler.process_block(block));
    let block = handler.create_block(&bob.vk);
    let first_last_block = block.hash();
    assert!(handler.process_block(block));

    // a sibling fork off genesis, made distinct by a spend of the genesis
    // coinbase; the tip stays on the first branch
    let tx = new_tx(&bob, &[(&genesis_tx, 0)], &[(&alice, 100)], None);
    handler.process_tx(tx);
    let block = handler.create_fork(genesis_block_hash, &charlie.vk).unwrap();
    assert_eq!(1, block.txs().len());
    let mut previous_block = first_last_block;
    assert!(handler.process_block(block));
    for j in 0..=CUT_OFF_AGE {
        let miner = if j % 2 == 0 { &bob.vk } else { &alice.vk };

        let block = handler.create_block(miner);
        assert_eq!(block.prev(), previous_block);
        previous_block = block.hash();
        assert!(handler.process_block(block));
    }

    let new_block = handler.create_fork(first_last_block, &charlie.vk);
    assert!(new_block.is_none());
}
