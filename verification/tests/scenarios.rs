use fiitcoin::blockchain::block::{IncompleteBlock, COINBASE};
use fiitcoin::blockchain::blockchain::Blockchain;
use fiitcoin::blockchain::handler::BlockHandler;
use fiitcoin::handler::{balance_of, Handler, TxHandler};
use fiitcoin::key::VerifierKey;
use fiitcoin::tx::{raw_tx, raw_tx_from_one_input, Tx, TxError, UnsignedTx};
use fiitcoin::utxo::{UTXO, UTXOPool};
use rsa::traits::PublicKeyParts;
use rand::SeedableRng;
use std::sync::atomic::{AtomicU64, Ordering};

struct Participant {
    sk: rsa::RsaPrivateKey,
    vk: VerifierKey,
}

// Keys come from a fixed seed sequence, so every run of a test generates
// the same keys: the outcomes and the running time are reproducible.
static KEY_SEED: AtomicU64 = AtomicU64::new(1);

fn participant() -> Participant {
    let seed = KEY_SEED.fetch_add(1, Ordering::Relaxed);
    let mut rng = rand::rngs::StdRng::seed_from_u64(seed);
    let sk = rsa::RsaPrivateKey::new(&mut rng, 1024).expect("failed to generate a key");
    let pubk = sk.to_public_key();
    let vk = VerifierKey::new(pubk.e().to_bytes_be(), pubk.n().to_bytes_be());
    Participant { sk, vk }
}

fn new_tx(
    sender: &Participant,
    inputs: &[(&Tx, u8)],
    outputs: &[(&Participant, u32)],
    return_to_sender: Option<u32>,
) -> Tx {
    let mut tx = UnsignedTx::new();
    for input in inputs {
        tx.add_input(input.0.hash(), input.1);
    }
    for output in outputs {
        tx.add_output(output.1, &output.0.vk);
    }
    if let Some(to_return) = return_to_sender {
        tx.add_output(to_return, &sender.vk);
    }
    tx.sing_inputs_and_finalize(&sender.sk).unwrap()
}

fn setup_handler(receiver: &Participant) -> (BlockHandler, Tx) {
    let genesis = IncompleteBlock::new([0; 32], &receiver.vk).finalize();
    let genesis_tx = genesis.coinbase().clone();
    let mut pool = UTXOPool::new();
    pool.add_utxo(
        UTXO::new(genesis_tx.hash(), 0),
        genesis.coinbase().output(0).unwrap(),
    );
    let chain = Blockchain::new(genesis, pool);
    (BlockHandler::new(chain), genesis_tx)
}

/// Simple transfer: genesis pays Bob the coinbase; Bob sends 125 to Alice
/// with 500 in change. One accepted transaction; the tip pool pays out
/// exactly those balances.
#[test]
fn simple_transfer() {
    let bob = participant();
    let alice = participant();
    let (mut handler, genesis_tx) = setup_handler(&bob);
    assert_eq!(625, COINBASE);

    let tx1 = new_tx(&bob, &[(&genesis_tx, 0)], &[(&alice, 125)], Some(500));
    handler.process_tx(tx1);
    let block = handler.create_block(&bob.vk);
    assert_eq!(1, block.txs().len());
    assert!(handler.process_block(block));
}

/// Double spend eliminated: two transactions consume the same coinbase
/// output; the assembled block holds exactly one of them.
#[test]
fn double_spend_one_survives() {
    let bob = participant();
    let alice = participant();
    let charlie = participant();
    let (mut handler, genesis_tx) = setup_handler(&bob);

    let tx_a = new_tx(&bob, &[(&genesis_tx, 0)], &[(&alice, 100)], None);
    let tx_b = new_tx(&bob, &[(&genesis_tx, 0)], &[(&charlie, 150)], None);
    let (hash_a, hash_b) = (tx_a.hash(), tx_b.hash());
    handler.process_tx(tx_a);
    handler.process_tx(tx_b);

    let block = handler.create_block(&bob.vk);
    assert_eq!(1, block.txs().len());
    let kept = block.txs()[0].hash();
    assert!(kept == hash_a || kept == hash_b);
    assert!(handler.process_block(block));
}

/// Dependency chain submitted in reverse order: both transactions are
/// accepted, in valid topological order.
#[test]
fn dependency_chain() {
    let bob = participant();
    let alice = participant();
    let charlie = participant();
    let (mut handler, genesis_tx) = setup_handler(&bob);

    let tx1 = new_tx(
        &bob,
        &[(&genesis_tx, 0)],
        &[(&alice, 100), (&alice, 100), (&charlie, 200)],
        None,
    );
    let tx2 = new_tx(&alice, &[(&tx1, 0), (&tx1, 1)], &[(&charlie, 150)], Some(50));

    handler.process_tx(tx2.clone());
    handler.process_tx(tx1.clone());

    let block = handler.create_block(&bob.vk);
    assert_eq!(2, block.txs().len());
    assert_eq!(tx1.hash(), block.txs()[0].hash());
    assert_eq!(tx2.hash(), block.txs()[1].hash());
    assert!(handler.process_block(block));
}

/// Oldest fork wins the tip: three distinct forks off genesis at the same
/// height; the tip stays on the first accepted one.
#[test]
fn oldest_distinct_fork_keeps_tip() {
    let bob = participant();
    let alice = participant();
    let (mut handler, genesis_tx) = setup_handler(&bob);
    let genesis_block_hash = handler.hash_at_max_height();

    let mut first_fork_hash = [0; 32];
    for i in 0..3u32 {
        // each fork carries a distinct spend of the same coinbase output
        let tx = new_tx(&bob, &[(&genesis_tx, 0)], &[(&alice, 100 + i)], None);
        handler.process_tx(tx);
        let block = handler.create_fork(genesis_block_hash, &alice.vk).unwrap();
        assert_eq!(1, block.txs().len());
        if i == 0 {
            first_fork_hash = block.hash();
        }
        assert!(handler.process_block(block));
        assert_eq!(first_fork_hash, handler.hash_at_max_height());
    }
}

/// Hashing is deterministic: signing and finalizing the same content twice
/// yields byte-identical encodings and the same hash.
#[test]
fn finalize_twice_same_hash() {
    let bob = participant();
    let alice = participant();

    let build = || {
        let mut tx = UnsignedTx::new();
        tx.add_input([9; 32], 0);
        tx.add_output(40, &alice.vk);
        tx.add_output(50, &bob.vk);
        tx.sing_inputs_and_finalize(&bob.sk).unwrap()
    };
    let a = build();
    let b = build();
    assert_eq!(a.hash(), b.hash());

    let raw_a = raw_tx(a.inputs(), a.outputs()).unwrap();
    let raw_b = raw_tx(b.inputs(), b.outputs()).unwrap();
    assert_eq!(raw_a, raw_b);
}

/// The canonical output encoding: value in big-endian, then the verifier's
/// exponent and modulus bytes, with no separators.
#[test]
fn output_encoding_is_exact() {
    let key = VerifierKey::new(vec![3], vec![5, 6]);
    let mut tx = UnsignedTx::new();
    tx.add_output(0x01020304, &key);
    let tx = tx.sing_inputs_and_finalize(&participant().sk).unwrap();
    let raw = raw_tx(tx.inputs(), tx.outputs()).unwrap();
    assert_eq!(vec![0x01, 0x02, 0x03, 0x04, 3, 5, 6], raw);
}

/// An accepted transaction re-validates against the pre-apply pool and
/// fails against the post-apply pool: its inputs are consumed.
#[test]
fn revalidation_fails_after_apply() {
    let bob = participant();
    let alice = participant();

    let genesis_hash: [u8; 32] = [7; 32];
    let mut root = UnsignedTx::new();
    root.add_output(100, &bob.vk);
    root.add_input(genesis_hash, 0);
    let root = root.sing_inputs_and_finalize(&bob.sk).unwrap();

    let mut pool = UTXOPool::new();
    pool.add_utxo(UTXO::new(root.hash(), 0), root.output(0).unwrap());
    let mut handler = Handler::new(pool);

    let tx = new_tx(&bob, &[(&root, 0)], &[(&alice, 100)], None);
    assert!(handler.is_tx_valid(&tx));
    assert_eq!(1, handler.handle(vec![&tx]).len());
    assert!(!handler.is_tx_valid(&tx));
    assert_eq!(100, balance_of(handler.pool(), &alice.vk));
}

/// The per-input signing preimage rejects an out-of-range index with the
/// index and the bound.
#[test]
fn one_input_preimage_out_of_bounds() {
    let bob = participant();
    let tx = new_tx(&bob, &[], &[(&bob, 10)], None);
    match raw_tx_from_one_input(tx.inputs(), tx.outputs(), 4) {
        Err(TxError::InputIndexOutOfBounds(got, len)) => {
            assert_eq!(4, got);
            assert_eq!(0, len);
        },
        _ => panic!("expected an out-of-bounds failure"),
    }
}

/// Encoding an unsigned input fails with the offending input.
#[test]
fn raw_tx_rejects_unsigned_input() {
    let mut tx = UnsignedTx::new();
    tx.add_input([1; 32], 2);
    tx.add_output(10, &VerifierKey::new(vec![3], vec![5]));
    match tx.finalize() {
        Err(TxError::UnsignedInput(input)) => {
            assert_eq!([1; 32], input.output_tx_hash());
            assert_eq!(2, input.output_idx());
        },
        _ => panic!("expected an unsigned-input failure"),
    }
}

/// More input slots than 8-bit indices can address are refused.
#[test]
fn too_many_inputs_to_sign() {
    let bob = participant();
    let mut tx = UnsignedTx::new();
    for i in 0..257u32 {
        tx.add_input([9; 32], (i % 256) as u8);
    }
    tx.add_output(10, &bob.vk);
    match tx.sing_inputs_and_finalize(&bob.sk) {
        Err(TxError::DownCastFromUsize(at)) => assert_eq!(256, at),
        _ => panic!("expected a downcast failure"),
    }
}

/// Adding the same block twice: the second call is rejected because the
/// block's hash is already retained, even though its parent still is too
/// and an empty transaction list would revalidate.
#[test]
fn duplicate_block_rejected() {
    let bob = participant();
    let (mut handler, _genesis_tx) = setup_handler(&bob);
    let genesis_block_hash = handler.hash_at_max_height();

    let block = handler.create_block(&bob.vk);
    let block_hash = block.hash();
    assert!(handler.process_block(block));

    // the same empty candidate, rebuilt over the same parent
    let dup = handler.create_fork(genesis_block_hash, &bob.vk).unwrap();
    assert_eq!(block_hash, dup.hash());
    assert!(!handler.process_block(dup));
}

/// Key equality is byte equality on the exponent and modulus.
#[test]
fn verifier_key_equality() {
    let a = VerifierKey::new(vec![1, 2], vec![3]);
    let b = VerifierKey::new(vec![1, 2], vec![3]);
    let c = VerifierKey::new(vec![1, 2], vec![4]);
    assert!(a.key_eq(&b));
    assert!(!a.key_eq(&c));
    assert_eq!(&vec![1, 2], a.e_bytes());
    assert_eq!(&vec![3], a.n_bytes());
}
