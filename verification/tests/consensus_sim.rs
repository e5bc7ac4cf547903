use std::collections::{HashMap, HashSet};

use fiitcoin::consensus::node::{ByzantineBehaviour, ByzantineNode, Node, TrustedNode};
use fiitcoin::consensus::tx::Candidate;
use rand::SeedableRng;

const NODES: usize = 20;
const ROUNDS: u64 = 10;
const TXS: u64 = 30;

enum AnyNode {
    Trusted(TrustedNode<NODES>),
    Byzantine(ByzantineNode<NODES>),
}

fn followees_set(node: &mut AnyNode, row: [bool; NODES]) {
    match node {
        AnyNode::Trusted(n) => n.followees_set(row),
        AnyNode::Byzantine(n) => n.followees_set(row),
    }
}

fn pending_txs_set(node: &mut AnyNode, txs: HashSet<u64>) {
    match node {
        AnyNode::Trusted(n) => n.pending_txs_set(txs),
        AnyNode::Byzantine(n) => n.pending_txs_set(txs),
    }
}

fn followers_send(node: &AnyNode) -> &HashSet<u64> {
    match node {
        AnyNode::Trusted(n) => n.followers_send(),
        AnyNode::Byzantine(n) => n.followers_send(),
    }
}

fn followees_receive(node: &mut AnyNode, candidates: &Vec<Candidate>) {
    match node {
        AnyNode::Trusted(n) => n.followees_receive(candidates),
        AnyNode::Byzantine(n) => n.followees_receive(candidates),
    }
}

fn is_byzantine(node: &AnyNode) -> bool {
    match node {
        AnyNode::Trusted(n) => n.is_byzantine(),
        AnyNode::Byzantine(n) => n.is_byzantine(),
    }
}

/// A full-graph simulation with one dead, one selfish and one mixed
/// byzantine node: after the rounds, every trusted node holds the same
/// agreed set.
#[test]
fn simulations() {
    let rng = rand::rngs::StdRng::seed_from_u64(17);

    let mut nodes: Vec<AnyNode> = Vec::new();
    for i in 0..NODES {
        let node = match i {
            0 => AnyNode::Byzantine(ByzantineNode::new(
                ByzantineBehaviour::Dead,
                ROUNDS,
                rng.clone(),
            )),
            1 => AnyNode::Byzantine(ByzantineNode::new(
                ByzantineBehaviour::Selfish,
                ROUNDS,
                rng.clone(),
            )),
            2 => AnyNode::Byzantine(ByzantineNode::new(
                ByzantineBehaviour::Mix(500),
                ROUNDS,
                rng.clone(),
            )),
            _ => AnyNode::Trusted(TrustedNode::new(900, 150, 200, ROUNDS)),
        };
        nodes.push(node);
    }

    // everyone follows everyone else
    let mut followees = [[false; NODES]; NODES];
    for i in 0..NODES {
        for j in 0..NODES {
            if i != j {
                followees[i][j] = true;
            }
        }
    }
    for i in 0..NODES {
        followees_set(&mut nodes[i], followees[i]);
    }

    let mut valid_tx_ids: HashSet<u64> = HashSet::new();
    for t in 0..TXS {
        valid_tx_ids.insert(t);
    }

    for i in 0..NODES {
        let mut pending: HashSet<u64> = HashSet::new();
        for t in 0..TXS {
            if (t as usize + i) % 3 == 0 {
                pending.insert(t);
            }
        }
        pending_txs_set(&mut nodes[i], pending);
    }

    // a dead node proposes nothing, from the very first round
    assert!(followers_send(&nodes[0]).is_empty());

    for _ in 0..ROUNDS {
        let mut all_proposals: HashMap<usize, Vec<Candidate>> = HashMap::new();
        for i in 0..NODES {
            let proposals: Vec<u64> = followers_send(&nodes[i]).iter().copied().collect();
            for tx in proposals {
                if !valid_tx_ids.contains(&tx) {
                    continue;
                }
                for j in 0..NODES {
                    if !followees[j][i] {
                        continue;
                    }
                    all_proposals
                        .entry(j)
                        .or_insert_with(Vec::new)
                        .push(Candidate::new(tx, i as u64));
                }
            }
        }
        for j in 0..NODES {
            if let Some(candidates) = all_proposals.get(&j) {
                followees_receive(&mut nodes[j], candidates);
            }
        }
        // still nothing from the dead node
        assert!(followers_send(&nodes[0]).is_empty());
    }

    let mut consensuses: HashSet<Vec<u64>> = HashSet::new();
    for i in 0..NODES {
        if is_byzantine(&nodes[i]) {
            continue;
        }
        let mut txs: Vec<u64> = followers_send(&nodes[i]).iter().copied().collect();
        txs.sort();
        consensuses.insert(txs);
    }
    assert_eq!(1, consensuses.len());
}

/// With a threshold of one, a single proposal reaches consensus.
#[test]
fn single_sender_reaches_low_threshold() {
    // ceil(4 * 1.0) - ceil(4 * 0.75) = 4 - 3 = 1
    let mut node = TrustedNode::<4>::new(1000, 750, 0, 1);
    node.followees_set([true; 4]);
    node.pending_txs_set(HashSet::new());

    node.followees_receive(&vec![Candidate::new(42, 1)]);
    assert!(node.followers_send().contains(&42));
    assert_eq!(1, node.followers_send().len());
}

/// With a threshold of two, one sender is not enough and two distinct
/// senders are.
#[test]
fn two_distinct_senders_reach_threshold() {
    // ceil(4 * 1.0) - ceil(4 * 0.5) = 4 - 2 = 2
    let mut node = TrustedNode::<4>::new(1000, 500, 0, 2);
    node.followees_set([true; 4]);
    node.pending_txs_set(HashSet::new());

    node.followees_receive(&vec![Candidate::new(7, 1), Candidate::new(7, 1)]);
    // one distinct sender, twice: no consensus, but the tx is pending
    assert!(node.followers_send().contains(&7));

    node.followees_receive(&vec![Candidate::new(7, 2)]);
    // rounds exhausted: the agreed set is sent, and 7 made it
    assert!(node.followers_send().contains(&7));
    assert_eq!(1, node.followers_send().len());
}

/// A selfish node proposes exactly its seed set, every round.
#[test]
fn selfish_node_repeats_its_seed() {
    let rng = rand::rngs::StdRng::seed_from_u64(3);
    let mut node: ByzantineNode<4> = ByzantineNode::new(ByzantineBehaviour::Selfish, 3, rng);
    node.followees_set([true; 4]);
    let mut seed = HashSet::new();
    seed.insert(5u64);
    seed.insert(9u64);
    node.pending_txs_set(seed.clone());

    assert_eq!(&seed, followers_send_byz(&node));
    node.followees_receive(&vec![Candidate::new(1, 2)]);
    assert_eq!(&seed, followers_send_byz(&node));
}

fn followers_send_byz(node: &ByzantineNode<4>) -> &HashSet<u64> {
    node.followers_send()
}
