//! Trusted and byzantine node behaviours for the gossip rounds.
//!
//! A trusted node accumulates every transaction it hears, counts the
//! distinct senders behind each, and marks a transaction as agreed once the
//! count reaches its threshold. After its final round it proposes the agreed
//! set instead of the pending one. Probabilities are carried in thousandths,
//! so the round logic stays in integer arithmetic.

use std::collections::{HashMap, HashSet};

use vstd::prelude::*;

use crate::consensus::tx::Candidate;
use crate::crypto::rand_below;

verus! {

broadcast use vstd::std_specs::hash::group_hash_axioms;

/// The set of transactions a candidate list proposes.
pub open spec fn candidate_txs(cs: Seq<Candidate>) -> Set<u64> {
    Set::new(|t: u64| exists|i: int| 0 <= i < cs.len() && (#[trigger] cs[i]).tx == t)
}

/// The senders recorded for `t`, the empty set when none yet.
pub open spec fn senders_of(m: Map<u64, HashSet<u64>>, t: u64) -> Set<u64> {
    if m.contains_key(t) {
        m[t]@
    } else {
        Set::empty()
    }
}

/// The senders recorded for `t` after a candidate list is ingested.
pub open spec fn senders_after(m: Map<u64, HashSet<u64>>, cs: Seq<Candidate>, t: u64) -> Set<
    u64,
> {
    senders_of(m, t).union(
        Set::new(|s: u64| exists|i: int|
            0 <= i < cs.len() && (#[trigger] cs[i]).tx == t && cs[i].sender == s),
    )
}

/// Every recorded sender set is finite; they are built by insertion alone.
pub open spec fn received_finite(m: Map<u64, HashSet<u64>>) -> bool {
    forall|t: u64| #[trigger] m.contains_key(t) ==> m[t]@.finite()
}

/// One more ingested candidate extends the recorded senders of its
/// transaction by its sender and leaves every other transaction's senders
/// unchanged.
pub proof fn lemma_senders_after_step(
    m0: Map<u64, HashSet<u64>>,
    cs: Seq<Candidate>,
    i: int,
    t: u64,
)
    requires
        0 <= i < cs.len(),
    ensures
        cs[i].tx == t ==> senders_after(m0, cs.take(i + 1), t) == senders_after(
            m0,
            cs.take(i),
            t,
        ).insert(cs[i].sender),
        cs[i].tx != t ==> senders_after(m0, cs.take(i + 1), t) == senders_after(m0, cs.take(i), t),
{
    let a = senders_after(m0, cs.take(i), t);
    let b = senders_after(m0, cs.take(i + 1), t);
    assert forall|x: u64| #[trigger] b.contains(x) implies a.contains(x) || (cs[i].tx == t
        && cs[i].sender == x) by {
        if !senders_of(m0, t).contains(x) {
            let k = choose|k: int|
                0 <= k < cs.take(i + 1).len() && (#[trigger] cs.take(i + 1)[k]).tx == t && cs.take(
                    i + 1,
                )[k].sender == x;
            if k < i {
                assert((cs.take(i)[k]).tx == t && cs.take(i)[k].sender == x);
            } else {
                assert(cs.take(i + 1)[i] == cs[i]);
            }
        }
    }
    assert forall|x: u64| #[trigger] a.contains(x) implies b.contains(x) by {
        if !senders_of(m0, t).contains(x) {
            let k = choose|k: int|
                0 <= k < cs.take(i).len() && (#[trigger] cs.take(i)[k]).tx == t && cs.take(
                    i,
                )[k].sender == x;
            assert((cs.take(i + 1)[k]).tx == t && cs.take(i + 1)[k].sender == x);
        }
    }
    if cs[i].tx == t {
        assert(cs.take(i + 1)[i] == cs[i]);
        assert(b.contains(cs[i].sender));
        assert(b =~= a.insert(cs[i].sender));
    } else {
        assert(b =~= a);
    }
}

/// One more ingested candidate adds exactly its transaction.
pub proof fn lemma_candidate_txs_step(cs: Seq<Candidate>, i: int)
    requires
        0 <= i < cs.len(),
    ensures
        candidate_txs(cs.take(i + 1)) == candidate_txs(cs.take(i)).insert(cs[i].tx),
{
    assert forall|t: u64| #[trigger] candidate_txs(cs.take(i + 1)).contains(t)
        implies candidate_txs(cs.take(i)).insert(cs[i].tx).contains(t) by {
        let k = choose|k: int|
            0 <= k < cs.take(i + 1).len() && (#[trigger] cs.take(i + 1)[k]).tx == t;
        if k < i {
            assert((cs.take(i)[k]).tx == t);
        } else {
            assert(cs.take(i + 1)[i] == cs[i]);
        }
    }
    assert forall|t: u64| candidate_txs(cs.take(i)).insert(cs[i].tx).contains(t)
        implies #[trigger] candidate_txs(cs.take(i + 1)).contains(t) by {
        if candidate_txs(cs.take(i)).contains(t) {
            let k = choose|k: int| 0 <= k < cs.take(i).len() && (#[trigger] cs.take(i)[k]).tx == t;
            assert((cs.take(i + 1)[k]).tx == t);
        } else {
            assert((cs.take(i + 1)[i]).tx == cs[i].tx);
        }
    }
    assert(candidate_txs(cs.take(i + 1)) =~= candidate_txs(cs.take(i)).insert(cs[i].tx));
}

/// The ceiling of `n * p / 1000`, for a probability `p` in thousandths.
pub open spec fn ceil_mille(n: int, p: int) -> int {
    (n * p + 999) / 1000
}

/// The consensus threshold: the expected count of honest followees, at
/// least one.
pub open spec fn threshold_spec(n: int, pg: int, pb: int) -> int {
    let d = ceil_mille(n, pg) - ceil_mille(n, pb);
    if d < 1 {
        1
    } else {
        d
    }
}

/// A gossip participant, over a population of `N` nodes.
pub trait Node<const N: usize>: Sized {
    /// Whether the node is in the state its operations expect.
    spec fn ready(&self) -> bool;

    /// The rounds this node still expects to receive.
    spec fn rounds_left(&self) -> u64;

    /// Installs the follow row: entry `i` is true when this node follows
    /// node `i`.
    fn followees_set(&mut self, followees: [bool; N])
        requires
            old(self).ready(),
            N <= 0x7fff_ffff,
        ensures
            final(self).ready(),
            final(self).rounds_left() == old(self).rounds_left(),
    ;

    /// Seeds the node's initial transaction set.
    fn pending_txs_set(&mut self, pending_txs: HashSet<u64>)
        requires
            old(self).ready(),
        ensures
            final(self).ready(),
            final(self).rounds_left() == old(self).rounds_left(),
    ;

    /// The transactions this node proposes to its followers this round.
    fn followers_send(&self) -> &HashSet<u64>
        requires
            self.ready(),
    ;

    /// Ingests the proposals of this node's followees for one round.
    fn followees_receive(&mut self, candidates: &Vec<Candidate>)
        requires
            old(self).ready(),
            old(self).rounds_left() >= 1,
        ensures
            final(self).ready(),
            final(self).rounds_left() == old(self).rounds_left() - 1,
    ;

    /// Whether this node is byzantine.
    fn is_byzantine(&self) -> bool;
}

/// A protocol-following node.
pub struct TrustedNode<const N: usize> {
    /// Probability of a follow edge, in thousandths.
    p_graph_mille: u32,
    /// Probability of a node being byzantine, in thousandths.
    p_byzantine_mille: u32,
    /// Probability of a transaction being seeded to a node, in thousandths.
    p_tx_dist_mille: u32,
    /// Rounds still to run; the final round has been received at zero.
    num_rounds: u64,
    /// Entry `i` is true when this node follows node `i`.
    followees: [bool; N],
    /// Every transaction heard so far, the seed set included.
    pending_txs: HashSet<u64>,
    /// The distinct senders heard behind each transaction.
    received_txs: HashMap<u64, HashSet<u64>>,
    /// The transactions heard from at least `consensus_threshold` senders.
    consensus_reached: HashSet<u64>,
    /// How many distinct senders make a transaction agreed, at least one.
    consensus_threshold: usize,
}

impl<const N: usize> TrustedNode<N> {
    /// The probabilities are thousandths, and every recorded sender set is
    /// finite.
    pub open spec fn wf(&self) -> bool {
        &&& self.spec_p_graph() <= 1000
        &&& self.spec_p_byzantine() <= 1000
        &&& received_finite(self.spec_received())
    }

    /// The follow-edge probability, in thousandths.
    pub closed spec fn spec_p_graph(&self) -> u32 {
        self.p_graph_mille
    }

    /// The byzantine probability, in thousandths.
    pub closed spec fn spec_p_byzantine(&self) -> u32 {
        self.p_byzantine_mille
    }

    /// The rounds still to run.
    pub closed spec fn spec_rounds(&self) -> u64 {
        self.num_rounds
    }

    /// The pending set.
    pub closed spec fn spec_pending(&self) -> Set<u64> {
        self.pending_txs@
    }

    /// The recorded senders.
    pub closed spec fn spec_received(&self) -> Map<u64, HashSet<u64>> {
        self.received_txs@
    }

    /// The agreed set.
    pub closed spec fn spec_consensus(&self) -> Set<u64> {
        self.consensus_reached@
    }

    /// The threshold.
    pub closed spec fn spec_threshold(&self) -> usize {
        self.consensus_threshold
    }

    /// A fresh node for a simulation of `num_rounds` rounds, with the given
    /// probabilities in thousandths.
    pub fn new(p_graph_mille: u32, p_byzantine_mille: u32, p_tx_dist_mille: u32, num_rounds: u64) -> (r:
        Self)
        requires
            p_graph_mille <= 1000,
            p_byzantine_mille <= 1000,
        ensures
            r.wf(),
            r.spec_p_graph() == p_graph_mille,
            r.spec_p_byzantine() == p_byzantine_mille,
            r.spec_rounds() == num_rounds,
            r.spec_pending() == Set::<u64>::empty(),
            r.spec_received() == Map::<u64, HashSet<u64>>::empty(),
            r.spec_consensus() == Set::<u64>::empty(),
            r.spec_threshold() == 0usize,
    {
        TrustedNode {
            p_graph_mille,
            p_byzantine_mille,
            p_tx_dist_mille,
            num_rounds,
            followees: [false;N],
            pending_txs: HashSet::new(),
            received_txs: HashMap::new(),
            consensus_reached: HashSet::new(),
            consensus_threshold: 0,
        }
    }
}

impl<const N: usize> Node<N> for TrustedNode<N> {
    /// Ready whenever well-formed.
    open spec fn ready(&self) -> bool {
        self.wf()
    }

    /// The rounds still to run.
    open spec fn rounds_left(&self) -> u64 {
        self.spec_rounds()
    }

    /// Installs the follow row and fixes the threshold from the expected
    /// honest followee count.
    fn followees_set(&mut self, followees: [bool; N])
        ensures
            final(self).wf(),
            final(self).spec_threshold() as int == threshold_spec(
                N as int,
                old(self).spec_p_graph() as int,
                old(self).spec_p_byzantine() as int,
            ),
            final(self).spec_pending() == old(self).spec_pending(),
            final(self).spec_received() == old(self).spec_received(),
            final(self).spec_consensus() == old(self).spec_consensus(),
            final(self).spec_rounds() == old(self).spec_rounds(),
    {
        self.followees = followees;
        proof {
            assert((N as int) * (self.p_graph_mille as int) <= 0x7fff_ffff * 1000int)
                by (nonlinear_arith)
                requires
                    N <= 0x7fff_ffff,
                    self.p_graph_mille <= 1000,
            ;
            assert((N as int) * (self.p_byzantine_mille as int) <= 0x7fff_ffff * 1000int)
                by (nonlinear_arith)
                requires
                    N <= 0x7fff_ffff,
                    self.p_byzantine_mille <= 1000,
            ;
        }
        let pf: u64 = ((N as u64) * (self.p_graph_mille as u64) + 999) / 1000;
        let pb: u64 = ((N as u64) * (self.p_byzantine_mille as u64) + 999) / 1000;
        let d: u64 = if pf > pb {
            pf - pb
        } else {
            0
        };
        let t: u64 = if d < 1 {
            1
        } else {
            d
        };
        self.consensus_threshold = t as usize;
    }

    /// Seeds the pending set.
    fn pending_txs_set(&mut self, pending_txs: HashSet<u64>)
        ensures
            final(self).spec_pending() == pending_txs@,
            final(self).spec_received() == old(self).spec_received(),
            final(self).spec_consensus() == old(self).spec_consensus(),
            final(self).spec_rounds() == old(self).spec_rounds(),
            final(self).spec_threshold() == old(self).spec_threshold(),
            final(self).wf() == old(self).wf(),
    {
        self.pending_txs = pending_txs;
    }

    /// Before the final round has been received, the pending set; after it,
    /// the agreed set.
    fn followers_send(&self) -> (r: &HashSet<u64>)
        ensures
            r@ == if self.spec_rounds() == 0 {
                self.spec_consensus()
            } else {
                self.spec_pending()
            },
    {
        if self.num_rounds == 0 {
            &self.consensus_reached
        } else {
            &self.pending_txs
        }
    }

    /// Ingests one round of proposals: every proposed transaction joins the
    /// pending set, its sender is recorded, and a transaction joins the
    /// agreed set exactly when it is proposed and its distinct sender count
    /// reaches the threshold.
    fn followees_receive(&mut self, candidates: &Vec<Candidate>)
        ensures
            final(self).spec_rounds() == old(self).spec_rounds() - 1,
            final(self).spec_threshold() == old(self).spec_threshold(),
            final(self).wf() == old(self).wf(),
            final(self).spec_pending() == old(self).spec_pending().union(
                candidate_txs(candidates@),
            ),
            forall|t: u64|
                senders_of(final(self).spec_received(), t) == senders_after(
                    old(self).spec_received(),
                    candidates@,
                    t,
                ),
            forall|t: u64|
                old(self).spec_consensus().contains(t) ==> final(self).spec_consensus().contains(
                    t,
                ),
            forall|t: u64|
                #[trigger] final(self).spec_consensus().contains(t) ==> old(self).spec_consensus().contains(t) || candidate_txs(candidates@).contains(t),
            forall|t: u64|
                candidate_txs(candidates@).contains(t) && senders_after(
                    old(self).spec_received(),
                    candidates@,
                    t,
                ).len() >= old(self).spec_threshold() ==> #[trigger] final(self).spec_consensus().contains(t),
            forall|t: u64|
                #[trigger] final(self).spec_consensus().contains(t) ==> old(self).spec_consensus().contains(t)
                    || senders_after(old(self).spec_received(), candidates@, t).len() >= old(self).spec_threshold(),
    {
        self.num_rounds = self.num_rounds - 1;
        let ghost m0 = self.received_txs@;
        let ghost p0 = self.pending_txs@;
        let ghost c0 = self.consensus_reached@;
        let ghost cs = candidates@;
        let mut i: usize = 0;
        proof {
            assert forall|t: u64|
                senders_of(self.received_txs@, t) =~= senders_after(m0, cs.take(0), t) by {
                assert(cs.take(0) =~= Seq::<Candidate>::empty());
            }
            assert(p0.union(candidate_txs(cs.take(0))) =~= p0);
        }
        while i < candidates.len()
            invariant
                i <= candidates.len(),
                cs == candidates@,
                self.consensus_threshold == old(self).spec_threshold(),
                self.num_rounds == old(self).spec_rounds() - 1,
                self.p_graph_mille == old(self).spec_p_graph(),
                self.p_byzantine_mille == old(self).spec_p_byzantine(),
                forall|t: u64|
                    #[trigger] senders_of(self.received_txs@, t) == senders_after(m0, cs.take(i as int), t),
                self.pending_txs@ == p0.union(candidate_txs(cs.take(i as int))),
                forall|t: u64| c0.contains(t) ==> self.consensus_reached@.contains(t),
                forall|t: u64|
                    #[trigger] self.consensus_reached@.contains(t) ==> c0.contains(t)
                        || candidate_txs(cs.take(i as int)).contains(t),
                forall|t: u64|
                    candidate_txs(cs.take(i as int)).contains(t) && senders_after(
                        m0,
                        cs.take(i as int),
                        t,
                    ).len() >= self.consensus_threshold
                        ==> #[trigger] self.consensus_reached@.contains(t),
                received_finite(self.received_txs@),
                forall|t: u64|
                    #[trigger] self.consensus_reached@.contains(t) ==> c0.contains(t)
                        || senders_after(m0, cs.take(i as int), t).len()
                        >= self.consensus_threshold,
            decreases candidates.len() - i,
        {
            let candidate = &candidates[i];
            let ghost t0 = candidate.tx;
            let ghost mpre = self.received_txs@;
            let ghost cprev = self.consensus_reached@;
            let mut senders = match self.received_txs.remove(&candidate.tx) {
                Some(s) => s,
                None => HashSet::new(),
            };
            let ghost before = senders@;
            proof {
                assert(before =~= senders_of(mpre, t0));
                assert(before.finite());
                assert(senders_of(mpre, t0) == senders_after(m0, cs.take(i as int), t0));
                lemma_senders_after_step(m0, cs, i as int, t0);
                lemma_candidate_txs_step(cs, i as int);
            }
            senders.insert(candidate.sender);
            let count = senders.len();
            proof {
                assert(count as int == senders_after(m0, cs.take(i + 1), t0).len());
            }
            self.received_txs.insert(candidate.tx, senders);
            proof {
                assert forall|t: u64|
                    #[trigger] senders_of(self.received_txs@, t) == senders_after(
                    m0,
                    cs.take(i + 1),
                    t,
                ) by {
                    lemma_senders_after_step(m0, cs, i as int, t);
                    if t == t0 {
                        assert(senders_of(self.received_txs@, t0) == before.insert(
                            candidate.sender,
                        ));
                    } else {
                        assert(senders_of(self.received_txs@, t) == senders_of(mpre, t));
                        assert(senders_of(mpre, t) == senders_after(m0, cs.take(i as int), t));
                    }
                }
            }
            if count >= self.consensus_threshold {
                self.consensus_reached.insert(candidate.tx);
            }
            self.pending_txs.insert(candidate.tx);
            proof {
                assert(self.pending_txs@ =~= p0.union(candidate_txs(cs.take(i + 1))));
                assert forall|t: u64|
                    candidate_txs(cs.take(i + 1)).contains(t) && senders_after(
                        m0,
                        cs.take(i + 1),
                        t,
                    ).len() >= self.consensus_threshold
                        implies #[trigger] self.consensus_reached@.contains(t) by {
                    lemma_senders_after_step(m0, cs, i as int, t);
                    if t != t0 {
                        assert(candidate_txs(cs.take(i as int)).contains(t));
                    }
                }
                assert forall|t: u64|
                    #[trigger] self.consensus_reached@.contains(t) implies c0.contains(t)
                        || candidate_txs(cs.take(i + 1)).contains(t) by {
                    if !c0.contains(t) && !candidate_txs(cs.take(i as int)).contains(t) {
                        assert(t == t0);
                    }
                }
                assert forall|t: u64|
                    #[trigger] self.consensus_reached@.contains(t) implies c0.contains(t)
                        || senders_after(m0, cs.take(i + 1), t).len()
                        >= self.consensus_threshold by {
                    lemma_senders_after_step(m0, cs, i as int, t);
                    if !c0.contains(t) {
                        if cprev.contains(t) {
                            // the count this transaction reached earlier only grows
                            if t == t0 {
                                assert(senders_after(m0, cs.take(i as int), t0) == before);
                                assert(senders_after(m0, cs.take(i + 1), t0) == before.insert(
                                    candidate.sender,
                                ));
                                assert(before.insert(candidate.sender).len() >= before.len());
                            }
                        } else {
                            // newly agreed this step: the fresh count decided it
                            assert(t == t0);
                            assert(count >= self.consensus_threshold);
                        }
                    }
                }
            }
            i += 1;
        }
        proof {
            assert(cs.take(cs.len() as int) =~= cs);
        }
    }

    /// A trusted node is not byzantine.
    fn is_byzantine(&self) -> (r: bool)
        ensures
            r == false,
    {
        false
    }
}

/// What a byzantine node does each round.
pub enum ByzantineBehaviour {
    /// Proposes nothing, ever.
    Dead,
    /// Proposes only its own seed set and never relays.
    Selfish,
    /// Behaves as Dead with the carried probability, in thousandths, drawn
    /// each round from an injected generator; otherwise as Selfish.
    Mix(u32),
}

impl ByzantineBehaviour {
    /// Whether this is the dead behaviour.
    pub open spec fn is_dead(&self) -> bool {
        self is Dead
    }
}

/// A node that deviates from the protocol.
pub struct ByzantineNode<const N: usize> {
    behaviour: ByzantineBehaviour,
    /// Rounds still to run.
    num_rounds: u64,
    /// Entry `i` is true when this node follows node `i`.
    followees: [bool; N],
    /// The seed set given to this node.
    pending_txs: HashSet<u64>,
    /// Whether the node currently proposes its seed set; a dead node never
    /// does.
    active: bool,
    /// The empty proposal of an inactive round.
    nothing: HashSet<u64>,
    /// The injected generator deciding the mixed behaviour.
    rng: rand::rngs::StdRng,
}

impl<const N: usize> ByzantineNode<N> {
    /// The behaviour chosen at construction.
    pub closed spec fn spec_behaviour(&self) -> ByzantineBehaviour {
        self.behaviour
    }

    /// The rounds still to run.
    pub closed spec fn spec_rounds(&self) -> u64 {
        self.num_rounds
    }

    /// The seed set.
    pub closed spec fn spec_pending(&self) -> Set<u64> {
        self.pending_txs@
    }

    /// Whether the node proposes its seed set this round.
    pub closed spec fn spec_active(&self) -> bool {
        self.active
    }

    /// A dead node is never active, and the inactive proposal is empty.
    pub open spec fn wf(&self) -> bool {
        &&& self.spec_behaviour().is_dead() ==> !self.spec_active()
        &&& self.spec_nothing() == Set::<u64>::empty()
    }

    /// The empty proposal.
    pub closed spec fn spec_nothing(&self) -> Set<u64> {
        self.nothing@
    }

    /// A fresh byzantine node with the given behaviour and generator.
    pub fn new(behaviour: ByzantineBehaviour, num_rounds: u64, rng: rand::rngs::StdRng) -> (r:
        Self)
        ensures
            r.wf(),
            r.spec_behaviour() == behaviour,
            r.spec_rounds() == num_rounds,
            r.spec_pending() == Set::<u64>::empty(),
            !r.spec_active(),
    {
        ByzantineNode {
            behaviour,
            num_rounds,
            followees: [false;N],
            pending_txs: HashSet::new(),
            active: false,
            nothing: HashSet::new(),
            rng,
        }
    }
}

impl<const N: usize> Node<N> for ByzantineNode<N> {
    /// Ready whenever well-formed.
    open spec fn ready(&self) -> bool {
        self.wf()
    }

    /// The rounds still to run.
    open spec fn rounds_left(&self) -> u64 {
        self.spec_rounds()
    }

    /// Installs the follow row; a byzantine node ignores it.
    fn followees_set(&mut self, followees: [bool; N])
        ensures
            final(self).wf() == old(self).wf(),
            final(self).spec_behaviour() == old(self).spec_behaviour(),
            final(self).spec_rounds() == old(self).spec_rounds(),
            final(self).spec_pending() == old(self).spec_pending(),
            final(self).spec_active() == old(self).spec_active(),
    {
        self.followees = followees;
    }

    /// Seeds the node; every behaviour but Dead starts out proposing the
    /// seed set.
    fn pending_txs_set(&mut self, pending_txs: HashSet<u64>)
        ensures
            final(self).wf(),
            final(self).spec_behaviour() == old(self).spec_behaviour(),
            final(self).spec_rounds() == old(self).spec_rounds(),
            final(self).spec_pending() == pending_txs@,
            final(self).spec_active() == !old(self).spec_behaviour().is_dead(),
    {
        let dead = match &self.behaviour {
            ByzantineBehaviour::Dead => true,
            _ => false,
        };
        self.active = !dead;
        self.pending_txs = pending_txs;
    }

    /// The seed set when active, nothing otherwise; a dead node always
    /// proposes nothing.
    fn followers_send(&self) -> (r: &HashSet<u64>)
        ensures
            r@ == if self.spec_active() {
                self.spec_pending()
            } else {
                Set::<u64>::empty()
            },
            self.wf() && self.spec_behaviour().is_dead() ==> r@ == Set::<u64>::empty(),
    {
        if self.active {
            &self.pending_txs
        } else {
            &self.nothing
        }
    }

    /// Ignores the proposals and picks the next round's stance: dead stays
    /// silent, selfish proposes its seed, mixed draws.
    fn followees_receive(&mut self, _candidates: &Vec<Candidate>)
        ensures
            final(self).wf(),
            final(self).spec_behaviour() == old(self).spec_behaviour(),
            final(self).spec_rounds() == old(self).spec_rounds() - 1,
            final(self).spec_pending() == old(self).spec_pending(),
            old(self).spec_behaviour().is_dead() ==> !final(self).spec_active(),
            old(self).spec_behaviour() is Selfish ==> final(self).spec_active(),
    {
        self.num_rounds = self.num_rounds - 1;
        let p = match &self.behaviour {
            ByzantineBehaviour::Dead => {
                self.active = false;
                return ;
            },
            ByzantineBehaviour::Selfish => {
                self.active = true;
                return ;
            },
            ByzantineBehaviour::Mix(p) => *p,
        };
        let draw = rand_below(&mut self.rng, 1000);
        self.active = draw >= p;
    }

    /// A byzantine node is byzantine.
    fn is_byzantine(&self) -> (r: bool)
        ensures
            r == true,
    {
        true
    }
}

/// The transactions of a concatenated candidate list are the union.
pub proof fn lemma_candidate_txs_concat(a: Seq<Candidate>, b: Seq<Candidate>)
    ensures
        candidate_txs(a + b) == candidate_txs(a).union(candidate_txs(b)),
{
    assert forall|t: u64| #[trigger] candidate_txs(a + b).contains(t) implies candidate_txs(
        a,
    ).union(candidate_txs(b)).contains(t) by {
        let i = choose|i: int| 0 <= i < (a + b).len() && (#[trigger] (a + b)[i]).tx == t;
        if i < a.len() {
            assert(a[i].tx == t);
        } else {
            assert(b[i - a.len()].tx == t);
        }
    }
    assert forall|t: u64| candidate_txs(a).union(candidate_txs(b)).contains(t)
        implies #[trigger] candidate_txs(a + b).contains(t) by {
        if candidate_txs(a).contains(t) {
            let i = choose|i: int| 0 <= i < a.len() && (#[trigger] a[i]).tx == t;
            assert((a + b)[i].tx == t);
        } else {
            let i = choose|i: int| 0 <= i < b.len() && (#[trigger] b[i]).tx == t;
            assert((a + b)[a.len() + i].tx == t);
        }
    }
    assert(candidate_txs(a + b) =~= candidate_txs(a).union(candidate_txs(b)));
}

/// Law: a dead byzantine node never grows another node's pending set. Its
/// `followers_send` is empty, so the candidates it contributes propose a
/// subset (in fact none) of what the other nodes propose; ingesting them
/// beside the honest candidates yields exactly the pending set the honest
/// candidates alone yield, by `followees_receive`'s contract.
pub proof fn lemma_dead_contributes_nothing(
    pending: Set<u64>,
    honest: Seq<Candidate>,
    extra: Seq<Candidate>,
)
    requires
        candidate_txs(extra).subset_of(candidate_txs(honest)),
    ensures
        pending.union(candidate_txs(honest + extra)) == pending.union(candidate_txs(honest)),
{
    lemma_candidate_txs_concat(honest, extra);
    assert(pending.union(candidate_txs(honest + extra)) =~= pending.union(
        candidate_txs(honest),
    ));
}

} // verus!
