//! Ternary voting across rooms: each room votes -1, 0 or +1.

use vstd::prelude::*;

use crate::room_state::is_trit;
use crate::threshold::{side_of, Side};

verus! {

/// Number of votes equal to `v`.
pub open spec fn tally(votes: Seq<i8>, v: i8) -> nat
    decreases votes.len(),
{
    if votes.len() == 0 {
        0
    } else {
        tally(votes.drop_last(), v) + (if votes.last() == v {
            1nat
        } else {
            0nat
        })
    }
}

/// Number of votes that are not abstentions.
pub open spec fn non_zero_votes(votes: Seq<i8>) -> nat {
    tally(votes, -1i8) + tally(votes, 1)
}

/// Every vote is -1, 0 or +1.
pub open spec fn valid_votes(votes: Seq<i8>) -> bool {
    forall|i: int| 0 <= i < votes.len() ==> is_trit(#[trigger] votes[i])
}

/// The option with strictly more votes than each of the other two wins;
/// a tie for the most votes, or abstention leading, gives 0.
pub open spec fn plurality(neg: nat, zero: nat, pos: nat) -> i8 {
    if pos > neg && pos > zero {
        1
    } else if neg > pos && neg > zero {
        -1i8
    } else {
        0
    }
}

/// `part` is more than 60% of `whole`.
pub open spec fn supermajority(part: nat, whole: nat) -> bool {
    part * 5 > whole * 3
}

/// Outcome of the supermajority rule over the non-zero votes.
pub open spec fn supermajority_outcome(neg: nat, pos: nat) -> i8 {
    if neg + pos == 0 {
        0
    } else if supermajority(pos, neg + pos) {
        1
    } else if supermajority(neg, neg + pos) {
        -1i8
    } else {
        0
    }
}

/// The consensus of a simple majority vote: the plurality rule over the three
/// counts when quorum is met, 0 otherwise.
pub open spec fn majority_outcome(votes: Seq<i8>, quorum: nat) -> i8 {
    if non_zero_votes(votes) >= quorum {
        plurality(tally(votes, -1i8), tally(votes, 0), tally(votes, 1))
    } else {
        0
    }
}

/// The consensus of a supermajority vote: the supermajority rule over the
/// non-zero votes when quorum is met, 0 otherwise.
pub open spec fn consensus_outcome(votes: Seq<i8>, quorum: nat) -> i8 {
    if non_zero_votes(votes) >= quorum {
        supermajority_outcome(tally(votes, -1i8), tally(votes, 1))
    } else {
        0
    }
}

/// The weighted rule: with quorum met, +1 wins when its total weight is above
/// both others, -1 when its total weight is above both others, otherwise 0.
/// Each comparison is given as the position of one total against another.
pub open spec fn weighted_rule(quorum_met: bool, pos_vs_neg: Side, pos_vs_zero: Side, neg_vs_zero: Side) -> i8 {
    if !quorum_met {
        0
    } else if pos_vs_neg == Side::Above && pos_vs_zero == Side::Above {
        1
    } else if pos_vs_neg == Side::Below && neg_vs_zero == Side::Above {
        -1i8
    } else {
        0
    }
}

/// Majority vote, stated over the counts: with quorum met, +1 wins exactly
/// when it has strictly more votes than -1 and than abstention, -1 likewise,
/// and in every other case (quorum missed, or a tie for the most votes) the
/// result is 0.
pub proof fn lemma_majority_strict_plurality(votes: Seq<i8>, quorum: nat)
    ensures
        majority_outcome(votes, quorum) == 1 <==> (tally(votes, -1i8) + tally(votes, 1) >= quorum
            && tally(votes, 1) > tally(votes, -1i8) && tally(votes, 1) > tally(votes, 0)),
        majority_outcome(votes, quorum) == -1 <==> (tally(votes, -1i8) + tally(votes, 1)
            >= quorum && tally(votes, -1i8) > tally(votes, 1) && tally(votes, -1i8) > tally(votes, 0)),
        majority_outcome(votes, quorum) == 0 || majority_outcome(votes, quorum) == 1
            || majority_outcome(votes, quorum) == -1,
{
}

/// Supermajority vote, stated over the counts: quorum is a minimum number of
/// non-zero votes, and once it is reached +1 wins exactly when more than 60%
/// of the non-zero votes are +1, -1 likewise; otherwise the result is 0.
pub proof fn lemma_consensus_over_sixty_percent(votes: Seq<i8>, quorum: nat)
    ensures
        consensus_outcome(votes, quorum) == 1 <==> (tally(votes, -1i8) + tally(votes, 1) >= quorum
            && 5 * tally(votes, 1) > 3 * (tally(votes, -1i8) + tally(votes, 1))),
        consensus_outcome(votes, quorum) == -1 <==> (tally(votes, -1i8) + tally(votes, 1)
            >= quorum && 5 * tally(votes, -1i8) > 3 * (tally(votes, -1i8) + tally(votes, 1))),
        consensus_outcome(votes, quorum) == 0 || consensus_outcome(votes, quorum) == 1
            || consensus_outcome(votes, quorum) == -1,
{
}

/// The weighted rule over totals that can be ordered picks the strict maximum:
/// with quorum met, +1 wins exactly when its total is above both others, -1
/// likewise, and a tie for the top total (or a missed quorum) gives 0.
pub proof fn lemma_weighted_strict_maximum(quorum_met: bool, pos: int, neg: int, zero: int)
    ensures
        weighted_rule(quorum_met, side_of(pos, neg), side_of(pos, zero), side_of(neg, zero)) == (
        if quorum_met && pos > neg && pos > zero {
            1i8
        } else if quorum_met && neg > pos && neg > zero {
            -1i8
        } else {
            0i8
        }),
{
}

/// The weighted rule, stated over the comparisons: +1 needs its total above
/// both others, -1 needs its total above both others, and anything else gives 0.
pub proof fn lemma_weighted_needs_strict_lead(quorum_met: bool, pos_vs_neg: Side, pos_vs_zero: Side, neg_vs_zero: Side)
    ensures
        weighted_rule(quorum_met, pos_vs_neg, pos_vs_zero, neg_vs_zero) == 1 <==> (quorum_met
            && pos_vs_neg == Side::Above && pos_vs_zero == Side::Above),
        weighted_rule(quorum_met, pos_vs_neg, pos_vs_zero, neg_vs_zero) == -1 <==> (quorum_met
            && pos_vs_neg == Side::Below && neg_vs_zero == Side::Above),
        weighted_rule(quorum_met, pos_vs_neg, pos_vs_zero, neg_vs_zero) == 0 || weighted_rule(
            quorum_met,
            pos_vs_neg,
            pos_vs_zero,
            neg_vs_zero,
        ) == 1 || weighted_rule(quorum_met, pos_vs_neg, pos_vs_zero, neg_vs_zero) == -1,
{
}

/// Counting a vote list with one more vote adds one exactly when that vote matches.
pub proof fn lemma_tally_push(votes: Seq<i8>, x: i8, v: i8)
    ensures
        tally(votes.push(x), v) == tally(votes, v) + (if x == v {
            1int
        } else {
            0int
        }),
{
    assert(votes.push(x).drop_last() =~= votes);
}

/// A tally is the number of times the vote occurs among the votes.
pub proof fn lemma_tally_counts_occurrences(votes: Seq<i8>, v: i8)
    ensures
        tally(votes, v) == votes.to_multiset().count(v),
{
    lemma_tally_multiset(votes, v);
}

/// Every vote turned around: -1 and +1 swap, abstentions stay.
pub open spec fn negated(votes: Seq<i8>) -> Seq<i8> {
    votes.map_values(|v: i8| (-v) as i8)
}

proof fn lemma_tally_negated(votes: Seq<i8>, v: i8)
    requires
        valid_votes(votes),
        is_trit(v),
    ensures
        tally(negated(votes), v) == tally(votes, (-v) as i8),
    decreases votes.len(),
{
    if votes.len() > 0 {
        assert(negated(votes).drop_last() =~= negated(votes.drop_last()));
        assert(is_trit(votes[votes.len() - 1]));
        lemma_tally_negated(votes.drop_last(), v);
    }
}

/// Negating every vote negates the majority consensus, swaps the -1 and +1
/// counts, and keeps the abstentions and whether quorum is met.
pub proof fn lemma_majority_negation(votes: Seq<i8>, quorum: nat)
    requires
        valid_votes(votes),
    ensures
        valid_votes(negated(votes)),
        negated(votes).len() == votes.len(),
        tally(negated(votes), -1i8) == tally(votes, 1),
        tally(negated(votes), 0) == tally(votes, 0),
        tally(negated(votes), 1) == tally(votes, -1i8),
        non_zero_votes(negated(votes)) == non_zero_votes(votes),
        majority_outcome(negated(votes), quorum) == -majority_outcome(votes, quorum),
        consensus_outcome(negated(votes), quorum) == -consensus_outcome(votes, quorum),
{
    assert forall|i: int| 0 <= i < negated(votes).len() implies is_trit(#[trigger] negated(votes)[i]) by {
        assert(is_trit(votes[i]));
    }
    lemma_tally_negated(votes, -1i8);
    lemma_tally_negated(votes, 0);
    lemma_tally_negated(votes, 1);
}

/// A tally counts the occurrences of the vote in the multiset of votes.
proof fn lemma_tally_multiset(votes: Seq<i8>, v: i8)
    ensures
        tally(votes, v) == votes.to_multiset().count(v),
    decreases votes.len(),
{
    broadcast use vstd::seq_lib::group_to_multiset_ensures;
    broadcast use vstd::multiset::group_multiset_axioms;

    if votes.len() == 0 {
        assert(votes.to_multiset().len() == 0);
        if votes.to_multiset().count(v) > 0 {
            assert(votes.contains(v));
        }
    } else {
        let p = votes.drop_last();
        lemma_tally_multiset(p, v);
        assert(p.push(votes.last()) =~= votes);
    }
}

/// Tallying two lists one after the other adds their tallies.
proof fn lemma_tally_concat(a: Seq<i8>, b: Seq<i8>, v: i8)
    ensures
        tally(a + b, v) == tally(a, v) + tally(b, v),
    decreases b.len(),
{
    if b.len() == 0 {
        assert(a + b =~= a);
    } else {
        assert((a + b).drop_last() =~= a + b.drop_last());
        lemma_tally_concat(a, b.drop_last(), v);
    }
}

proof fn lemma_tally_abstentions(k: nat, v: i8)
    ensures
        tally(Seq::new(k, |_i: int| 0i8), v) == (if v == 0 {
            k
        } else {
            0
        }),
    decreases k,
{
    if k > 0 {
        assert(Seq::new(k, |_i: int| 0i8).drop_last() =~= Seq::new((k - 1) as nat, |_i: int| 0i8));
        lemma_tally_abstentions((k - 1) as nat, v);
    }
}

/// The votes of `perm` are those of `votes`, in another order.
pub open spec fn is_permutation(perm: Seq<i8>, votes: Seq<i8>) -> bool {
    perm.to_multiset() == votes.to_multiset()
}

/// Reordering the votes changes neither the counts nor either outcome.
pub proof fn lemma_vote_permutation(votes: Seq<i8>, perm: Seq<i8>, quorum: nat)
    requires
        valid_votes(votes),
        is_permutation(perm, votes),
    ensures
        valid_votes(perm),
        perm.len() == votes.len(),
        tally(perm, -1i8) == tally(votes, -1i8),
        tally(perm, 0) == tally(votes, 0),
        tally(perm, 1) == tally(votes, 1),
        majority_outcome(perm, quorum) == majority_outcome(votes, quorum),
        consensus_outcome(perm, quorum) == consensus_outcome(votes, quorum),
{
    broadcast use vstd::seq_lib::group_to_multiset_ensures;

    lemma_tally_multiset(perm, -1i8);
    lemma_tally_multiset(perm, 0);
    lemma_tally_multiset(perm, 1);
    lemma_tally_multiset(votes, -1i8);
    lemma_tally_multiset(votes, 0);
    lemma_tally_multiset(votes, 1);
    assert(perm.len() == perm.to_multiset().len());
    assert(votes.len() == votes.to_multiset().len());
    assert forall|i: int| 0 <= i < perm.len() implies is_trit(#[trigger] perm[i]) by {
        assert(perm.contains(perm[i]));
        assert(perm.to_multiset().count(perm[i]) > 0);
        assert(votes.contains(perm[i]));
        let j = choose|j: int| 0 <= j < votes.len() && votes[j] == perm[i];
        assert(is_trit(votes[j]));
    }
}

/// Reordering the votes and adding `k` abstentions leaves the supermajority
/// outcome and quorum unchanged; only the abstention count and the total grow by `k`.
pub proof fn lemma_consensus_reorder_with_abstentions(votes: Seq<i8>, perm: Seq<i8>, k: nat, quorum: nat)
    requires
        valid_votes(votes),
        is_permutation(perm, votes),
    ensures
        valid_votes(perm + Seq::new(k, |_i: int| 0i8)),
        (perm + Seq::new(k, |_i: int| 0i8)).len() == votes.len() + k,
        tally(perm + Seq::new(k, |_i: int| 0i8), -1i8) == tally(votes, -1i8),
        tally(perm + Seq::new(k, |_i: int| 0i8), 0) == tally(votes, 0) + k,
        tally(perm + Seq::new(k, |_i: int| 0i8), 1) == tally(votes, 1),
        non_zero_votes(perm + Seq::new(k, |_i: int| 0i8)) == non_zero_votes(votes),
        consensus_outcome(perm + Seq::new(k, |_i: int| 0i8), quorum) == consensus_outcome(votes, quorum),
{
    let z = Seq::new(k, |_i: int| 0i8);
    let w = perm + z;
    lemma_vote_permutation(votes, perm, quorum);
    lemma_tally_concat(perm, z, -1i8);
    lemma_tally_concat(perm, z, 0);
    lemma_tally_concat(perm, z, 1);
    lemma_tally_abstentions(k, -1i8);
    lemma_tally_abstentions(k, 0);
    lemma_tally_abstentions(k, 1);
    assert forall|i: int| 0 <= i < w.len() implies is_trit(#[trigger] w[i]) by {
        if i < perm.len() {
            assert(w[i] == perm[i]);
        } else {
            assert(w[i] == z[i - perm.len()]);
        }
    }
}

/// The three counts of a vote add up to the number of votes cast.
pub proof fn lemma_counts_sum(votes: Seq<i8>)
    requires
        valid_votes(votes),
    ensures
        tally(votes, -1i8) + tally(votes, 0) + tally(votes, 1) == votes.len(),
    decreases votes.len(),
{
    if votes.len() > 0 {
        assert(is_trit(votes[votes.len() - 1]));
        lemma_counts_sum(votes.drop_last());
    }
}

proof fn lemma_tally_unanimous(votes: Seq<i8>, v: i8, w: i8)
    requires
        forall|i: int| 0 <= i < votes.len() ==> #[trigger] votes[i] == v,
    ensures
        tally(votes, w) == (if w == v {
            votes.len()
        } else {
            0
        }),
    decreases votes.len(),
{
    if votes.len() > 0 {
        lemma_tally_unanimous(votes.drop_last(), v, w);
    }
}

/// When every room casts the same non-zero vote and there are at least
/// `quorum` of them, both the majority and the supermajority rule return that vote.
pub proof fn lemma_unanimous_vote_wins(votes: Seq<i8>, v: i8, quorum: nat)
    requires
        v == 1 || v == -1,
        votes.len() > 0,
        votes.len() >= quorum,
        forall|i: int| 0 <= i < votes.len() ==> #[trigger] votes[i] == v,
    ensures
        non_zero_votes(votes) >= quorum,
        plurality(tally(votes, -1i8), tally(votes, 0), tally(votes, 1)) == v,
        supermajority_outcome(tally(votes, -1i8), tally(votes, 1)) == v,
{
    lemma_tally_unanimous(votes, v, -1i8);
    lemma_tally_unanimous(votes, v, 0);
    lemma_tally_unanimous(votes, v, 1);
}

/// A non-zero supermajority outcome always names the side with more votes,
/// and a non-zero plurality names the side with the most votes.
pub proof fn lemma_winner_leads(neg: nat, zero: nat, pos: nat)
    ensures
        supermajority_outcome(neg, pos) == 1 ==> pos > neg,
        supermajority_outcome(neg, pos) == -1 ==> neg > pos,
        plurality(neg, zero, pos) == 1 ==> pos > neg && pos > zero,
        plurality(neg, zero, pos) == -1 ==> neg > pos && neg > zero,
        plurality(neg, zero, pos) == 0 || plurality(neg, zero, pos) == 1 || plurality(neg, zero, pos) == -1,
        supermajority_outcome(neg, pos) == 0 || supermajority_outcome(neg, pos) == 1 || supermajority_outcome(neg, pos) == -1,
{
}

/// Result of a fleet vote.
#[derive(Debug, Clone, PartialEq, Eq)]
pub struct VoteResult {
    /// The consensus value: -1, 0, or +1.
    pub consensus: i8,
    /// Total votes cast.
    pub total_votes: usize,
    /// Votes for each option, in the order [-1, 0, +1].
    pub counts: [usize; 3],
    /// Whether quorum was met.
    pub quorum_met: bool,
}

impl VoteResult {
    fn new(consensus: i8, total_votes: usize, counts: [usize; 3], quorum_met: bool) -> (r: Self)
        ensures
            r.consensus == consensus,
            r.total_votes == total_votes,
            r.counts == counts,
            r.quorum_met == quorum_met,
    {
        VoteResult { consensus, total_votes, counts, quorum_met }
    }
}

/// Fleet voting engine.
pub struct FleetVote;

/// Counts of -1, 0 and +1 votes.
fn count_votes(votes: &[i8]) -> (counts: (usize, usize, usize))
    requires
        valid_votes(votes@),
    ensures
        counts.0 == tally(votes@, -1i8),
        counts.1 == tally(votes@, 0),
        counts.2 == tally(votes@, 1),
        counts.0 + counts.1 + counts.2 == votes@.len(),
{
    let mut neg: usize = 0;
    let mut zero: usize = 0;
    let mut pos: usize = 0;
    let mut i: usize = 0;
    while i < votes.len()
        invariant
            valid_votes(votes@),
            i <= votes@.len(),
            neg == tally(votes@.take(i as int), -1i8),
            zero == tally(votes@.take(i as int), 0),
            pos == tally(votes@.take(i as int), 1),
            neg + zero + pos == i,
        decreases votes@.len() - i,
    {
        let v: i8 = votes[i];
        proof {
            assert(votes@.take(i + 1).drop_last() =~= votes@.take(i as int));
            assert(is_trit(votes@[i as int]));
        }
        if v == -1 {
            neg = neg + 1;
        } else if v == 0 {
            zero = zero + 1;
        } else {
            pos = pos + 1;
        }
        i = i + 1;
    }
    proof {
        assert(votes@.take(votes@.len() as int) =~= votes@);
    }
    (neg, zero, pos)
}

impl FleetVote {
    /// Simple majority vote. Ties give 0 (abstain). Quorum, the minimum number
    /// of non-zero votes, must be met for a non-zero result.
    pub fn majority(votes: &[i8], quorum: usize) -> (r: VoteResult)
        requires
            valid_votes(votes@),
        ensures
            r.total_votes == votes@.len(),
            r.counts@ == seq![tally(votes@, -1i8) as usize, tally(votes@, 0) as usize, tally(votes@, 1) as usize],
            r.quorum_met == (non_zero_votes(votes@) >= quorum),
            r.consensus == majority_outcome(votes@, quorum as nat),
            r.consensus == 1 <==> (r.quorum_met && r.counts@[2] > r.counts@[0] && r.counts@[2]
                > r.counts@[1]),
            r.consensus == -1 <==> (r.quorum_met && r.counts@[0] > r.counts@[2] && r.counts@[0]
                > r.counts@[1]),
            r.consensus == 0 || r.consensus == 1 || r.consensus == -1,
    {
        let (neg, zero, pos) = count_votes(votes);
        let total: usize = votes.len();
        assert(neg + zero + pos == total);
        let non_zero: usize = neg + pos;
        let quorum_met: bool = non_zero >= quorum;
        let consensus: i8 = if !quorum_met {
            0
        } else {
            if pos > neg && pos > zero {
                1
            } else if neg > pos && neg > zero {
                -1
            } else {
                0
            }
        };
        let counts: [usize; 3] = [neg, zero, pos];
        proof {
            assert(counts@ =~= seq![neg, zero, pos]);
        }
        VoteResult::new(consensus, total, counts, quorum_met)
    }

    /// The decision of a weighted vote, from whether quorum was met and how the
    /// total weights of +1, -1 and 0 compare: +1 needs a total above both
    /// others, -1 likewise; anything else, a tie included, gives 0.
    pub fn weighted_decision(quorum_met: bool, pos_vs_neg: Side, pos_vs_zero: Side, neg_vs_zero: Side) -> (consensus: i8)
        ensures
            consensus == weighted_rule(quorum_met, pos_vs_neg, pos_vs_zero, neg_vs_zero),
            consensus == 1 <==> (quorum_met && pos_vs_neg == Side::Above && pos_vs_zero
                == Side::Above),
            consensus == -1 <==> (quorum_met && pos_vs_neg == Side::Below && neg_vs_zero
                == Side::Above),
            consensus == 0 || consensus == 1 || consensus == -1,
    {
        if !quorum_met {
            0
        } else if pos_vs_neg == Side::Above && pos_vs_zero == Side::Above {
            1
        } else if pos_vs_neg == Side::Below && neg_vs_zero == Side::Above {
            -1
        } else {
            0
        }
    }

    /// Ternary consensus: more than 60% of the non-zero votes must agree;
    /// otherwise 0. Quorum must be met for a non-zero result.
    pub fn consensus(votes: &[i8], quorum: usize) -> (r: VoteResult)
        requires
            valid_votes(votes@),
        ensures
            r.total_votes == votes@.len(),
            r.counts@ == seq![tally(votes@, -1i8) as usize, tally(votes@, 0) as usize, tally(votes@, 1) as usize],
            r.quorum_met == (non_zero_votes(votes@) >= quorum),
            r.consensus == consensus_outcome(votes@, quorum as nat),
            r.consensus == 1 <==> (r.quorum_met && 5 * r.counts@[2] > 3 * (r.counts@[0]
                + r.counts@[2])),
            r.consensus == -1 <==> (r.quorum_met && 5 * r.counts@[0] > 3 * (r.counts@[0]
                + r.counts@[2])),
            r.consensus == 0 || r.consensus == 1 || r.consensus == -1,
    {
        let (neg, zero, pos) = count_votes(votes);
        let total: usize = votes.len();
        assert(neg + zero + pos == total);
        let non_zero: usize = neg + pos;
        let quorum_met: bool = non_zero >= quorum;
        let consensus: i8 = if !quorum_met || non_zero == 0 {
            0
        } else {
            let whole: u128 = non_zero as u128;
            if (pos as u128) * 5 > whole * 3 {
                1
            } else if (neg as u128) * 5 > whole * 3 {
                -1
            } else {
                0
            }
        };
        let counts: [usize; 3] = [neg, zero, pos];
        proof {
            assert(counts@ =~= seq![neg, zero, pos]);
        }
        VoteResult::new(consensus, total, counts, quorum_met)
    }
}

} // verus!
