use plato_ternary_bridge::fleet_vote::FleetVote;
use plato_ternary_bridge::threshold::Side;

#[test]
fn unanimous_agreement() {
    let votes = vec![1, 1, 1, 1];
    let result = FleetVote::majority(&votes, 1);
    assert_eq!(result.consensus, 1);
    assert!(result.quorum_met);
}

#[test]
fn majority_with_minority() {
    let votes = vec![1, 1, 1, -1];
    let result = FleetVote::majority(&votes, 1);
    assert_eq!(result.consensus, 1);
}

#[test]
fn tie_returns_zero() {
    let votes = vec![1, -1];
    let result = FleetVote::majority(&votes, 1);
    assert_eq!(result.consensus, 0);
}

#[test]
fn quorum_not_met() {
    let votes = vec![1, 0, 0, 0];
    let result = FleetVote::majority(&votes, 3);
    assert_eq!(result.consensus, 0);
    assert!(!result.quorum_met);
}

#[test]
fn consensus_supermajority() {
    // 4 out of 5 non-zero = 80% -> supermajority for +1
    let votes = vec![1, 1, 1, 1, -1];
    let result = FleetVote::consensus(&votes, 1);
    assert_eq!(result.consensus, 1);
}

#[test]
fn consensus_no_supermajority() {
    // 3 out of 5 = 60%, not > 60%
    let votes = vec![1, 1, 1, -1, -1];
    let result = FleetVote::consensus(&votes, 1);
    assert_eq!(result.consensus, 0);
}

#[test]
fn all_abstain() {
    let votes = vec![0, 0, 0, 0];
    let result = FleetVote::majority(&votes, 1);
    assert_eq!(result.consensus, 0);
    assert!(!result.quorum_met); // 0 non-zero votes
}

#[test]
fn vote_result_counts() {
    let votes = vec![1, 1, -1, 0, 0];
    let result = FleetVote::majority(&votes, 1);
    assert_eq!(result.counts, [1, 2, 2]); // [-1, 0, +1]
    assert_eq!(result.total_votes, 5);
}

#[test]
fn majority_negative_and_abstention_lead() {
    let result = FleetVote::majority(&[-1, -1, 1, 0], 1);
    assert_eq!(result.consensus, -1);
    // abstention is the most common vote
    let result = FleetVote::majority(&[1, 0, 0], 1);
    assert_eq!(result.consensus, 0);
    assert!(result.quorum_met);
    let result = FleetVote::majority(&[], 0);
    assert_eq!(result.consensus, 0);
    assert!(result.quorum_met);
    assert_eq!(result.total_votes, 0);
}

#[test]
fn consensus_negative_and_quorum() {
    // 2 out of 3 non-zero = 66.7% -> -1, zeros do not count
    let result = FleetVote::consensus(&[-1, -1, 1, 0, 0, 0], 1);
    assert_eq!(result.consensus, -1);
    assert_eq!(result.counts, [2, 3, 1]);
    let result = FleetVote::consensus(&[-1, -1, 1], 4);
    assert_eq!(result.consensus, 0);
    assert!(!result.quorum_met);
    // no non-zero votes at all, quorum 0
    let result = FleetVote::consensus(&[0, 0], 0);
    assert_eq!(result.consensus, 0);
    assert!(result.quorum_met);
    // 61 of 100 is more than 60%
    let mut votes = vec![1i8; 61];
    votes.extend(vec![-1i8; 39]);
    assert_eq!(FleetVote::consensus(&votes, 1).consensus, 1);
}

#[test]
fn weighted_decision_rule() {
    // -1 has weight 5.0, +1 has weight 2.0, 0 has none -> -1 wins
    assert_eq!(FleetVote::weighted_decision(true, Side::Below, Side::Above, Side::Above), -1);
    // +1 and -1 tie at 2.0 -> 0
    assert_eq!(FleetVote::weighted_decision(true, Side::At, Side::Above, Side::Above), 0);
    // +1 leads both
    assert_eq!(FleetVote::weighted_decision(true, Side::Above, Side::Above, Side::Below), 1);
    // +1 leads -1 but ties abstention
    assert_eq!(FleetVote::weighted_decision(true, Side::Above, Side::At, Side::Below), 0);
    // quorum not met
    assert_eq!(FleetVote::weighted_decision(false, Side::Above, Side::Above, Side::Below), 0);
    // a NaN total decides nothing
    assert_eq!(FleetVote::weighted_decision(true, Side::Unordered, Side::Above, Side::Above), 0);
}

#[test]
fn negated_votes_mirror_majority() {
    let votes = vec![1, 1, -1, 0, 1];
    let neg: Vec<i8> = votes.iter().map(|v| -v).collect();
    let r = FleetVote::majority(&votes, 2);
    let m = FleetVote::majority(&neg, 2);
    assert_eq!(r.consensus, 1);
    assert_eq!(m.consensus, -1);
    assert_eq!(m.counts, [r.counts[2], r.counts[1], r.counts[0]]);
    assert_eq!(m.quorum_met, r.quorum_met);
    let perm = vec![0, 1, -1, 1, 1];
    assert_eq!(FleetVote::majority(&perm, 2), r);
}

#[test]
fn consensus_ignores_order_and_abstentions() {
    let votes = vec![1, -1, 1, 1];
    let a = FleetVote::consensus(&votes, 3);
    let b = FleetVote::consensus(&[1, 1, 0, -1, 0, 1, 0], 3);
    assert_eq!(a.consensus, 1);
    assert_eq!(b.consensus, a.consensus);
    assert_eq!(b.quorum_met, a.quorum_met);
    assert_eq!(b.counts, [a.counts[0], a.counts[1] + 3, a.counts[2]]);
    assert_eq!(b.total_votes, a.total_votes + 3);
}
