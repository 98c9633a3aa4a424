use plato_ternary_bridge::alarm_ternary::{AlarmPriority, TernaryAlarm};
use plato_ternary_bridge::compression::TernaryCompression;
use plato_ternary_bridge::fleet_vote::FleetVote;
use plato_ternary_bridge::room_state::TernaryRoomState;
use plato_ternary_bridge::threshold::{dead_zone_trit, range_trit, single_trit, Side};

/// Two rooms vote on a shared condition.
#[test]
fn two_rooms_vote() {
    // Room A: mostly alarming high -> votes +1
    let state_a = TernaryRoomState::new(vec![1, 1, 1, 0]);
    // Room B: mixed -> votes 0 (no consensus)
    let state_b = TernaryRoomState::new(vec![1, -1, 0, 0]);

    // Extract dominant vote per room (sum of trits)
    let vote_a: i8 = if state_a.trits().iter().sum::<i8>() > 0 { 1 } else if state_a.trits().iter().sum::<i8>() < 0 { -1 } else { 0 };
    let vote_b: i8 = if state_b.trits().iter().sum::<i8>() > 0 { 1 } else if state_b.trits().iter().sum::<i8>() < 0 { -1 } else { 0 };

    assert_eq!(vote_a, 1);
    assert_eq!(vote_b, 0);

    let result = FleetVote::majority(&[vote_a, vote_b], 1);
    // pos=1, zero=1 -> tie -> 0
    assert_eq!(result.consensus, 0);

    // Now with 3 rooms all voting +1
    let votes = vec![1, 1, 1];
    let result = FleetVote::majority(&votes, 1);
    assert_eq!(result.consensus, 1);
}

/// Compress 1000 ticks of room history.
#[test]
fn lib_compress_1000_ticks() {
    let mut history = Vec::with_capacity(1000);
    let normal = TernaryRoomState::new(vec![0, 0, 0, 0, 0, 0, 0, 0]);

    for i in 0..1000 {
        if i % 200 == 0 && i > 0 {
            // Anomalous tick
            history.push(TernaryRoomState::new(vec![1, 0, -1, 0, 1, 0, 0, 0]));
        } else {
            history.push(normal.clone());
        }
    }

    // Delta compression
    let compressed = TernaryCompression::delta_encode(&history).unwrap();
    assert!(compressed.deltas.len() < 1000); // Should be much smaller
    let decompressed = TernaryCompression::delta_decode(&compressed);
    assert_eq!(decompressed, history);

    // RLE compression
    let rle = TernaryCompression::rle_encode(&history);
    // Most ticks are identical -> few runs
    assert!(rle.runs.len() < 20);
    let rle_decompressed = TernaryCompression::rle_decode(&rle);
    assert_eq!(rle_decompressed, history);
}

/// Hamming distance and dot product between two rooms.
#[test]
fn room_similarity_measures() {
    let room_a = TernaryRoomState::new(vec![1, 0, -1, 1, 0, -1, 1, 0]);
    let room_b = TernaryRoomState::new(vec![1, 0, 1, -1, 0, -1, 1, 0]);

    // 2 positions differ (index 2 and 3)
    assert_eq!(room_a.hamming_distance(&room_b), 2);

    // Dot: 1+0+(-1)+(-1)+0+1+1+0 = 1
    assert_eq!(room_a.dot_product(&room_b), 1);
}

/// Sensor positions -> trits -> room state -> alarm -> packed round trip.
#[test]
fn pipeline_from_bound_positions() {
    // readings 22, 30, 15 against [18, 26]; 25 against the single threshold 24
    let trits = vec![
        range_trit(Side::Above, Side::Below),
        range_trit(Side::Above, Side::Above),
        range_trit(Side::Below, Side::Below),
        single_trit(Side::Above),
    ];
    let state = TernaryRoomState::new(trits);
    assert_eq!(state.trits(), &[0, 1, -1, 1]);
    let alarm = TernaryAlarm::evaluate(state.clone());
    assert!(alarm.is_alarm());
    assert_eq!(alarm.alarm_count(), 3);
    assert_eq!(alarm.priority(), AlarmPriority::Medium);
    assert_eq!(TernaryRoomState::unpack(state.pack(), 4), state);
}

/// Dead zone [18, 26] inside [16, 28]: readings 28, 27, 26.5, 26, 25 in turn,
/// each tick feeding its trit back as the previous state.
#[test]
fn dead_zone_hysteresis_chain_by_position() {
    // (vs_low, vs_high, vs_dead_low, vs_dead_high) for each reading
    let positions = [
        (Side::Above, Side::Above, Side::Above, Side::At),
        (Side::Above, Side::Above, Side::Above, Side::Below),
        (Side::Above, Side::Above, Side::Above, Side::Below),
        (Side::Above, Side::At, Side::Above, Side::Below),
        (Side::Above, Side::Below, Side::Above, Side::Below),
    ];
    let mut prev = None;
    let mut results = Vec::new();
    for (lo, hi, dlo, dhi) in positions {
        let trit = dead_zone_trit(lo, hi, dlo, dhi, prev);
        results.push(trit);
        prev = Some(trit);
    }
    assert_eq!(results, vec![1, 1, 1, 0, 0]);
}
