use plato_ternary_bridge::compression::{DeltaCompressed, DeltaEntry, TernaryCompression};
use plato_ternary_bridge::room_state::TernaryRoomState;

fn make_state(trits: Vec<i8>) -> TernaryRoomState {
    TernaryRoomState::new(trits)
}

#[test]
fn delta_encode_empty() {
    let result = TernaryCompression::delta_encode(&[]);
    assert!(result.is_none());
}

#[test]
fn delta_encode_single() {
    let history = vec![make_state(vec![0, 1, -1])];
    let compressed = TernaryCompression::delta_encode(&history).unwrap();
    assert_eq!(compressed.deltas.len(), 0);
}

#[test]
fn delta_round_trip() {
    let history = vec![
        make_state(vec![0, 1, -1]),
        make_state(vec![1, 1, -1]),
        make_state(vec![1, 0, -1]),
        make_state(vec![1, 0, 0]),
    ];
    let compressed = TernaryCompression::delta_encode(&history).unwrap();
    let decompressed = TernaryCompression::delta_decode(&compressed);
    assert_eq!(decompressed, history);
}

#[test]
fn delta_noop_when_unchanged() {
    let state = make_state(vec![0, 1, -1]);
    let history = vec![state.clone(), state.clone(), state.clone()];
    let compressed = TernaryCompression::delta_encode(&history).unwrap();
    assert!(compressed.deltas[0].is_noop());
    assert!(compressed.deltas[1].is_noop());
}

#[test]
fn rle_constant_values() {
    let state = make_state(vec![1, 1, 1]);
    let history = vec![state.clone(); 10];
    let compressed = TernaryCompression::rle_encode(&history);
    assert_eq!(compressed.runs.len(), 1);
    assert_eq!(compressed.runs[0].count, 10);
}

#[test]
fn rle_round_trip() {
    let history = vec![
        make_state(vec![0, 1]),
        make_state(vec![0, 1]),
        make_state(vec![1, 0]),
        make_state(vec![1, 0]),
        make_state(vec![1, 0]),
    ];
    let compressed = TernaryCompression::rle_encode(&history);
    let decompressed = TernaryCompression::rle_decode(&compressed);
    assert_eq!(decompressed, history);
}

#[test]
fn rle_empty() {
    let compressed = TernaryCompression::rle_encode(&[]);
    assert!(compressed.runs.is_empty());
    let decompressed = TernaryCompression::rle_decode(&compressed);
    assert!(decompressed.is_empty());
}

#[test]
fn roundtrip_check_passes() {
    let history = vec![
        make_state(vec![0, 0]),
        make_state(vec![1, 0]),
        make_state(vec![1, -1]),
    ];
    assert!(TernaryCompression::roundtrip_check(&history));
}

#[test]
fn compression_compress_1000_ticks() {
    // Simulate 1000 ticks with occasional changes
    let mut history = Vec::with_capacity(1000);
    let base = make_state(vec![0, 0, 0, 0]);
    for i in 0..1000 {
        if i % 100 == 0 && i > 0 {
            // Change every 100 ticks
            history.push(make_state(vec![1, 0, 0, 0]));
        } else {
            history.push(base.clone());
        }
    }
    let compressed = TernaryCompression::delta_encode(&history).unwrap();
    let decompressed = TernaryCompression::delta_decode(&compressed);
    assert_eq!(decompressed.len(), 1000);
    assert_eq!(decompressed, history);
}

#[test]
fn delta_entries_list_changed_positions() {
    let history = vec![make_state(vec![0, 1, -1]), make_state(vec![1, 1, 0]), make_state(vec![1, 1, 0])];
    let compressed = TernaryCompression::delta_encode(&history).unwrap();
    assert_eq!(compressed.initial.trits(), &[0, 1, -1]);
    assert_eq!(compressed.deltas.len(), 2);
    assert_eq!(compressed.deltas[0].changes, vec![(0usize, 1i8), (2usize, 0i8)]);
    assert!(!compressed.deltas[0].is_noop());
    assert!(compressed.deltas[1].is_noop());
}

#[test]
fn roundtrip_check_fails_when_a_later_state_is_longer() {
    let history = vec![make_state(vec![0, 1]), make_state(vec![0, 1, 1])];
    assert!(!TernaryCompression::roundtrip_check(&history));
    let compressed = TernaryCompression::delta_encode(&history).unwrap();
    let decompressed = TernaryCompression::delta_decode(&compressed);
    assert_eq!(decompressed[1].trits(), &[0, 1]);
}

#[test]
fn roundtrip_check_on_empty_history() {
    assert!(TernaryCompression::roundtrip_check(&[]));
}

#[test]
fn rle_runs_of_alternating_history() {
    let a = make_state(vec![1]);
    let b = make_state(vec![-1]);
    let history = vec![a.clone(), b.clone(), b.clone(), a.clone()];
    let rle = TernaryCompression::rle_encode(&history);
    let counts: Vec<usize> = rle.runs.iter().map(|r| r.count).collect();
    assert_eq!(counts, vec![1, 2, 1]);
    assert_eq!(rle.runs[1].state, b);
    assert_eq!(TernaryCompression::rle_decode(&rle), history);
}

#[test]
fn rle_separates_states_of_different_length() {
    let history = vec![make_state(vec![0]), make_state(vec![0, 0])];
    let rle = TernaryCompression::rle_encode(&history);
    assert_eq!(rle.runs.len(), 2);
}

#[test]
fn encoding_a_decoded_canonical_history_gives_it_back() {
    let c = DeltaCompressed {
        initial: make_state(vec![0, 1, -1]),
        deltas: vec![
            DeltaEntry { changes: vec![(0, 1), (2, 0)] },
            DeltaEntry { changes: vec![] },
            DeltaEntry { changes: vec![(1, -1)] },
        ],
    };
    let decoded = TernaryCompression::delta_decode(&c);
    assert_eq!(decoded[3].trits(), &[1, -1, 0]);
    let e = TernaryCompression::delta_encode(&decoded).unwrap();
    assert_eq!(e.initial, c.initial);
    assert_eq!(e.deltas, c.deltas);
}
