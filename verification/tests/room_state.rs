use plato_ternary_bridge::room_state::{TernaryRoomState, MAX_TRITS};

#[test]
fn create_from_trits() {
    let state = TernaryRoomState::new(vec![-1, 0, 1, 0, -1, 1, 0, 0]);
    assert_eq!(state.len(), 8);
    assert_eq!(state.trits(), &[-1, 0, 1, 0, -1, 1, 0, 0]);
}

#[test]
fn pack_round_trip() {
    let trits = vec![-1, 0, 1, 0, -1, 1, 0, 0];
    let state = TernaryRoomState::new(trits.clone());
    let packed = state.pack();
    let unpacked = TernaryRoomState::unpack(packed, trits.len());
    assert_eq!(state, unpacked);
}

#[test]
fn pack_all_zeros() {
    let state = TernaryRoomState::new(vec![0, 0, 0, 0]);
    assert_eq!(state.pack(), 0u32);
}

#[test]
fn pack_all_negative() {
    let state = TernaryRoomState::new(vec![-1, -1, -1, -1]);
    let packed = state.pack();
    assert_eq!(packed, 0b11111111u32);
}

#[test]
fn hamming_distance_same() {
    let a = TernaryRoomState::new(vec![-1, 0, 1, 0]);
    assert_eq!(a.hamming_distance(&a), 0);
}

#[test]
fn hamming_distance_different() {
    let a = TernaryRoomState::new(vec![-1, 0, 1, 0]);
    let b = TernaryRoomState::new(vec![1, 0, -1, 1]);
    assert_eq!(a.hamming_distance(&b), 3);
}

#[test]
fn dot_product_agreement() {
    let a = TernaryRoomState::new(vec![1, 1, 1, 1]);
    assert_eq!(a.dot_product(&a), 4);
}

#[test]
fn dot_product_disagreement() {
    let a = TernaryRoomState::new(vec![1, 1, 1, 1]);
    let b = TernaryRoomState::new(vec![-1, -1, -1, -1]);
    assert_eq!(a.dot_product(&b), -4);
}

#[test]
fn dot_product_mixed() {
    let a = TernaryRoomState::new(vec![1, 0, -1, 1]);
    let b = TernaryRoomState::new(vec![1, 0, -1, -1]);
    // 1*1 + 0*0 + (-1)*(-1) + 1*(-1) = 1 + 0 + 1 - 1 = 1
    assert_eq!(a.dot_product(&b), 1);
}

#[test]
fn display_format() {
    let state = TernaryRoomState::new(vec![-1, 0, 1, 0]);
    assert_eq!(state.to_string(), "{-1,0,+1,0}");
}

#[test]
fn display_of_empty_and_single() {
    assert_eq!(TernaryRoomState::new(vec![]).to_string(), "{}");
    assert_eq!(TernaryRoomState::new(vec![1]).to_string(), "{+1}");
}

#[test]
fn pack_layout_lsb_first() {
    // trit 0 in bits 0-1, trit 1 in bits 2-3, ...
    let state = TernaryRoomState::new(vec![1, 0, -1]);
    assert_eq!(state.pack(), 0b11_00_01u32);
    let full = TernaryRoomState::new(vec![-1; MAX_TRITS]);
    assert_eq!(full.pack(), u32::MAX);
    assert_eq!(TernaryRoomState::unpack(full.pack(), MAX_TRITS), full);
}

#[test]
fn unpack_reads_unused_code_as_zero() {
    // 0b10 is unused and reads back as 0; fields past the count are ignored
    let state = TernaryRoomState::unpack(0b01_11_10_01u32, 3);
    assert_eq!(state.trits(), &[1, 0, -1]);
    assert_eq!(TernaryRoomState::unpack(0xffff_ffff, 0).len(), 0);
}

#[test]
fn length_and_emptiness() {
    assert!(TernaryRoomState::new(vec![]).is_empty());
    let s = TernaryRoomState::new(vec![0, 0]);
    assert!(!s.is_empty());
    assert_eq!(s.len(), 2);
    assert_eq!(s.clone(), s);
    assert_ne!(s, TernaryRoomState::new(vec![0, 1]));
    assert_ne!(s, TernaryRoomState::new(vec![0, 0, 0]));
}

#[test]
fn hamming_and_dot_are_symmetric() {
    let a = TernaryRoomState::new(vec![1, -1, 0, 1]);
    let b = TernaryRoomState::new(vec![0, -1, 1, -1]);
    assert_eq!(a.hamming_distance(&b), b.hamming_distance(&a));
    assert_eq!(a.hamming_distance(&b), 3);
    assert_eq!(a.dot_product(&b), b.dot_product(&a));
    assert_eq!(a.dot_product(&b), 0);
}

#[test]
fn repacking_clears_unused_code_and_high_bits() {
    // fields of 0x9C: 0b00, 0b11, 0b01, 0b10 -> the 0b10 field becomes 0
    assert_eq!(TernaryRoomState::unpack(0x9C, 4).pack(), 0x1C);
    // fields past the count are dropped
    assert_eq!(TernaryRoomState::unpack(0xFFFF_FF1D, 2).pack(), 0x0D);
}
