use plato_ternary_bridge::threshold::{dead_zone_trit, range_trit, single_trit, Side};

#[test]
fn single_rule_by_side() {
    assert_eq!(single_trit(Side::Above), 1);
    assert_eq!(single_trit(Side::Below), -1);
    assert_eq!(single_trit(Side::At), 0);
    assert_eq!(single_trit(Side::Unordered), 0);
}

#[test]
fn range_rule_by_side() {
    // inside, below, above, and at either boundary
    assert_eq!(range_trit(Side::Above, Side::Below), 0);
    assert_eq!(range_trit(Side::Below, Side::Below), -1);
    assert_eq!(range_trit(Side::Above, Side::Above), 1);
    assert_eq!(range_trit(Side::At, Side::Below), 0);
    assert_eq!(range_trit(Side::Above, Side::At), 0);
    assert_eq!(range_trit(Side::Unordered, Side::Unordered), 0);
}

#[test]
fn dead_zone_rule_by_side() {
    // definite below / above
    assert_eq!(dead_zone_trit(Side::Below, Side::Below, Side::Below, Side::Below, None), -1);
    assert_eq!(dead_zone_trit(Side::Below, Side::Below, Side::At, Side::Below, Some(1)), -1);
    assert_eq!(dead_zone_trit(Side::Above, Side::Above, Side::Above, Side::Above, None), 1);
    assert_eq!(dead_zone_trit(Side::Above, Side::Above, Side::Above, Side::At, Some(-1)), 1);
    // safe zone
    assert_eq!(dead_zone_trit(Side::Above, Side::Below, Side::Above, Side::Below, Some(1)), 0);
    // dead band keeps the previous state, 0 when there is none
    assert_eq!(dead_zone_trit(Side::Above, Side::Above, Side::Above, Side::Below, Some(1)), 1);
    assert_eq!(dead_zone_trit(Side::Below, Side::Below, Side::Above, Side::Below, Some(-1)), -1);
    assert_eq!(dead_zone_trit(Side::Below, Side::Below, Side::Above, Side::Below, None), 0);
    assert_eq!(dead_zone_trit(Side::Above, Side::Above, Side::Above, Side::Below, Some(0)), 0);
    // unordered readings fall through to the previous state
    assert_eq!(
        dead_zone_trit(Side::Unordered, Side::Unordered, Side::Unordered, Side::Unordered, Some(1)),
        1
    );
}
