//! The rules that turn a sensor reading into a trit {-1, 0, +1}.
//!
//! A rule looks only at where the reading lies relative to each of its
//! bounds, so it is stated here over [`Side`]; comparing the reading with a
//! bound is left to the caller.

use vstd::prelude::*;

verus! {

/// Where a reading lies relative to one bound.
#[derive(Debug, Clone, Copy, PartialEq, Eq, Structural)]
pub enum Side {
    /// The reading is below the bound.
    Below,
    /// The reading equals the bound.
    At,
    /// The reading is above the bound.
    Above,
    /// The reading and the bound cannot be ordered (a NaN reading or bound).
    Unordered,
}

/// Where a reading lies relative to a bound, for values that can be ordered.
pub open spec fn side_of(x: int, bound: int) -> Side {
    if x < bound {
        Side::Below
    } else if x == bound {
        Side::At
    } else {
        Side::Above
    }
}

/// Below or at the bound.
pub open spec fn at_or_below(s: Side) -> bool {
    s == Side::Below || s == Side::At
}

/// Above or at the bound.
pub open spec fn at_or_above(s: Side) -> bool {
    s == Side::Above || s == Side::At
}

/// Single threshold: above gives +1, below gives -1, otherwise 0.
pub open spec fn single_rule(vs_threshold: Side) -> i8 {
    if vs_threshold == Side::Above {
        1
    } else if vs_threshold == Side::Below {
        -1i8
    } else {
        0
    }
}

/// Range threshold `[low, high]`: below `low` gives -1, above `high` gives +1,
/// otherwise 0.
pub open spec fn range_rule(vs_low: Side, vs_high: Side) -> i8 {
    if vs_low == Side::Below {
        -1i8
    } else if vs_high == Side::Above {
        1
    } else {
        0
    }
}

/// Dead zone with hysteresis: at or below `dead_low` gives -1, at or above
/// `dead_high` gives +1, inside the safe zone `[low, high]` gives 0, and
/// anywhere else (the dead band) the previous state is kept, 0 when there is none.
pub open spec fn dead_zone_rule(
    vs_low: Side,
    vs_high: Side,
    vs_dead_low: Side,
    vs_dead_high: Side,
    prev: Option<i8>,
) -> i8 {
    if at_or_below(vs_dead_low) {
        -1i8
    } else if at_or_above(vs_dead_high) {
        1
    } else if at_or_above(vs_low) && at_or_below(vs_high) {
        0
    } else {
        match prev {
            Some(p) => p,
            None => 0,
        }
    }
}

/// The trit of a reading under a single threshold.
pub fn single_trit(vs_threshold: Side) -> (trit: i8)
    ensures
        trit == single_rule(vs_threshold),
        trit == 1 <==> vs_threshold == Side::Above,
        trit == -1 <==> vs_threshold == Side::Below,
        trit == 0 <==> (vs_threshold == Side::At || vs_threshold == Side::Unordered),
{
    if vs_threshold == Side::Above {
        1
    } else if vs_threshold == Side::Below {
        -1
    } else {
        0
    }
}

/// The trit of a reading under a range threshold `[low, high]`.
pub fn range_trit(vs_low: Side, vs_high: Side) -> (trit: i8)
    ensures
        trit == range_rule(vs_low, vs_high),
        trit == -1 <==> vs_low == Side::Below,
        trit == 1 <==> (vs_low != Side::Below && vs_high == Side::Above),
{
    if vs_low == Side::Below {
        -1
    } else if vs_high == Side::Above {
        1
    } else {
        0
    }
}

/// The trit of a reading under a dead-zone threshold with hysteresis.
pub fn dead_zone_trit(
    vs_low: Side,
    vs_high: Side,
    vs_dead_low: Side,
    vs_dead_high: Side,
    prev: Option<i8>,
) -> (trit: i8)
    ensures
        trit == dead_zone_rule(vs_low, vs_high, vs_dead_low, vs_dead_high, prev),
        vs_dead_low == Side::Below || vs_dead_low == Side::At ==> trit == -1,
        vs_dead_low != Side::Below && vs_dead_low != Side::At && (vs_dead_high == Side::Above
            || vs_dead_high == Side::At) ==> trit == 1,
        vs_dead_low == Side::Above && vs_dead_high == Side::Below && (vs_low == Side::Above
            || vs_low == Side::At) && (vs_high == Side::Below || vs_high == Side::At) ==> trit
            == 0,
{
    if vs_dead_low == Side::Below || vs_dead_low == Side::At {
        -1
    } else if vs_dead_high == Side::Above || vs_dead_high == Side::At {
        1
    } else if (vs_low == Side::Above || vs_low == Side::At) && (vs_high == Side::Below || vs_high
        == Side::At) {
        0
    } else {
        prev.unwrap_or(0)
    }
}

/// A single threshold on an ordered reading: above gives +1, below gives -1,
/// equal gives 0.
pub proof fn lemma_single_on_readings(x: int, t: int)
    ensures
        single_rule(side_of(x, t)) == (if x > t {
            1i8
        } else if x < t {
            -1i8
        } else {
            0i8
        }),
{
}

/// A range threshold `[low, high]` on an ordered reading: below `low` gives -1,
/// above `high` gives +1, and the closed range itself gives 0.
pub proof fn lemma_range_on_readings(x: int, low: int, high: int)
    ensures
        range_rule(side_of(x, low), side_of(x, high)) == (if x < low {
            -1i8
        } else if x > high {
            1i8
        } else {
            0i8
        }),
{
}

/// A dead-zone threshold on an ordered reading: at or below `dead_low` gives
/// -1, at or above `dead_high` gives +1, the closed safe zone `[low, high]`
/// gives 0, and the rest of the dead band keeps the previous state (0 when
/// there is none).
pub proof fn lemma_dead_zone_on_readings(
    x: int,
    low: int,
    high: int,
    dead_low: int,
    dead_high: int,
    prev: Option<i8>,
)
    ensures
        dead_zone_rule(
            side_of(x, low),
            side_of(x, high),
            side_of(x, dead_low),
            side_of(x, dead_high),
            prev,
        ) == (if x <= dead_low {
            -1i8
        } else if x >= dead_high {
            1i8
        } else if low <= x && x <= high {
            0i8
        } else {
            match prev {
                Some(p) => p,
                None => 0i8,
            }
        }),
{
}

/// Strictly inside the dead band and inside the closed safe zone, a dead-zone
/// threshold gives 0 whatever its previous state.
pub proof fn lemma_safe_zone_is_zero(
    vs_low: Side,
    vs_high: Side,
    vs_dead_low: Side,
    vs_dead_high: Side,
    prev: Option<i8>,
)
    requires
        vs_low == Side::Above || vs_low == Side::At,
        vs_high == Side::Below || vs_high == Side::At,
        vs_dead_low == Side::Above,
        vs_dead_high == Side::Below,
    ensures
        dead_zone_rule(vs_low, vs_high, vs_dead_low, vs_dead_high, prev) == 0,
{
}

/// In the dead band (strictly between the outer bounds and outside the safe
/// zone) a dead-zone threshold keeps its previous state, so a reading that
/// hovers at a boundary does not flip the trit.
pub proof fn lemma_dead_band_retains_prev(
    vs_low: Side,
    vs_high: Side,
    vs_dead_low: Side,
    vs_dead_high: Side,
    prev: i8,
)
    requires
        vs_dead_low == Side::Above,
        vs_dead_high == Side::Below,
        vs_low == Side::Below || vs_high == Side::Above,
    ensures
        dead_zone_rule(vs_low, vs_high, vs_dead_low, vs_dead_high, Some(prev)) == prev,
        dead_zone_rule(vs_low, vs_high, vs_dead_low, vs_dead_high, None) == 0,
{
}

/// Every rule gives a trit, as long as a dead zone's previous state is one.
pub proof fn lemma_rules_give_trits(
    vs_low: Side,
    vs_high: Side,
    vs_dead_low: Side,
    vs_dead_high: Side,
    prev: Option<i8>,
)
    requires
        prev matches Some(p) ==> crate::room_state::is_trit(p),
    ensures
        crate::room_state::is_trit(single_rule(vs_low)),
        crate::room_state::is_trit(range_rule(vs_low, vs_high)),
        crate::room_state::is_trit(dead_zone_rule(vs_low, vs_high, vs_dead_low, vs_dead_high, prev)),
{
}

} // verus!
