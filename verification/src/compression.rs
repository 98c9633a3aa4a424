//! Compression of room tick histories: delta encoding (only the trits that
//! changed since the previous tick) and run-length encoding (runs of identical
//! consecutive states).

use vstd::prelude::*;

use crate::room_state::{valid_trits, TernaryRoomState};

verus! {

/// A delta entry: which trit positions changed and to what value.
#[derive(Debug, Clone, PartialEq, Eq)]
pub struct DeltaEntry {
    /// (position, new_trit_value)
    pub changes: Vec<(usize, i8)>,
}

/// An RLE run of identical room states.
#[derive(Debug, Clone, PartialEq, Eq)]
pub struct RleRun {
    /// The repeated state.
    pub state: TernaryRoomState,
    /// How many consecutive ticks this state repeats.
    pub count: usize,
}

/// Compressed room history using delta encoding.
#[derive(Debug, Clone)]
pub struct DeltaCompressed {
    /// The initial state at tick 0.
    pub initial: TernaryRoomState,
    /// Delta entries for each subsequent tick.
    pub deltas: Vec<DeltaEntry>,
}

/// Compressed room history using RLE.
#[derive(Debug, Clone)]
pub struct RleCompressed {
    /// Sequence of runs.
    pub runs: Vec<RleRun>,
}

/// Compression engine for ternary room state histories.
pub struct TernaryCompression;

/// The trit vectors of a history of room states.
pub open spec fn states_view(h: Seq<TernaryRoomState>) -> Seq<Seq<i8>> {
    h.map_values(|s: TernaryRoomState| s@)
}

/// The change lists of a sequence of delta entries.
pub open spec fn deltas_view(ds: Seq<DeltaEntry>) -> Seq<Seq<(usize, i8)>> {
    ds.map_values(|d: DeltaEntry| d.changes@)
}

/// The runs of an RLE encoding as (state, count) pairs.
pub open spec fn runs_view(runs: Seq<RleRun>) -> Seq<(Seq<i8>, nat)> {
    runs.map_values(|r: RleRun| (r.state@, r.count as nat))
}

/// The changes from `prev` to `next` among the first `n` positions: each
/// position where they differ, in increasing order, with the value in `next`.
pub open spec fn delta_changes(prev: Seq<i8>, next: Seq<i8>, n: nat) -> Seq<(usize, i8)>
    decreases n,
{
    if n == 0 {
        seq![]
    } else if prev[n - 1] != next[n - 1] {
        delta_changes(prev, next, (n - 1) as nat).push(((n - 1) as usize, next[n - 1]))
    } else {
        delta_changes(prev, next, (n - 1) as nat)
    }
}

/// The delta encoding of a non-empty history: for each tick after the first,
/// its changes from the tick before, over the positions of the first state.
pub open spec fn encoded_deltas(h: Seq<Seq<i8>>) -> Seq<Seq<(usize, i8)>> {
    Seq::new((h.len() - 1) as nat, |k: int| delta_changes(h[k], h[k + 1], h[0].len()))
}

/// `s` with the changes written in order, each setting one position.
pub open spec fn apply_changes(s: Seq<i8>, c: Seq<(usize, i8)>) -> Seq<i8>
    decreases c.len(),
{
    if c.len() == 0 {
        s
    } else {
        apply_changes(s, c.drop_last()).update(c.last().0 as int, c.last().1)
    }
}

/// The state reached from `init` by applying each delta in turn.
pub open spec fn replay(init: Seq<i8>, ds: Seq<Seq<(usize, i8)>>) -> Seq<i8>
    decreases ds.len(),
{
    if ds.len() == 0 {
        init
    } else {
        apply_changes(replay(init, ds.drop_last()), ds.last())
    }
}

/// The history a delta encoding stands for: the initial state, then the state
/// after each delta.
pub open spec fn decoded_history(init: Seq<i8>, ds: Seq<Seq<(usize, i8)>>) -> Seq<Seq<i8>> {
    Seq::new(ds.len() + 1, |k: int| replay(init, ds.take(k)))
}

/// A delta encoding can be decoded: every change names a position of the
/// initial state, and every state it passes through is a valid trit vector.
pub open spec fn decodable(init: Seq<i8>, ds: Seq<Seq<(usize, i8)>>) -> bool {
    &&& forall|k: int, j: int|
        0 <= k < ds.len() && 0 <= j < ds[k].len() ==> (#[trigger] ds[k][j]).0 < init.len()
    &&& forall|k: int| 0 <= k <= ds.len() ==> valid_trits(#[trigger] replay(init, ds.take(k)))
}

/// Every state after the first is at least as long as the first.
pub open spec fn no_shorter_than_first(h: Seq<Seq<i8>>) -> bool {
    forall|i: int| 0 <= i < h.len() ==> (#[trigger] h[i]).len() >= h[0].len()
}

/// Every state has the length of the first.
pub open spec fn uniform_length(h: Seq<Seq<i8>>) -> bool {
    forall|i: int| 0 <= i < h.len() ==> (#[trigger] h[i]).len() == h[0].len()
}

/// Run-length encoding of a history: consecutive equal states become one
/// (state, count) run.
pub open spec fn rle_runs(h: Seq<Seq<i8>>) -> Seq<(Seq<i8>, nat)>
    decreases h.len(),
{
    if h.len() == 0 {
        seq![]
    } else {
        let r = rle_runs(h.drop_last());
        if r.len() > 0 && r.last().0 == h.last() {
            r.update(r.len() - 1, (h.last(), r.last().1 + 1))
        } else {
            r.push((h.last(), 1nat))
        }
    }
}

/// The history that a list of runs stands for: each state repeated `count` times.
pub open spec fn expand_runs(runs: Seq<(Seq<i8>, nat)>) -> Seq<Seq<i8>>
    decreases runs.len(),
{
    if runs.len() == 0 {
        seq![]
    } else {
        expand_runs(runs.drop_last()) + Seq::new(runs.last().1, |_i: int| runs.last().0)
    }
}

/// Run-length decoding undoes run-length encoding, for every history.
pub proof fn lemma_rle_round_trip(h: Seq<Seq<i8>>)
    ensures
        expand_runs(rle_runs(h)) == h,
    decreases h.len(),
{
    if h.len() > 0 {
        let p = h.drop_last();
        lemma_rle_round_trip(p);
        let r = rle_runs(p);
        let x = h.last();
        if r.len() > 0 && r.last().0 == x {
            let r2 = r.update(r.len() - 1, (x, r.last().1 + 1));
            assert(r2.drop_last() =~= r.drop_last());
            assert(Seq::new(r.last().1 + 1, |_i: int| x) =~= Seq::new(r.last().1, |_i: int| x).push(x));
            assert(expand_runs(r2) =~= expand_runs(r) + seq![x]);
        } else {
            let r2 = r.push((x, 1nat));
            assert(r2.drop_last() =~= r);
            assert(Seq::new(1nat, |_i: int| x) =~= seq![x]);
        }
        assert(p + seq![x] =~= h);
    }
}

/// Run-length encoding is canonical: every run is non-empty, neighbouring runs
/// hold different states, and there are at most as many runs as ticks.
pub proof fn lemma_rle_canonical(h: Seq<Seq<i8>>)
    ensures
        rle_runs(h).len() <= h.len(),
        forall|k: int| 0 <= k < rle_runs(h).len() ==> (#[trigger] rle_runs(h)[k]).1 >= 1,
        forall|k: int|
            0 <= k < rle_runs(h).len() - 1 ==> (#[trigger] rle_runs(h)[k]).0 != rle_runs(h)[k + 1].0,
    decreases h.len(),
{
    if h.len() > 0 {
        lemma_rle_canonical(h.drop_last());
    }
}

/// Every change names a position below `n` and carries the value of `next` there.
proof fn lemma_delta_changes_entries(prev: Seq<i8>, next: Seq<i8>, n: nat)
    requires
        n <= usize::MAX,
    ensures
        forall|j: int|
            0 <= j < delta_changes(prev, next, n).len() ==> {
                &&& (#[trigger] delta_changes(prev, next, n)[j]).0 < n
                &&& delta_changes(prev, next, n)[j].1 == next[delta_changes(prev, next, n)[j].0 as int]
            },
    decreases n,
{
    if n > 0 {
        lemma_delta_changes_entries(prev, next, (n - 1) as nat);
        let c = delta_changes(prev, next, n);
        let c0 = delta_changes(prev, next, (n - 1) as nat);
        assert forall|j: int| 0 <= j < c.len() implies {
            &&& (#[trigger] c[j]).0 < n
            &&& c[j].1 == next[c[j].0 as int]
        } by {
            if j < c0.len() {
                assert(c[j] == c0[j]);
            } else {
                assert(c[j] == ((n - 1) as usize, next[n - 1]));
            }
        }
    }
}

/// Applying the first `m` positions' changes from `prev` to `next` onto a copy
/// of `prev` gives `next` on those positions and `prev` on the rest.
proof fn lemma_apply_delta(base: Seq<i8>, prev: Seq<i8>, next: Seq<i8>, m: nat)
    requires
        base.len() <= usize::MAX,
        m <= base.len(),
        prev.len() >= base.len(),
        next.len() >= base.len(),
        forall|i: int| 0 <= i < base.len() ==> base[i] == prev[i],
    ensures
        apply_changes(base, delta_changes(prev, next, m)).len() == base.len(),
        forall|i: int|
            0 <= i < m ==> #[trigger] apply_changes(base, delta_changes(prev, next, m))[i] == next[i],
        forall|i: int|
            m <= i < base.len() ==> #[trigger] apply_changes(base, delta_changes(prev, next, m))[i]
                == prev[i],
    decreases m,
{
    if m > 0 {
        lemma_apply_delta(base, prev, next, (m - 1) as nat);
        let c = delta_changes(prev, next, m);
        if prev[m - 1] != next[m - 1] {
            assert(c.drop_last() == delta_changes(prev, next, (m - 1) as nat));
        }
    }
}

/// Replaying the first `k` encoded deltas from the first state gives state `k`,
/// cut to the length of the first state.
proof fn lemma_replay_encoded(h: Seq<Seq<i8>>, k: int)
    requires
        h.len() > 0,
        h[0].len() <= usize::MAX,
        no_shorter_than_first(h),
        0 <= k < h.len(),
    ensures
        replay(h[0], encoded_deltas(h).take(k)) == h[k].take(h[0].len() as int),
    decreases k,
{
    let n = h[0].len();
    let e = encoded_deltas(h);
    if k == 0 {
        assert(e.take(0) =~= seq![]);
        assert(h[0].take(n as int) =~= h[0]);
    } else {
        lemma_replay_encoded(h, k - 1);
        assert(e.take(k).drop_last() =~= e.take(k - 1));
        let base = h[k - 1].take(n as int);
        assert(h[k - 1].len() >= n);
        assert(h[k].len() >= n);
        lemma_apply_delta(base, h[k - 1], h[k], n);
        assert(apply_changes(base, delta_changes(h[k - 1], h[k], n)) =~= h[k].take(n as int));
    }
}

/// Delta decoding undoes delta encoding: a non-empty history whose states all
/// have one length is restored exactly.
pub proof fn lemma_delta_round_trip(h: Seq<Seq<i8>>)
    requires
        h.len() > 0,
        h[0].len() <= usize::MAX,
        uniform_length(h),
    ensures
        decoded_history(h[0], encoded_deltas(h)) == h,
{
    assert forall|k: int| 0 <= k < h.len() implies #[trigger] decoded_history(
        h[0],
        encoded_deltas(h),
    )[k] == h[k] by {
        lemma_replay_encoded(h, k);
        assert(h[k].take(h[0].len() as int) =~= h[k]);
    }
    assert(decoded_history(h[0], encoded_deltas(h)) =~= h);
}

/// The positions of a change list strictly increase.
pub open spec fn positions_increasing(c: Seq<(usize, i8)>) -> bool {
    forall|a: int, b: int| 0 <= a < b < c.len() ==> (#[trigger] c[a]).0 < (#[trigger] c[b]).0
}

/// A delta list as `delta_encode` produces it: within each delta the positions
/// strictly increase and lie inside the initial state, and every change sets a
/// trit to a value different from the one it had just before that delta.
pub open spec fn canonical_deltas(init: Seq<i8>, ds: Seq<Seq<(usize, i8)>>) -> bool {
    &&& forall|k: int| 0 <= k < ds.len() ==> positions_increasing(#[trigger] ds[k])
    &&& forall|k: int, j: int|
        0 <= k < ds.len() && 0 <= j < ds[k].len() ==> {
            &&& (#[trigger] ds[k][j]).0 < init.len()
            &&& ds[k][j].1 != replay(init, ds.take(k))[ds[k][j].0 as int]
        }
}

/// Number of changes whose position is below `m`.
spec fn count_below(c: Seq<(usize, i8)>, m: int) -> nat
    decreases c.len(),
{
    if c.len() == 0 {
        0
    } else {
        count_below(c.drop_last(), m) + (if (c.last().0 as int) < m {
            1nat
        } else {
            0nat
        })
    }
}

/// With increasing positions, the changes below `m` are a prefix of the list.
proof fn lemma_count_below(c: Seq<(usize, i8)>, m: int)
    requires
        positions_increasing(c),
    ensures
        count_below(c, m) <= c.len(),
        forall|j: int| 0 <= j < c.len() ==> (j < count_below(c, m)) == ((#[trigger] c[j]).0 < m),
    decreases c.len(),
{
    if c.len() > 0 {
        let p = c.drop_last();
        assert(positions_increasing(p)) by {
            assert forall|a: int, b: int| 0 <= a < b < p.len() implies (#[trigger] p[a]).0 < (
            #[trigger] p[b]).0 by {
                assert(c[a] == p[a] && c[b] == p[b]);
            }
        }
        lemma_count_below(p, m);
        let x = c.last();
        if (x.0 as int) < m {
            assert forall|j: int| 0 <= j < p.len() implies (#[trigger] p[j]).0 < m && j < count_below(p, m) by {
                assert(c[j] == p[j]);
                assert(c[j].0 < c[c.len() - 1].0);
            }
            if count_below(p, m) < p.len() {
                let j = count_below(p, m) as int;
                assert(j < count_below(p, m));
            }
        }
        assert forall|j: int| 0 <= j < c.len() implies (j < count_below(c, m)) == ((
        #[trigger] c[j]).0 < m) by {
            if j < p.len() {
                assert(c[j] == p[j]);
            }
        }
    }
}

/// Applying a change list with increasing positions inside `base` sets each
/// listed position to its value and leaves every other position alone.
proof fn lemma_apply_increasing(base: Seq<i8>, c: Seq<(usize, i8)>)
    requires
        positions_increasing(c),
        forall|j: int| 0 <= j < c.len() ==> (#[trigger] c[j]).0 < base.len(),
    ensures
        apply_changes(base, c).len() == base.len(),
        forall|j: int| 0 <= j < c.len() ==> apply_changes(base, c)[(#[trigger] c[j]).0 as int] == c[j].1,
        forall|i: int|
            0 <= i < base.len() && (forall|j: int| 0 <= j < c.len() ==> (#[trigger] c[j]).0 != i)
                ==> apply_changes(base, c)[i] == base[i],
    decreases c.len(),
{
    if c.len() > 0 {
        let p = c.drop_last();
        assert(positions_increasing(p)) by {
            assert forall|a: int, b: int| 0 <= a < b < p.len() implies (#[trigger] p[a]).0 < (
            #[trigger] p[b]).0 by {
                assert(c[a] == p[a] && c[b] == p[b]);
            }
        }
        assert forall|j: int| 0 <= j < p.len() implies (#[trigger] p[j]).0 < base.len() by {
            assert(c[j] == p[j]);
        }
        lemma_apply_increasing(base, p);
        let x = c.last();
        assert(x.0 < base.len());
        assert forall|j: int| 0 <= j < c.len() implies apply_changes(base, c)[(
        #[trigger] c[j]).0 as int] == c[j].1 by {
            if j < p.len() {
                assert(c[j] == p[j]);
                assert(c[j].0 < c[c.len() - 1].0);
            }
        }
        assert forall|i: int|
            0 <= i < base.len() && (forall|j: int| 0 <= j < c.len() ==> (#[trigger] c[j]).0 != i)
            implies apply_changes(base, c)[i] == base[i] by {
            assert(c[c.len() - 1].0 != i);
            assert forall|j: int| 0 <= j < p.len() implies (#[trigger] p[j]).0 != i by {
                assert(c[j] == p[j]);
            }
        }
    }
}

/// The changes from `base` to `base` with a canonical change list applied,
/// over the first `m` positions, are the part of that list below `m`.
proof fn lemma_changes_of_applied(base: Seq<i8>, c: Seq<(usize, i8)>, m: nat)
    requires
        base.len() <= usize::MAX,
        m <= base.len(),
        positions_increasing(c),
        forall|j: int|
            0 <= j < c.len() ==> (#[trigger] c[j]).0 < base.len() && c[j].1 != base[c[j].0 as int],
    ensures
        delta_changes(base, apply_changes(base, c), m) == c.take(count_below(c, m as int) as int),
    decreases m,
{
    let next = apply_changes(base, c);
    lemma_apply_increasing(base, c);
    lemma_count_below(c, m as int);
    if m == 0 {
        if count_below(c, 0) > 0 {
            assert(c[0].0 < 0);
        }
        assert(c.take(0) =~= seq![]);
    } else {
        let q = (m - 1) as nat;
        lemma_changes_of_applied(base, c, q);
        lemma_count_below(c, q as int);
        let a = count_below(c, q as int) as int;
        let b = count_below(c, m as int) as int;
        if exists|j: int| 0 <= j < c.len() && (#[trigger] c[j]).0 == q {
            let j = choose|j: int| 0 <= j < c.len() && (#[trigger] c[j]).0 == q;
            assert(!(j < a));
            if j > a {
                assert(c[a].0 < c[j].0);
            }
            assert(j == a);
            assert(next[q as int] == c[j].1);
            assert(a < b);
            if b > a + 1 {
                assert(c[a].0 < c[a + 1].0);
                assert(c[a + 1].0 < m);
            }
            assert(b == a + 1);
            assert(c.take(b) =~= c.take(a).push(c[a]));
            assert(c[a] == ((m - 1) as usize, next[m - 1]));
        } else {
            assert(next[q as int] == base[q as int]);
            if a < b {
                assert(c[a].0 < m);
                assert(c[a].0 != q);
            }
            if b < a {
                assert(c[b].0 < q);
            }
            assert(a == b);
        }
    }
}

/// Replaying deltas whose positions lie inside the initial state keeps its length.
proof fn lemma_replay_len(init: Seq<i8>, ds: Seq<Seq<(usize, i8)>>)
    requires
        forall|k: int, j: int|
            0 <= k < ds.len() && 0 <= j < ds[k].len() ==> (#[trigger] ds[k][j]).0 < init.len(),
    ensures
        replay(init, ds).len() == init.len(),
    decreases ds.len(),
{
    if ds.len() > 0 {
        let p = ds.drop_last();
        assert forall|k: int, j: int| 0 <= k < p.len() && 0 <= j < p[k].len() implies (
        #[trigger] p[k][j]).0 < init.len() by {
            assert(ds[k] == p[k]);
        }
        lemma_replay_len(init, p);
        lemma_apply_len(replay(init, p), ds.last());
    }
}

proof fn lemma_apply_len(s: Seq<i8>, c: Seq<(usize, i8)>)
    requires
        forall|j: int| 0 <= j < c.len() ==> (#[trigger] c[j]).0 < s.len(),
    ensures
        apply_changes(s, c).len() == s.len(),
    decreases c.len(),
{
    if c.len() > 0 {
        lemma_apply_len(s, c.drop_last());
    }
}

/// Delta encoding undoes delta decoding for canonical delta lists: decoding
/// gives states of one length, starting from the initial state, and encoding
/// them gives the same deltas back.
pub proof fn lemma_delta_encode_after_decode(init: Seq<i8>, ds: Seq<Seq<(usize, i8)>>)
    requires
        init.len() <= usize::MAX,
        canonical_deltas(init, ds),
    ensures
        decoded_history(init, ds)[0] == init,
        uniform_length(decoded_history(init, ds)),
        encoded_deltas(decoded_history(init, ds)) == ds,
{
    let h = decoded_history(init, ds);
    assert(ds.take(0) =~= seq![]);
    assert forall|k: int| 0 <= k < h.len() implies (#[trigger] h[k]).len() == h[0].len() by {
        let t = ds.take(k);
        assert forall|x: int, j: int| 0 <= x < t.len() && 0 <= j < t[x].len() implies (
        #[trigger] t[x][j]).0 < init.len() by {
            assert(t[x] == ds[x]);
            assert(ds[x][j].0 < init.len());
        }
        lemma_replay_len(init, t);
    }
    assert forall|k: int| 0 <= k < ds.len() implies #[trigger] encoded_deltas(h)[k] == ds[k] by {
        let base = h[k];
        assert(base == replay(init, ds.take(k)));
        assert(ds.take(k + 1).drop_last() =~= ds.take(k));
        assert(h[k + 1] == apply_changes(base, ds[k]));
        assert(base.len() == init.len());
        let c = ds[k];
        assert forall|j: int| 0 <= j < c.len() implies (#[trigger] c[j]).0 < base.len() && c[j].1
            != base[c[j].0 as int] by {
            assert(ds[k][j] == c[j]);
        }
        lemma_changes_of_applied(base, c, base.len());
        lemma_count_below(c, base.len() as int);
        if count_below(c, base.len() as int) < c.len() {
            let j = count_below(c, base.len() as int) as int;
            assert(c[j].0 < base.len());
        }
        assert(c.take(c.len() as int) =~= c);
    }
    assert(encoded_deltas(h) =~= ds);
}

/// A delta between two states of one length is empty exactly when the states are equal.
pub proof fn lemma_noop_iff_unchanged(prev: Seq<i8>, next: Seq<i8>)
    requires
        prev.len() == next.len(),
    ensures
        (delta_changes(prev, next, prev.len()).len() == 0) == (prev == next),
{
    lemma_noop_upto(prev, next, prev.len());
    if delta_changes(prev, next, prev.len()).len() == 0 {
        assert(prev =~= next);
    }
}

proof fn lemma_noop_upto(prev: Seq<i8>, next: Seq<i8>, n: nat)
    ensures
        (delta_changes(prev, next, n).len() == 0) == (forall|i: int| 0 <= i < n ==> prev[i] == next[i]),
    decreases n,
{
    if n > 0 {
        lemma_noop_upto(prev, next, (n - 1) as nat);
    }
}

impl DeltaEntry {
    fn new(changes: Vec<(usize, i8)>) -> (entry: Self)
        ensures
            entry.changes@ == changes@,
    {
        DeltaEntry { changes }
    }

    /// Whether this delta has no changes.
    pub fn is_noop(&self) -> (noop: bool)
        ensures
            noop == (self.changes@.len() == 0),
    {
        self.changes.len() == 0
    }
}

/// The changes from `prev` to `next` over the first `n` positions.
fn changes_between(prev: &TernaryRoomState, next: &TernaryRoomState, n: usize) -> (changes: Vec<(usize, i8)>)
    requires
        n <= prev@.len(),
        n <= next@.len(),
    ensures
        changes@ == delta_changes(prev@, next@, n as nat),
{
    let a: &[i8] = prev.trits();
    let b: &[i8] = next.trits();
    let mut changes: Vec<(usize, i8)> = Vec::new();
    let mut pos: usize = 0;
    while pos < n
        invariant
            n <= a@.len(),
            n <= b@.len(),
            a@ == prev@,
            b@ == next@,
            pos <= n,
            changes@ == delta_changes(prev@, next@, pos as nat),
        decreases n - pos,
    {
        if b[pos] != a[pos] {
            changes.push((pos, b[pos]));
        }
        pos = pos + 1;
    }
    changes
}

impl TernaryCompression {
    /// Delta-encode a history of room states: the first state in full, then
    /// for each later tick only the trits that changed since the tick before.
    /// `None` for an empty history.
    pub fn delta_encode(history: &[TernaryRoomState]) -> (compressed: Option<DeltaCompressed>)
        requires
            no_shorter_than_first(states_view(history@)),
        ensures
            compressed is None <==> history@.len() == 0,
            compressed matches Some(c) ==> {
                &&& c.initial@ == history@[0]@
                &&& deltas_view(c.deltas@) == encoded_deltas(states_view(history@))
                &&& decodable(c.initial@, deltas_view(c.deltas@))
            },
    {
        if history.len() == 0 {
            return None;
        }
        let ghost h = states_view(history@);
        let first: &TernaryRoomState = &history[0];
        let initial: TernaryRoomState = first.clone();
        let trit_count: usize = initial.len();
        let mut deltas: Vec<DeltaEntry> = Vec::new();
        let mut i: usize = 1;
        proof {
            use_type_invariant(first);
        }
        while i < history.len()
            invariant
                h == states_view(history@),
                no_shorter_than_first(h),
                h.len() > 0,
                trit_count == h[0].len(),
                1 <= i <= history@.len(),
                deltas@.len() == i - 1,
                deltas_view(deltas@) == encoded_deltas(h).take(i - 1),
                forall|j: int| 0 <= j < i ==> valid_trits(#[trigger] h[j]),
            decreases history@.len() - i,
        {
            let cur: &TernaryRoomState = &history[i];
            proof {
                use_type_invariant(cur);
                assert(h[i as int] == history@[i as int]@);
                assert(h[i - 1] == history@[i - 1]@);
                assert(h[i as int].len() >= h[0].len());
                assert(h[i - 1].len() >= h[0].len());
            }
            let changes: Vec<(usize, i8)> = changes_between(&history[i - 1], cur, trit_count);
            let ghost before = deltas@;
            let entry: DeltaEntry = DeltaEntry::new(changes);
            deltas.push(entry);
            proof {
                assert(deltas@ == before.push(entry));
                assert(entry.changes@ == encoded_deltas(h)[i - 1]);
                assert forall|k: int| 0 <= k < i implies #[trigger] deltas_view(deltas@)[k] == encoded_deltas(h).take(i as int)[k] by {
                    if k < i - 1 {
                        assert(deltas@[k] == before[k]);
                        assert(deltas_view(before)[k] == encoded_deltas(h).take(i - 1)[k]);
                    }
                }
                assert(deltas_view(deltas@) =~= encoded_deltas(h).take(i as int));
            }
            i = i + 1;
        }
        let ghost e = encoded_deltas(h);
        proof {
            assert(e.take(e.len() as int) =~= e);
            assert forall|k: int, j: int| 0 <= k < e.len() && 0 <= j < e[k].len() implies (
            #[trigger] e[k][j]).0 < h[0].len() by {
                lemma_delta_changes_entries(h[k], h[k + 1], h[0].len());
            }
            assert forall|k: int| 0 <= k <= e.len() implies valid_trits(
                #[trigger] replay(h[0], e.take(k)),
            ) by {
                lemma_replay_encoded(h, k);
                assert(valid_trits(h[k]));
                assert forall|x: int| 0 <= x < h[k].take(h[0].len() as int).len() implies crate::room_state::is_trit(
                    #[trigger] h[k].take(h[0].len() as int)[x],
                ) by {
                    assert(crate::room_state::is_trit(h[k][x]));
                }
            }
        }
        Some(DeltaCompressed { initial, deltas })
    }

    /// Delta-compress and decompress a history and report whether it came back
    /// unchanged: it does exactly when all its states have the same length.
    pub fn roundtrip_check(history: &[TernaryRoomState]) -> (lossless: bool)
        requires
            no_shorter_than_first(states_view(history@)),
        ensures
            lossless == uniform_length(states_view(history@)),
    {
        let ghost h = states_view(history@);
        if let Some(compressed) = Self::delta_encode(history) {
            let decompressed: Vec<TernaryRoomState> = Self::delta_decode(&compressed);
            let ghost n = h[0].len();
            let ghost d = states_view(decompressed@);
            let first: &TernaryRoomState = &history[0];
            proof {
                use_type_invariant(first);
                assert(d.len() == h.len());
                assert forall|k: int| 0 <= k < h.len() implies #[trigger] d[k] == h[k].take(n as int) by {
                    lemma_replay_encoded(h, k);
                }
            }
            if decompressed.len() != history.len() {
                return false;
            }
            let mut i: usize = 0;
            while i < history.len()
                invariant
                    h == states_view(history@),
                    d == states_view(decompressed@),
                    d.len() == h.len(),
                    h.len() > 0,
                    n == h[0].len(),
                    no_shorter_than_first(h),
                    forall|k: int| 0 <= k < h.len() ==> #[trigger] d[k] == h[k].take(n as int),
                    i <= history@.len(),
                    forall|k: int| 0 <= k < i ==> #[trigger] h[k].len() == n,
                decreases history@.len() - i,
            {
                if !(decompressed[i] == history[i]) {
                    proof {
                        assert(d[i as int] != h[i as int]);
                        if h[i as int].len() == n {
                            assert(h[i as int].take(n as int) =~= h[i as int]);
                        }
                    }
                    return false;
                }
                proof {
                    assert(d[i as int] == h[i as int]);
                    assert(h[i as int].take(n as int).len() == n);
                }
                i = i + 1;
            }
            true
        } else {
            history.len() == 0
        }
    }

    /// Run-length encode a history: consecutive identical states become one
    /// (state, count) run.
    pub fn rle_encode(history: &[TernaryRoomState]) -> (compressed: RleCompressed)
        ensures
            runs_view(compressed.runs@) == rle_runs(states_view(history@)),
    {
        let ghost h = states_view(history@);
        let mut runs: Vec<RleRun> = Vec::new();
        let mut i: usize = 0;
        while i < history.len()
            invariant
                h == states_view(history@),
                i <= history@.len(),
                runs_view(runs@) == rle_runs(h.take(i as int)),
                forall|k: int| 0 <= k < runs@.len() ==> (#[trigger] runs@[k]).count <= i,
            decreases history@.len() - i,
        {
            let state: &TernaryRoomState = &history[i];
            let ghost r = rle_runs(h.take(i as int));
            proof {
                assert(h.take(i + 1).drop_last() =~= h.take(i as int));
                assert(h.take(i + 1).last() == state@);
            }
            let n: usize = runs.len();
            if n > 0 && runs[n - 1].state == *state {
                let last: RleRun = runs.pop().unwrap();
                assert(last.count <= i);
                runs.push(RleRun { state: last.state, count: last.count + 1 });
                proof {
                    assert(runs_view(runs@) =~= r.update(r.len() - 1, (state@, r.last().1 + 1)));
                }
            } else {
                proof {
                    if n > 0 {
                        assert(r.last().0 == runs@[n - 1].state@);
                    }
                }
                runs.push(RleRun { state: state.clone(), count: 1 });
                proof {
                    assert(runs_view(runs@) =~= r.push((state@, 1nat)));
                }
            }
            i = i + 1;
        }
        proof {
            assert(h.take(history@.len() as int) =~= h);
        }
        RleCompressed { runs }
    }

    /// Decompress RLE-encoded history back to the original ticks.
    pub fn rle_decode(compressed: &RleCompressed) -> (history: Vec<TernaryRoomState>)
        ensures
            states_view(history@) == expand_runs(runs_view(compressed.runs@)),
    {
        let ghost rv = runs_view(compressed.runs@);
        let mut result: Vec<TernaryRoomState> = Vec::new();
        let n: usize = compressed.runs.len();
        let mut k: usize = 0;
        proof {
            assert(rv.take(0) =~= seq![]);
            assert(states_view(result@) =~= expand_runs(rv.take(0)));
        }
        while k < n
            invariant
                n == compressed.runs@.len(),
                rv == runs_view(compressed.runs@),
                k <= n,
                states_view(result@) == expand_runs(rv.take(k as int)),
            decreases n - k,
        {
            let run: &RleRun = &compressed.runs[k];
            let ghost base = states_view(result@);
            let mut j: usize = 0;
            while j < run.count
                invariant
                    base == expand_runs(rv.take(k as int)),
                    j <= run.count,
                    states_view(result@) == base + Seq::new(j as nat, |_i: int| run.state@),
                decreases run.count - j,
            {
                let ghost before = result@;
                let copy: TernaryRoomState = run.state.clone();
                result.push(copy);
                proof {
                    assert(states_view(result@) =~= states_view(before).push(copy@));
                    assert(Seq::new((j + 1) as nat, |_i: int| run.state@) =~= Seq::new(
                        j as nat,
                        |_i: int| run.state@,
                    ).push(run.state@));
                }
                j = j + 1;
            }
            proof {
                assert(rv.take(k + 1).drop_last() =~= rv.take(k as int));
                assert(rv.take(k + 1).last() == (run.state@, run.count as nat));
            }
            k = k + 1;
        }
        proof {
            assert(rv.take(n as int) =~= rv);
        }
        result
    }

    /// Decompress delta-encoded history back to the original ticks: the
    /// initial state, then the state after each delta in turn.
    pub fn delta_decode(compressed: &DeltaCompressed) -> (history: Vec<TernaryRoomState>)
        requires
            decodable(compressed.initial@, deltas_view(compressed.deltas@)),
        ensures
            states_view(history@) == decoded_history(
                compressed.initial@,
                deltas_view(compressed.deltas@),
            ),
    {
        let ghost init = compressed.initial@;
        let ghost ds = deltas_view(compressed.deltas@);
        let mut result: Vec<TernaryRoomState> = Vec::new();
        result.push(compressed.initial.clone());
        let mut current: TernaryRoomState = compressed.initial.clone();
        let n: usize = compressed.deltas.len();
        let mut k: usize = 0;
        proof {
            assert(ds.take(0) =~= seq![]);
            assert(replay(init, ds.take(0)) == init);
            assert(states_view(result@) =~= decoded_history(init, ds.take(0)));
        }
        while k < n
            invariant
                n == compressed.deltas@.len(),
                n == ds.len(),
                init == compressed.initial@,
                ds == deltas_view(compressed.deltas@),
                decodable(init, ds),
                k <= n,
                current@ == replay(init, ds.take(k as int)),
                current@.len() == init.len(),
                result@.len() == k + 1,
                states_view(result@) == decoded_history(init, ds.take(k as int)),
            decreases n - k,
        {
            let changes: &Vec<(usize, i8)> = &compressed.deltas[k].changes;
            let ghost c = changes@;
            assert(c == ds[k as int]);
            let mut next_trits: Vec<i8> = vstd::slice::slice_to_vec(current.trits());
            let m: usize = changes.len();
            let mut j: usize = 0;
            while j < m
                invariant
                    m == c.len(),
                    c == changes@,
                    c == ds[k as int],
                    k < ds.len(),
                    decodable(init, ds),
                    current@.len() == init.len(),
                    j <= m,
                    next_trits@ == apply_changes(current@, c.take(j as int)),
                    next_trits@.len() == init.len(),
                decreases m - j,
            {
                let (pos, val) = changes[j];
                assert(ds[k as int][j as int] == c[j as int]);
                assert(pos < init.len());
                next_trits[pos] = val;
                proof {
                    assert(c.take(j + 1).drop_last() =~= c.take(j as int));
                }
                j = j + 1;
            }
            proof {
                assert(c.take(m as int) =~= c);
                assert(ds.take(k + 1).drop_last() =~= ds.take(k as int));
                assert(next_trits@ == replay(init, ds.take(k + 1)));
                assert(valid_trits(replay(init, ds.take(k + 1))));
            }
            let next: TernaryRoomState = TernaryRoomState::new(next_trits);
            let ghost before = result@;
            assert(states_view(before) == decoded_history(init, ds.take(k as int)));
            result.push(next.clone());
            current = next;
            k = k + 1;
            proof {
                assert(states_view(result@) =~= decoded_history(init, ds.take(k as int))) by {
                    assert forall|x: int| 0 <= x < k implies #[trigger] states_view(result@)[x]
                        == decoded_history(init, ds.take(k as int))[x] by {
                        assert(ds.take(k as int).take(x) =~= ds.take(k - 1).take(x));
                        assert(result@[x] == before[x]);
                        assert(states_view(before)[x] == decoded_history(init, ds.take(k - 1))[x]);
                        assert(states_view(result@)[x] == states_view(before)[x]);
                    }
                    assert(ds.take(k as int).take(k as int) =~= ds.take(k as int));
                }
            }
        }
        proof {
            assert(ds.take(n as int) =~= ds);
        }
        result
    }
}

} // verus!
