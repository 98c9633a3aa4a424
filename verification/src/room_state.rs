//! A room's sensor state as a ternary vector, with its packed `u32` form.

use vstd::prelude::*;
use vstd::std_specs::cmp::PartialEqSpecImpl;

verus! {

/// Maximum number of trits storable in a `u32` (2 bits per trit).
pub const MAX_TRITS: usize = 16;

/// A trit is one of -1, 0, +1.
pub open spec fn is_trit(t: i8) -> bool {
    t == -1 || t == 0 || t == 1
}

/// A sequence of trits short enough to be packed into a `u32`.
pub open spec fn valid_trits(s: Seq<i8>) -> bool {
    &&& s.len() <= MAX_TRITS
    &&& forall|i: int| 0 <= i < s.len() ==> is_trit(#[trigger] s[i])
}

/// The 2-bit code of a trit: -1 is 0b11, 0 is 0b00, +1 is 0b01.
pub open spec fn trit_code(t: i8) -> u32 {
    if t == -1 {
        3
    } else if t == 1 {
        1
    } else {
        0
    }
}

/// The trit that a 2-bit code stands for; the unused code 0b10 reads as 0.
pub open spec fn code_trit(bits: u32) -> i8 {
    if bits == 1 {
        1
    } else if bits == 3 {
        -1i8
    } else {
        0
    }
}

/// The 2-bit field of `word` that holds trit number `i` (bits 2i and 2i+1).
pub open spec fn field(word: u32, i: u32) -> u32 {
    (word >> ((2 * i) as u32)) & 3u32
}

/// `word` is the packed form of `s`: field `i` holds the code of `s[i]`,
/// and every field past the end of `s` is zero.
pub open spec fn packs(word: u32, s: Seq<i8>) -> bool {
    forall|i: u32|
        i < 16 ==> #[trigger] field(word, i) == (if (i as int) < s.len() {
            trit_code(s[i as int])
        } else {
            0u32
        })
}

/// The first `count` trits read back from a packed word.
pub open spec fn unpacked(word: u32, count: nat) -> Seq<i8> {
    Seq::new(count, |i: int| code_trit(field(word, i as u32)))
}

/// Number of positions below `n` at which `a` and `b` differ.
pub open spec fn differing_upto(a: Seq<i8>, b: Seq<i8>, n: nat) -> nat
    decreases n,
{
    if n == 0 {
        0
    } else {
        differing_upto(a, b, (n - 1) as nat) + (if a[n - 1] != b[n - 1] {
            1nat
        } else {
            0nat
        })
    }
}

/// Hamming distance: the number of positions at which two trit vectors differ.
pub open spec fn hamming(a: Seq<i8>, b: Seq<i8>) -> nat {
    differing_upto(a, b, a.len())
}

/// Sum of `a[i] * b[i]` over the positions below `n`.
pub open spec fn dot_upto(a: Seq<i8>, b: Seq<i8>, n: nat) -> int
    decreases n,
{
    if n == 0 {
        0
    } else {
        dot_upto(a, b, (n - 1) as nat) + a[n - 1] * b[n - 1]
    }
}

/// Ternary dot product: the sum of `a[i] * b[i]`.
pub open spec fn dot(a: Seq<i8>, b: Seq<i8>) -> int {
    dot_upto(a, b, a.len())
}

/// How one trit is written: `-1`, `0`, `+1` (and `?` for anything else).
pub open spec fn trit_text(t: i8) -> Seq<char> {
    if t == -1 {
        seq!['-', '1']
    } else if t == 0 {
        seq!['0']
    } else if t == 1 {
        seq!['+', '1']
    } else {
        seq!['?']
    }
}

/// The trits of `s` written one after another, separated by commas.
pub open spec fn trits_text(s: Seq<i8>) -> Seq<char>
    decreases s.len(),
{
    if s.len() == 0 {
        seq![]
    } else if s.len() == 1 {
        trit_text(s[0])
    } else {
        trits_text(s.drop_last()) + seq![','] + trit_text(s.last())
    }
}

/// A room state written as `{-1,0,+1}`.
pub open spec fn state_text(s: Seq<i8>) -> Seq<char> {
    seq!['{'] + trits_text(s) + seq!['}']
}

/// Setting an empty field of a word with `|` changes that field alone.
proof fn lemma_or_into_field(w: u32, b: u32, k: u32)
    requires
        k < 16,
        b < 4,
        field(w, k) == 0,
    ensures
        forall|j: u32|
            j < 16 ==> #[trigger] field(w | (b << ((2 * k) as u32)), j) == (if j == k {
                b
            } else {
                field(w, j)
            }),
{
    assert forall|j: u32| j < 16 implies #[trigger] field(w | (b << ((2 * k) as u32)), j) == (if j
        == k {
        b
    } else {
        field(w, j)
    }) by {
        assert(((w | (b << ((2 * k) as u32))) >> ((2 * j) as u32)) & 3u32 == (if j == k {
            b
        } else {
            (w >> ((2 * j) as u32)) & 3u32
        })) by (bit_vector)
            requires
                k < 16,
                j < 16,
                b < 4,
                (w >> ((2 * k) as u32)) & 3u32 == 0,
        ;
    }
}

/// Unpacking the packed form of a trit vector, with its length, gives the
/// vector back.
pub proof fn lemma_unpack_pack(s: Seq<i8>, word: u32)
    requires
        valid_trits(s),
        packs(word, s),
    ensures
        unpacked(word, s.len()) == s,
{
    assert forall|i: int| 0 <= i < s.len() implies #[trigger] unpacked(word, s.len())[i] == s[i] by {
        assert(is_trit(s[i]));
        assert(field(word, i as u32) == trit_code(s[i]));
    }
    assert(unpacked(word, s.len()) =~= s);
}

/// A word whose fields never hold the unused code 0b10, and whose fields past
/// `count` are zero, is the packed form of the trits unpacked from it.
pub proof fn lemma_pack_unpack(word: u32, count: nat)
    requires
        count <= MAX_TRITS,
        forall|i: u32| i < 16 ==> #[trigger] field(word, i) != 2,
        forall|i: u32| count <= i < 16 ==> #[trigger] field(word, i) == 0,
    ensures
        valid_trits(unpacked(word, count)),
        packs(word, unpacked(word, count)),
{
    assert forall|i: u32| i < 16 implies #[trigger] field(word, i) == (if (i as int) < unpacked(
        word,
        count,
    ).len() {
        trit_code(unpacked(word, count)[i as int])
    } else {
        0u32
    }) by {
        assert(field(word, i) < 4) by (bit_vector)
            requires
                field(word, i) == (word >> ((2 * i) as u32)) & 3u32,
        ;
    }
}

/// When every field of `w` from `m` up is zero, so is `w` shifted right past
/// the first `m` fields.
proof fn lemma_high_fields_zero(w: u32, m: u32)
    requires
        m < 16,
        forall|i: u32| m <= i < 16 ==> #[trigger] field(w, i) == 0,
    ensures
        w >> ((2 * m) as u32) == 0,
    decreases 16 - m,
{
    assert(field(w, m) == 0);
    if m == 15 {
        assert(w >> 30u32 == 0) by (bit_vector)
            requires
                (w >> 30u32) & 3u32 == 0,
        ;
    } else {
        lemma_high_fields_zero(w, (m + 1) as u32);
        assert(w >> ((2 * m) as u32) == 0) by (bit_vector)
            requires
                m < 15,
                w >> ((2 * (m + 1)) as u32) == 0,
                (w >> ((2 * m) as u32)) & 3u32 == 0,
        ;
    }
}

/// Packing the trits unpacked from a word keeps each of the first `n` fields,
/// except that the unused code 0b10 becomes 0, and clears everything above
/// bit `2n`.
pub proof fn lemma_pack_of_unpacked(p: u32, n: nat, w: u32)
    requires
        n <= MAX_TRITS,
        packs(w, unpacked(p, n)),
    ensures
        forall|i: u32|
            (i as int) < n ==> #[trigger] field(w, i) == (if field(p, i) == 2 {
                0u32
            } else {
                field(p, i)
            }),
        forall|i: u32| n <= i < 16 ==> #[trigger] field(w, i) == 0,
        n < 16 ==> w >> ((2 * n) as u32) == 0,
{
    assert forall|i: u32| (i as int) < n implies #[trigger] field(w, i) == (if field(p, i) == 2 {
        0u32
    } else {
        field(p, i)
    }) by {
        assert(field(w, i) == trit_code(code_trit(field(p, i))));
        assert(field(p, i) < 4) by (bit_vector)
            requires
                field(p, i) == (p >> ((2 * i) as u32)) & 3u32,
        ;
    }
    assert forall|i: u32| n <= i < 16 implies #[trigger] field(w, i) == 0 by {}
    if n < 16 {
        lemma_high_fields_zero(w, n as u32);
    }
}

/// A trit vector has exactly one packed form.
pub proof fn lemma_packs_unique(s: Seq<i8>, w1: u32, w2: u32)
    requires
        packs(w1, s),
        packs(w2, s),
    ensures
        w1 == w2,
{
    assert forall|i: u32| i < 16 implies #[trigger] field(w1, i) == field(w2, i) by {}
    assert(field(w1, 0) == field(w2, 0));
    assert(field(w1, 1) == field(w2, 1));
    assert(field(w1, 2) == field(w2, 2));
    assert(field(w1, 3) == field(w2, 3));
    assert(field(w1, 4) == field(w2, 4));
    assert(field(w1, 5) == field(w2, 5));
    assert(field(w1, 6) == field(w2, 6));
    assert(field(w1, 7) == field(w2, 7));
    assert(field(w1, 8) == field(w2, 8));
    assert(field(w1, 9) == field(w2, 9));
    assert(field(w1, 10) == field(w2, 10));
    assert(field(w1, 11) == field(w2, 11));
    assert(field(w1, 12) == field(w2, 12));
    assert(field(w1, 13) == field(w2, 13));
    assert(field(w1, 14) == field(w2, 14));
    assert(field(w1, 15) == field(w2, 15));
    assert(w1 == w2) by (bit_vector)
        requires
            (w1 >> 0u32) & 3 == (w2 >> 0u32) & 3,
            (w1 >> 2u32) & 3 == (w2 >> 2u32) & 3,
            (w1 >> 4u32) & 3 == (w2 >> 4u32) & 3,
            (w1 >> 6u32) & 3 == (w2 >> 6u32) & 3,
            (w1 >> 8u32) & 3 == (w2 >> 8u32) & 3,
            (w1 >> 10u32) & 3 == (w2 >> 10u32) & 3,
            (w1 >> 12u32) & 3 == (w2 >> 12u32) & 3,
            (w1 >> 14u32) & 3 == (w2 >> 14u32) & 3,
            (w1 >> 16u32) & 3 == (w2 >> 16u32) & 3,
            (w1 >> 18u32) & 3 == (w2 >> 18u32) & 3,
            (w1 >> 20u32) & 3 == (w2 >> 20u32) & 3,
            (w1 >> 22u32) & 3 == (w2 >> 22u32) & 3,
            (w1 >> 24u32) & 3 == (w2 >> 24u32) & 3,
            (w1 >> 26u32) & 3 == (w2 >> 26u32) & 3,
            (w1 >> 28u32) & 3 == (w2 >> 28u32) & 3,
            (w1 >> 30u32) & 3 == (w2 >> 30u32) & 3,
    ;
}

/// A room of at most 8 sensors packs into the lower 16 bits (2 bytes) of the word.
pub proof fn lemma_eight_trits_fit_two_bytes(s: Seq<i8>, word: u32)
    requires
        s.len() <= 8,
        packs(word, s),
    ensures
        word < 0x1_0000,
{
    assert(field(word, 8) == 0);
    assert(field(word, 9) == 0);
    assert(field(word, 10) == 0);
    assert(field(word, 11) == 0);
    assert(field(word, 12) == 0);
    assert(field(word, 13) == 0);
    assert(field(word, 14) == 0);
    assert(field(word, 15) == 0);
    assert(word < 0x1_0000) by (bit_vector)
        requires
            (word >> 16u32) & 3 == 0,
            (word >> 18u32) & 3 == 0,
            (word >> 20u32) & 3 == 0,
            (word >> 22u32) & 3 == 0,
            (word >> 24u32) & 3 == 0,
            (word >> 26u32) & 3 == 0,
            (word >> 28u32) & 3 == 0,
            (word >> 30u32) & 3 == 0,
    ;
}

/// A room state is at Hamming distance 0 from itself.
pub proof fn lemma_hamming_self(a: Seq<i8>)
    ensures
        hamming(a, a) == 0,
{
    lemma_differing_self(a, a.len());
}

proof fn lemma_differing_self(a: Seq<i8>, n: nat)
    ensures
        differing_upto(a, a, n) == 0,
    decreases n,
{
    if n > 0 {
        lemma_differing_self(a, (n - 1) as nat);
    }
}

/// Hamming distance does not depend on the order of the two states.
pub proof fn lemma_hamming_symmetric(a: Seq<i8>, b: Seq<i8>)
    requires
        a.len() == b.len(),
    ensures
        hamming(a, b) == hamming(b, a),
{
    lemma_differing_symmetric(a, b, a.len());
}

proof fn lemma_differing_symmetric(a: Seq<i8>, b: Seq<i8>, n: nat)
    ensures
        differing_upto(a, b, n) == differing_upto(b, a, n),
    decreases n,
{
    if n > 0 {
        lemma_differing_symmetric(a, b, (n - 1) as nat);
    }
}

/// Two states of one length are at Hamming distance 0 exactly when they are equal.
pub proof fn lemma_hamming_zero_iff_equal(a: Seq<i8>, b: Seq<i8>)
    requires
        a.len() == b.len(),
    ensures
        (hamming(a, b) == 0) == (a == b),
{
    lemma_differing_zero(a, b, a.len());
    if hamming(a, b) == 0 {
        assert(a =~= b);
    } else {
        lemma_hamming_self(a);
    }
}

proof fn lemma_differing_zero(a: Seq<i8>, b: Seq<i8>, n: nat)
    ensures
        (differing_upto(a, b, n) == 0) == (forall|i: int| 0 <= i < n ==> a[i] == b[i]),
    decreases n,
{
    if n > 0 {
        lemma_differing_zero(a, b, (n - 1) as nat);
    }
}

proof fn lemma_dot_upto_prefix(a: Seq<i8>, b: Seq<i8>, a2: Seq<i8>, b2: Seq<i8>, n: nat)
    requires
        n <= a.len(),
        n <= b.len(),
        n <= a2.len(),
        n <= b2.len(),
        forall|i: int| 0 <= i < n ==> a[i] == a2[i] && b[i] == b2[i],
    ensures
        dot_upto(a, b, n) == dot_upto(a2, b2, n),
    decreases n,
{
    if n > 0 {
        lemma_dot_upto_prefix(a, b, a2, b2, (n - 1) as nat);
    }
}

/// The dot product adds one product per position: extending two states of one
/// length by `x` and `y` adds `x * y`.
pub proof fn lemma_dot_push(a: Seq<i8>, b: Seq<i8>, x: i8, y: i8)
    requires
        a.len() == b.len(),
    ensures
        dot(a.push(x), b.push(y)) == dot(a, b) + x * y,
{
    lemma_dot_upto_prefix(a.push(x), b.push(y), a, b, a.len());
}

/// The dot product of a trit vector with itself is its number of non-zero trits.
pub proof fn lemma_dot_self_counts_nonzero(a: Seq<i8>)
    requires
        forall|i: int| 0 <= i < a.len() ==> is_trit(#[trigger] a[i]),
    ensures
        dot(a, a) == a.len() - a.to_multiset().count(0),
    decreases a.len(),
{
    broadcast use vstd::seq_lib::group_to_multiset_ensures;
    broadcast use vstd::multiset::group_multiset_axioms;

    if a.len() == 0 {
        assert(a.to_multiset().len() == 0);
        if a.to_multiset().count(0) > 0 {
            assert(a.contains(0));
        }
    } else {
        let p = a.drop_last();
        let x = a.last();
        assert(is_trit(x));
        assert forall|i: int| 0 <= i < p.len() implies is_trit(#[trigger] p[i]) by {
            assert(p[i] == a[i]);
        }
        lemma_dot_self_counts_nonzero(p);
        assert(p.push(x) =~= a);
        lemma_dot_push(p, p, x, x);
        assert(x * x == (if x == 0 {
            0int
        } else {
            1int
        })) by (nonlinear_arith)
            requires
                x == -1 || x == 0 || x == 1,
        ;
    }
}

proof fn lemma_differing_prefix(a: Seq<i8>, b: Seq<i8>, a2: Seq<i8>, b2: Seq<i8>, n: nat)
    requires
        n <= a.len(),
        n <= b.len(),
        n <= a2.len(),
        n <= b2.len(),
        forall|i: int| 0 <= i < n ==> a[i] == a2[i] && b[i] == b2[i],
    ensures
        differing_upto(a, b, n) == differing_upto(a2, b2, n),
    decreases n,
{
    if n > 0 {
        lemma_differing_prefix(a, b, a2, b2, (n - 1) as nat);
    }
}

/// Hamming distance counts every position: extending two states of one length
/// by `x` and `y` adds one exactly when `x` and `y` differ.
pub proof fn lemma_hamming_push(a: Seq<i8>, b: Seq<i8>, x: i8, y: i8)
    requires
        a.len() == b.len(),
    ensures
        hamming(a.push(x), b.push(y)) == hamming(a, b) + (if x != y {
            1int
        } else {
            0int
        }),
{
    lemma_differing_prefix(a.push(x), b.push(y), a, b, a.len());
}

/// The codes of the packed form: a field is 0b11 exactly for -1, 0b01 exactly
/// for +1 and 0b00 exactly for 0.
pub proof fn lemma_packed_codes(w: u32, s: Seq<i8>)
    requires
        valid_trits(s),
        packs(w, s),
    ensures
        forall|i: u32|
            (i as int) < s.len() ==> {
                &&& (#[trigger] field(w, i) == 3u32) == (s[i as int] == -1)
                &&& (field(w, i) == 1u32) == (s[i as int] == 1)
                &&& (field(w, i) == 0u32) == (s[i as int] == 0)
            },
{
    assert forall|i: u32| (i as int) < s.len() implies {
        &&& (#[trigger] field(w, i) == 3u32) == (s[i as int] == -1)
        &&& (field(w, i) == 1u32) == (s[i as int] == 1)
        &&& (field(w, i) == 0u32) == (s[i as int] == 0)
    } by {
        assert(is_trit(s[i as int]));
        assert(i < 16);
    }
}

/// The dot product does not depend on the order of the two states.
pub proof fn lemma_dot_symmetric(a: Seq<i8>, b: Seq<i8>)
    requires
        a.len() == b.len(),
    ensures
        dot(a, b) == dot(b, a),
{
    lemma_dot_upto_symmetric(a, b, a.len());
}

proof fn lemma_dot_upto_symmetric(a: Seq<i8>, b: Seq<i8>, n: nat)
    ensures
        dot_upto(a, b, n) == dot_upto(b, a, n),
    decreases n,
{
    if n > 0 {
        lemma_dot_upto_symmetric(a, b, (n - 1) as nat);
        assert(a[n - 1] * b[n - 1] == b[n - 1] * a[n - 1]) by (nonlinear_arith);
    }
}

/// An entire room's sensor state as a ternary vector.
#[derive(Debug)]
pub struct TernaryRoomState {
    trits: Vec<i8>,
}

impl View for TernaryRoomState {
    type V = Seq<i8>;

    closed spec fn view(&self) -> Seq<i8> {
        self.trits@
    }
}

impl TernaryRoomState {
    /// Every room state holds at most `MAX_TRITS` values, each a trit.
    #[verifier::type_invariant]
    pub open spec fn well_formed(&self) -> bool {
        valid_trits(self@)
    }

    /// Create from a vector of trit values.
    pub fn new(trits: Vec<i8>) -> (state: Self)
        requires
            valid_trits(trits@),
        ensures
            state@ == trits@,
    {
        TernaryRoomState { trits }
    }

    /// Access the trit values.
    pub fn trits(&self) -> (trits: &[i8])
        ensures
            trits@ == self@,
            valid_trits(self@),
    {
        proof {
            use_type_invariant(self);
        }
        self.trits.as_slice()
    }

    /// Number of trits.
    pub fn len(&self) -> (n: usize)
        ensures
            n == self@.len(),
            n <= MAX_TRITS,
    {
        proof {
            use_type_invariant(self);
        }
        self.trits.len()
    }

    /// Whether the state has no trits.
    pub fn is_empty(&self) -> (empty: bool)
        ensures
            empty == (self@.len() == 0),
    {
        self.trits.len() == 0
    }

    /// Count of positions at which the two room states differ.
    pub fn hamming_distance(&self, other: &TernaryRoomState) -> (d: usize)
        requires
            self@.len() == other@.len(),
        ensures
            d == hamming(self@, other@),
            d <= self@.len(),
    {
        let n: usize = self.trits.len();
        let mut d: usize = 0;
        let mut i: usize = 0;
        while i < n
            invariant
                n == self@.len(),
                n == other@.len(),
                i <= n,
                d == differing_upto(self@, other@, i as nat),
                d <= i,
            decreases n - i,
        {
            if self.trits[i] != other.trits[i] {
                d = d + 1;
            }
            i = i + 1;
        }
        d
    }

    /// Ternary dot product (sum of `a_i * b_i`), a value in `[-N, +N]`.
    pub fn dot_product(&self, other: &TernaryRoomState) -> (p: i32)
        requires
            self@.len() == other@.len(),
        ensures
            p == dot(self@, other@),
            -(self@.len() as int) <= p <= self@.len(),
    {
        proof {
            use_type_invariant(self);
            use_type_invariant(other);
        }
        let n: usize = self.trits.len();
        let mut p: i32 = 0;
        let mut i: usize = 0;
        while i < n
            invariant
                n == self@.len(),
                n == other@.len(),
                n <= MAX_TRITS,
                valid_trits(self@),
                valid_trits(other@),
                i <= n,
                p == dot_upto(self@, other@, i as nat),
                -(i as int) <= p <= i,
            decreases n - i,
        {
            let a: i8 = self.trits[i];
            let b: i8 = other.trits[i];
            assert(is_trit(self@[i as int]) && is_trit(other@[i as int]));
            assert(-1 <= a * b <= 1) by (nonlinear_arith)
                requires
                    -1 <= a <= 1,
                    -1 <= b <= 1,
            ;
            p = p + (a as i32) * (b as i32);
            i = i + 1;
        }
        p
    }

    /// The state written as `{-1,0,+1,0}`.
    pub fn to_string(&self) -> (text: String)
        ensures
            text@ == state_text(self@),
    {
        let n: usize = self.trits.len();
        let mut text: String = String::new();
        proof {
            reveal_strlit("{");
        }
        text.append("{");
        let mut i: usize = 0;
        while i < n
            invariant
                n == self@.len(),
                i <= n,
                text@ == seq!['{'] + trits_text(self@.take(i as int)),
            decreases n - i,
        {
            if i > 0 {
                proof {
                    reveal_strlit(",");
                }
                text.append(",");
            }
            let t: i8 = self.trits[i];
            proof {
                reveal_strlit("-1");
                reveal_strlit("0");
                reveal_strlit("+1");
                reveal_strlit("?");
            }
            if t == -1 {
                text.append("-1");
            } else if t == 0 {
                text.append("0");
            } else if t == 1 {
                text.append("+1");
            } else {
                text.append("?");
            }
            proof {
                let s = self@.take(i + 1);
                assert(s.drop_last() =~= self@.take(i as int));
                assert(s.last() == t);
                if i == 0 {
                    assert(trits_text(self@.take(i as int)) =~= seq![]);
                    assert(text@ =~= seq!['{'] + trits_text(s));
                } else {
                    assert(text@ =~= seq!['{'] + trits_text(s));
                }
            }
            i = i + 1;
        }
        proof {
            reveal_strlit("}");
            assert(self@.take(n as int) =~= self@);
        }
        text.append("}");
        text
    }

    /// Pack into a `u32`: 2 bits per trit, trit `i` in bits `2i` and `2i + 1`.
    pub fn pack(&self) -> (packed: u32)
        ensures
            packs(packed, self@),
    {
        proof {
            use_type_invariant(self);
        }
        let n: usize = self.trits.len();
        let mut packed: u32 = 0;
        let mut i: usize = 0;
        assert forall|j: u32| j < 16 implies #[trigger] field(0u32, j) == 0u32 by {
            assert((0u32 >> ((2 * j) as u32)) & 3u32 == 0u32) by (bit_vector);
        }
        while i < n
            invariant
                n == self.trits@.len(),
                valid_trits(self.trits@),
                i <= n,
                forall|j: u32|
                    j < 16 ==> #[trigger] field(packed, j) == (if (j as int) < (i as int) {
                        trit_code(self.trits@[j as int])
                    } else {
                        0u32
                    }),
            decreases n - i,
        {
            let t: i8 = self.trits[i];
            assert(is_trit(self.trits@[i as int]));
            let bits: u32 = if t == -1 {
                3
            } else if t == 1 {
                1
            } else {
                0
            };
            let k: u32 = i as u32;
            proof {
                assert(field(packed, k) == 0u32);
                lemma_or_into_field(packed, bits, k);
            }
            packed = packed | (bits << (k * 2));
            assert((k * 2) as u32 == (2 * k) as u32);
            i = i + 1;
        }
        packed
    }

    /// Unpack the first `count` trits of a packed word.
    pub fn unpack(packed: u32, count: usize) -> (state: Self)
        requires
            count <= MAX_TRITS,
        ensures
            state@ == unpacked(packed, count as nat),
    {
        let mut trits: Vec<i8> = Vec::with_capacity(count);
        let mut i: usize = 0;
        while i < count
            invariant
                i <= count,
                count <= MAX_TRITS,
                trits@ == unpacked(packed, i as nat),
            decreases count - i,
        {
            let k: u32 = i as u32;
            let bits: u32 = (packed >> (k * 2)) & 0b11;
            assert(bits == field(packed, k));
            let t: i8 = if bits == 0 {
                0
            } else if bits == 1 {
                1
            } else if bits == 3 {
                -1
            } else {
                0
            };
            trits.push(t);
            i = i + 1;
            assert(trits@ =~= unpacked(packed, i as nat));
        }
        proof {
            assert forall|j: int| 0 <= j < trits@.len() implies is_trit(#[trigger] trits@[j]) by {}
        }
        TernaryRoomState { trits }
    }
}

impl Clone for TernaryRoomState {
    fn clone(&self) -> (copy: Self)
        ensures
            copy@ == self@,
    {
        proof {
            use_type_invariant(self);
        }
        TernaryRoomState { trits: vstd::slice::slice_to_vec(self.trits.as_slice()) }
    }
}

impl PartialEq for TernaryRoomState {
    fn eq(&self, other: &Self) -> (same: bool) {
        let n: usize = self.trits.len();
        if n != other.trits.len() {
            return false;
        }
        let mut i: usize = 0;
        while i < n
            invariant
                n == self@.len(),
                n == other@.len(),
                i <= n,
                forall|j: int| 0 <= j < i ==> self@[j] == other@[j],
            decreases n - i,
        {
            if self.trits[i] != other.trits[i] {
                return false;
            }
            i = i + 1;
        }
        assert(self@ =~= other@);
        true
    }
}

impl PartialEqSpecImpl for TernaryRoomState {
    open spec fn obeys_eq_spec() -> bool {
        true
    }

    open spec fn eq_spec(&self, other: &Self) -> bool {
        self@ == other@
    }
}

impl Eq for TernaryRoomState {

}

} // verus!
