//! Alarm evaluation over a room's ternary state: a non-zero trit is an alarm
//! condition, and its sign is the direction of the anomaly.

use vstd::prelude::*;

use crate::room_state::{is_trit, valid_trits, TernaryRoomState};

verus! {

/// Priority level based on alarm count.
#[derive(Debug, Clone, Copy, PartialEq, Eq, PartialOrd, Ord, Structural)]
pub enum AlarmPriority {
    /// No alarms (all trits zero).
    NoAlarm,
    /// 1-2 non-zero trits (low severity).
    Low,
    /// 3-4 non-zero trits (medium severity).
    Medium,
    /// 5+ non-zero trits (high severity).
    High,
}

/// The priority that goes with a number of alarmed sensors.
pub open spec fn priority_for(count: nat) -> AlarmPriority {
    if count == 0 {
        AlarmPriority::NoAlarm
    } else if count <= 2 {
        AlarmPriority::Low
    } else if count <= 4 {
        AlarmPriority::Medium
    } else {
        AlarmPriority::High
    }
}

/// The rank of a priority level, from `NoAlarm` (0) to `High` (3).
pub open spec fn priority_level(p: AlarmPriority) -> nat {
    match p {
        AlarmPriority::NoAlarm => 0,
        AlarmPriority::Low => 1,
        AlarmPriority::Medium => 2,
        AlarmPriority::High => 3,
    }
}

/// More alarmed sensors never lower the priority, and the priority is
/// `NoAlarm` exactly when no sensor is alarmed.
pub proof fn lemma_priority_monotone(a: nat, b: nat)
    ensures
        a <= b ==> priority_level(priority_for(a)) <= priority_level(priority_for(b)),
        (priority_for(a) == AlarmPriority::NoAlarm) == (a == 0),
{
}

/// The priority table: no alarmed sensor is `NoAlarm`, 1-2 are `Low`, 3-4
/// are `Medium`, and 5 or more are `High`.
pub proof fn lemma_priority_table(count: nat)
    ensures
        count == 0 ==> priority_for(count) == AlarmPriority::NoAlarm,
        1 <= count <= 2 ==> priority_for(count) == AlarmPriority::Low,
        3 <= count <= 4 ==> priority_for(count) == AlarmPriority::Medium,
        count >= 5 ==> priority_for(count) == AlarmPriority::High,
{
}

/// Positions of the non-zero trits of `s`, in increasing order.
pub open spec fn nonzero_indices(s: Seq<i8>) -> Seq<usize>
    decreases s.len(),
{
    if s.len() == 0 {
        seq![]
    } else if s.last() != 0 {
        nonzero_indices(s.drop_last()).push((s.len() - 1) as usize)
    } else {
        nonzero_indices(s.drop_last())
    }
}

/// The non-zero trits of `s`, in order.
pub open spec fn alarm_values(s: Seq<i8>) -> Seq<i8> {
    nonzero_indices(s).map_values(|i: usize| s[i as int])
}

/// The indices listed by `nonzero_indices` are exactly the positions of the
/// non-zero trits, each listed once and in increasing order.
pub proof fn lemma_nonzero_indices(s: Seq<i8>)
    requires
        s.len() <= usize::MAX,
    ensures
        nonzero_indices(s).len() <= s.len(),
        forall|k: int|
            0 <= k < nonzero_indices(s).len() ==> {
                &&& (#[trigger] nonzero_indices(s)[k]) < s.len()
                &&& s[nonzero_indices(s)[k] as int] != 0
            },
        forall|k: int, l: int|
            0 <= k < l < nonzero_indices(s).len() ==> #[trigger] nonzero_indices(s)[k]
                < #[trigger] nonzero_indices(s)[l],
        forall|i: int| 0 <= i < s.len() && s[i] != 0 ==> nonzero_indices(s).contains(i as usize),
    decreases s.len(),
{
    if s.len() > 0 {
        let p = s.drop_last();
        lemma_nonzero_indices(p);
        if s.last() != 0 {
            let q = nonzero_indices(p).push((s.len() - 1) as usize);
            assert(nonzero_indices(s) == q);
            assert forall|i: int| 0 <= i < s.len() && s[i] != 0 implies q.contains(i as usize) by {
                if i == s.len() - 1 {
                    assert(q[q.len() - 1] == i as usize);
                } else {
                    assert(p[i] == s[i]);
                    let k = choose|k: int| 0 <= k < nonzero_indices(p).len() && nonzero_indices(p)[k] == i as usize;
                    assert(q[k] == i as usize);
                }
            }
        } else {
            assert forall|i: int| 0 <= i < s.len() && s[i] != 0 implies nonzero_indices(s).contains(
                i as usize,
            ) by {
                assert(p[i] == s[i]);
            }
        }
    }
}

/// A position is listed among the alarmed positions exactly when its trit is non-zero.
pub proof fn lemma_alarmed_iff_nonzero(s: Seq<i8>, i: usize)
    requires
        s.len() <= usize::MAX,
    ensures
        nonzero_indices(s).contains(i) == ((i as int) < s.len() && s[i as int] != 0),
{
    lemma_nonzero_indices(s);
    if nonzero_indices(s).contains(i) {
        let k = choose|k: int| 0 <= k < nonzero_indices(s).len() && nonzero_indices(s)[k] == i;
        assert(nonzero_indices(s)[k] < s.len());
    }
}

/// The character of a decimal digit.
pub open spec fn digit_char(d: nat) -> char {
    if d == 0 {
        '0'
    } else if d == 1 {
        '1'
    } else if d == 2 {
        '2'
    } else if d == 3 {
        '3'
    } else if d == 4 {
        '4'
    } else if d == 5 {
        '5'
    } else if d == 6 {
        '6'
    } else if d == 7 {
        '7'
    } else if d == 8 {
        '8'
    } else {
        '9'
    }
}

/// A natural number written in decimal.
pub open spec fn decimal_text(n: nat) -> Seq<char>
    decreases n,
{
    if n < 10 {
        seq![digit_char(n)]
    } else {
        decimal_text(n / 10).push(digit_char(n % 10))
    }
}

/// An `i8` written in decimal, with a leading `-` when negative.
pub open spec fn signed_text(v: i8) -> Seq<char> {
    if v < 0 {
        seq!['-'] + decimal_text((-v) as nat)
    } else {
        decimal_text(v as nat)
    }
}

/// The name of a priority level.
pub open spec fn priority_text(p: AlarmPriority) -> Seq<char> {
    match p {
        AlarmPriority::NoAlarm => seq!['N', 'o', 'A', 'l', 'a', 'r', 'm'],
        AlarmPriority::Low => seq!['L', 'o', 'w'],
        AlarmPriority::Medium => seq!['M', 'e', 'd', 'i', 'u', 'm'],
        AlarmPriority::High => seq!['H', 'i', 'g', 'h'],
    }
}

/// One alarmed sensor written as `index:+1` or `index:-1`.
pub open spec fn alarm_entry_text(s: Seq<i8>, i: usize) -> Seq<char> {
    decimal_text(i as nat) + seq![':'] + (if s[i as int] == 1 {
        seq!['+', '1']
    } else {
        seq!['-', '1']
    })
}

/// The alarmed sensors at `idx`, written one after another and separated by commas.
pub open spec fn alarm_entries_text(s: Seq<i8>, idx: Seq<usize>) -> Seq<char>
    decreases idx.len(),
{
    if idx.len() == 0 {
        seq![]
    } else if idx.len() == 1 {
        alarm_entry_text(s, idx[0])
    } else {
        alarm_entries_text(s, idx.drop_last()) + seq![','] + alarm_entry_text(s, idx.last())
    }
}

/// Values separated by `, `.
pub open spec fn values_text(v: Seq<i8>) -> Seq<char>
    decreases v.len(),
{
    if v.len() == 0 {
        seq![]
    } else if v.len() == 1 {
        signed_text(v[0])
    } else {
        values_text(v.drop_last()) + seq![',', ' '] + signed_text(v.last())
    }
}

/// How an alarm is written: `OK` when nothing is alarmed, otherwise
/// `ALARM <priority> [<index>:<sign>1,...] [<value>, ...]`.
pub open spec fn alarm_text(s: Seq<i8>) -> Seq<char> {
    if nonzero_indices(s).len() == 0 {
        seq!['O', 'K']
    } else {
        seq!['A', 'L', 'A', 'R', 'M', ' '] + priority_text(priority_for(nonzero_indices(s).len()))
            + seq![' ', '['] + alarm_entries_text(s, nonzero_indices(s)) + seq![']', ' ', '[']
            + values_text(alarm_values(s)) + seq![']']
    }
}

fn append_digit(text: &mut String, d: usize)
    requires
        d < 10,
    ensures
        final(text)@ == old(text)@ + seq![digit_char(d as nat)],
{
    proof {
        reveal_strlit("0");
        reveal_strlit("1");
        reveal_strlit("2");
        reveal_strlit("3");
        reveal_strlit("4");
        reveal_strlit("5");
        reveal_strlit("6");
        reveal_strlit("7");
        reveal_strlit("8");
        reveal_strlit("9");
    }
    if d == 0 {
        text.append("0");
    } else if d == 1 {
        text.append("1");
    } else if d == 2 {
        text.append("2");
    } else if d == 3 {
        text.append("3");
    } else if d == 4 {
        text.append("4");
    } else if d == 5 {
        text.append("5");
    } else if d == 6 {
        text.append("6");
    } else if d == 7 {
        text.append("7");
    } else if d == 8 {
        text.append("8");
    } else {
        text.append("9");
    }
}

fn append_decimal(text: &mut String, n: usize)
    ensures
        final(text)@ == old(text)@ + decimal_text(n as nat),
    decreases n,
{
    if n >= 10 {
        append_decimal(text, n / 10);
    }
    append_digit(text, n % 10);
    proof {
        if n >= 10 {
            assert(decimal_text(n as nat) == decimal_text((n / 10) as nat).push(digit_char((n % 10) as nat)));
        }
    }
    assert(text@ =~= old(text)@ + decimal_text(n as nat));
}

fn append_signed(text: &mut String, v: i8)
    ensures
        final(text)@ == old(text)@ + signed_text(v),
{
    if v < 0 {
        proof {
            reveal_strlit("-");
        }
        text.append("-");
        let magnitude: usize = (0i16 - (v as i16)) as usize;
        append_decimal(text, magnitude);
    } else {
        append_decimal(text, v as usize);
    }
    assert(text@ =~= old(text)@ + signed_text(v));
}

/// An alarm derived from ternary room state.
#[derive(Debug)]
pub struct TernaryAlarm {
    /// The room state that triggered this alarm.
    state: TernaryRoomState,
    /// Indices of sensors with non-zero trits.
    alarmed_indices: Vec<usize>,
    /// Priority based on alarm count.
    priority: AlarmPriority,
}

impl View for TernaryAlarm {
    type V = Seq<i8>;

    /// An alarm is determined by the trits of the room state it was evaluated on.
    closed spec fn view(&self) -> Seq<i8> {
        self.state@
    }
}

impl AlarmPriority {
    fn from_count(count: usize) -> (p: Self)
        ensures
            p == priority_for(count as nat),
    {
        if count == 0 {
            AlarmPriority::NoAlarm
        } else if count <= 2 {
            AlarmPriority::Low
        } else if count <= 4 {
            AlarmPriority::Medium
        } else {
            AlarmPriority::High
        }
    }
}

impl TernaryAlarm {
    #[verifier::type_invariant]
    closed spec fn well_formed(&self) -> bool {
        &&& valid_trits(self.state@)
        &&& self.alarmed_indices@ == nonzero_indices(self.state@)
        &&& self.priority == priority_for(self.alarmed_indices@.len())
    }

    /// Evaluate a room state and produce an alarm.
    pub fn evaluate(state: TernaryRoomState) -> (alarm: Self)
        ensures
            alarm@ == state@,
    {
        let n: usize = state.len();
        let mut alarmed_indices: Vec<usize> = Vec::new();
        let mut i: usize = 0;
        {
            let trits: &[i8] = state.trits();
            while i < n
                invariant
                    n == state@.len(),
                    trits@ == state@,
                    i <= n,
                    alarmed_indices@ == nonzero_indices(state@.take(i as int)),
                decreases n - i,
            {
                proof {
                    let s = state@.take(i + 1);
                    assert(s.drop_last() =~= state@.take(i as int));
                }
                if trits[i] != 0 {
                    alarmed_indices.push(i);
                }
                i = i + 1;
            }
        }
        proof {
            assert(state@.take(n as int) =~= state@);
        }
        let priority: AlarmPriority = AlarmPriority::from_count(alarmed_indices.len());
        TernaryAlarm { state, alarmed_indices, priority }
    }

    /// Whether any alarm is active.
    pub fn is_alarm(&self) -> (active: bool)
        ensures
            active == (nonzero_indices(self@).len() > 0),
    {
        proof {
            use_type_invariant(self);
        }
        self.alarmed_indices.len() != 0
    }

    /// Number of alarmed sensors.
    pub fn alarm_count(&self) -> (count: usize)
        ensures
            count == nonzero_indices(self@).len(),
    {
        proof {
            use_type_invariant(self);
        }
        self.alarmed_indices.len()
    }

    /// The alarm priority.
    pub fn priority(&self) -> (p: AlarmPriority)
        ensures
            p == priority_for(nonzero_indices(self@).len()),
    {
        proof {
            use_type_invariant(self);
        }
        self.priority
    }

    /// The alarmed sensor indices, in increasing order.
    pub fn alarmed_indices(&self) -> (indices: &[usize])
        ensures
            indices@ == nonzero_indices(self@),
    {
        proof {
            use_type_invariant(self);
        }
        self.alarmed_indices.as_slice()
    }

    /// The trit value of an alarmed sensor; `None` for a sensor that is not alarmed.
    pub fn severity_at(&self, index: usize) -> (severity: Option<i8>)
        ensures
            severity == (if (index as int) < self@.len() && self@[index as int] != 0 {
                Some(self@[index as int])
            } else {
                None
            }),
    {
        proof {
            use_type_invariant(self);
            lemma_alarmed_iff_nonzero(self@, index);
        }
        let n: usize = self.alarmed_indices.len();
        let mut i: usize = 0;
        let mut found: bool = false;
        while i < n
            invariant
                n == self.alarmed_indices@.len(),
                i <= n,
                found == self.alarmed_indices@.take(i as int).contains(index),
            decreases n - i,
        {
            proof {
                let t = self.alarmed_indices@.take(i + 1);
                assert(t.drop_last() =~= self.alarmed_indices@.take(i as int));
                assert(t.contains(index) == (t.drop_last().contains(index) || t.last() == index)) by {
                    if t.contains(index) {
                        let k = choose|k: int| 0 <= k < t.len() && t[k] == index;
                        if k < t.len() - 1 {
                            assert(t.drop_last()[k] == index);
                        }
                    }
                    if t.drop_last().contains(index) {
                        let k = choose|k: int| 0 <= k < t.drop_last().len() && t.drop_last()[k] == index;
                        assert(t[k] == index);
                    }
                }
            }
            if self.alarmed_indices[i] == index {
                found = true;
            }
            i = i + 1;
        }
        proof {
            assert(self.alarmed_indices@.take(n as int) =~= self.alarmed_indices@);
        }
        if found {
            Some(self.state.trits()[index])
        } else {
            None
        }
    }

    /// The alarm written as text: `OK`, or `ALARM Low [0:+1,2:-1] [1, -1]`.
    pub fn to_string(&self) -> (text: String)
        ensures
            text@ == alarm_text(self@),
    {
        proof {
            use_type_invariant(self);
            lemma_nonzero_indices(self@);
        }
        let mut text: String = String::new();
        let n: usize = self.alarmed_indices.len();
        if n == 0 {
            proof {
                reveal_strlit("OK");
            }
            text.append("OK");
            return text;
        }
        proof {
            reveal_strlit("ALARM ");
            reveal_strlit("NoAlarm");
            reveal_strlit("Low");
            reveal_strlit("Medium");
            reveal_strlit("High");
            reveal_strlit(" [");
        }
        text.append("ALARM ");
        match self.priority {
            AlarmPriority::NoAlarm => text.append("NoAlarm"),
            AlarmPriority::Low => text.append("Low"),
            AlarmPriority::Medium => text.append("Medium"),
            AlarmPriority::High => text.append("High"),
        }
        text.append(" [");
        let ghost head = text@;
        let trits: &[i8] = self.state.trits();
        let ghost idx = self.alarmed_indices@;
        let mut i: usize = 0;
        while i < n
            invariant
                n == idx.len(),
                idx == self.alarmed_indices@,
                idx == nonzero_indices(self@),
                trits@ == self@,
                forall|k: int|
                    0 <= k < nonzero_indices(self@).len() ==> {
                        &&& (#[trigger] nonzero_indices(self@)[k]) < self@.len()
                        &&& self@[nonzero_indices(self@)[k] as int] != 0
                    },
                i <= n,
                text@ == head + alarm_entries_text(self@, idx.take(i as int)),
            decreases n - i,
        {
            if i > 0 {
                proof {
                    reveal_strlit(",");
                }
                text.append(",");
            }
            let pos: usize = self.alarmed_indices[i];
            append_decimal(&mut text, pos);
            proof {
                reveal_strlit(":");
                reveal_strlit("+1");
                reveal_strlit("-1");
            }
            text.append(":");
            if trits[pos] == 1 {
                text.append("+1");
            } else {
                text.append("-1");
            }
            proof {
                let t = idx.take(i + 1);
                assert(t.drop_last() =~= idx.take(i as int));
                assert(t.last() == pos);
                if i == 0 {
                    assert(alarm_entries_text(self@, idx.take(i as int)) =~= seq![]);
                    assert(text@ =~= head + alarm_entries_text(self@, t));
                } else {
                    assert(text@ =~= head + alarm_entries_text(self@, t));
                }
            }
            i = i + 1;
        }
        proof {
            assert(idx.take(n as int) =~= idx);
            reveal_strlit("] [");
        }
        text.append("] [");
        let ghost middle = text@;
        let values: Vec<i8> = self.alarm_vector();
        let m: usize = values.len();
        let mut j: usize = 0;
        while j < m
            invariant
                m == values@.len(),
                j <= m,
                text@ == middle + values_text(values@.take(j as int)),
            decreases m - j,
        {
            if j > 0 {
                proof {
                    reveal_strlit(", ");
                }
                text.append(", ");
            }
            append_signed(&mut text, values[j]);
            proof {
                let t = values@.take(j + 1);
                assert(t.drop_last() =~= values@.take(j as int));
                if j == 0 {
                    assert(values_text(values@.take(j as int)) =~= seq![]);
                    assert(text@ =~= middle + values_text(t));
                } else {
                    assert(text@ =~= middle + values_text(t));
                }
            }
            j = j + 1;
        }
        proof {
            assert(values@.take(m as int) =~= values@);
            reveal_strlit("]");
        }
        text.append("]");
        assert(text@ =~= alarm_text(self@));
        text
    }

    /// The underlying room state.
    pub fn state(&self) -> (state: &TernaryRoomState)
        ensures
            state@ == self@,
    {
        &self.state
    }

    /// The alarm vector: the trit values of all alarmed sensors, in sensor order.
    pub fn alarm_vector(&self) -> (values: Vec<i8>)
        ensures
            values@ == alarm_values(self@),
            forall|k: int| 0 <= k < values@.len() ==> #[trigger] values@[k] == 1 || values@[k] == -1,
    {
        proof {
            use_type_invariant(self);
            lemma_nonzero_indices(self@);
        }
        let trits: &[i8] = self.state.trits();
        let n: usize = self.alarmed_indices.len();
        let mut values: Vec<i8> = Vec::new();
        let mut i: usize = 0;
        while i < n
            invariant
                n == self.alarmed_indices@.len(),
                self.alarmed_indices@ == nonzero_indices(self@),
                trits@ == self@,
                valid_trits(self@),
                forall|k: int|
                    0 <= k < nonzero_indices(self@).len() ==> {
                        &&& (#[trigger] nonzero_indices(self@)[k]) < self@.len()
                        &&& self@[nonzero_indices(self@)[k] as int] != 0
                    },
                i <= n,
                values@ == alarm_values(self@).take(i as int),
            decreases n - i,
        {
            let idx: usize = self.alarmed_indices[i];
            assert(idx < trits@.len());
            values.push(trits[idx]);
            i = i + 1;
            assert(values@ =~= alarm_values(self@).take(i as int));
        }
        proof {
            assert(values@ =~= alarm_values(self@));
            assert forall|k: int| 0 <= k < values@.len() implies #[trigger] values@[k] == 1 || values@[k] == -1 by {
                assert(is_trit(self@[nonzero_indices(self@)[k] as int]));
            }
        }
        values
    }
}

impl Clone for TernaryAlarm {
    fn clone(&self) -> (copy: Self)
        ensures
            copy@ == self@,
    {
        proof {
            use_type_invariant(self);
        }
        TernaryAlarm {
            state: self.state.clone(),
            alarmed_indices: vstd::slice::slice_to_vec(self.alarmed_indices.as_slice()),
            priority: self.priority,
        }
    }
}

} // verus!
