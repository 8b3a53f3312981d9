//! Decoding of program text into a transition table, and of tape text into
//! an initial tape.
//!
//! A program is a string of `0` and `1`. It is split into records on the
//! two-character separator `11`; each record encodes one transition as five
//! fields in unary: a run of zeros for the source state, a `1`, a run of
//! zeros for the symbol read, a `1`, a run of zeros for the target state, a
//! `1`, a run of zeros for the symbol written, a `1`, and a run of one zero
//! (left) or two zeros (right) for the direction. A field's value is the
//! length of its run. A record that does not have exactly this shape is a
//! fatal decode error; in particular an empty record, such as the one a
//! trailing separator leaves behind, is rejected. No whitespace is tolerated
//! anywhere.
//!
//! A tape text is a string of decimal digits; the digit `d` stands for the
//! symbol `d + 1`.

use vstd::prelude::*;

use crate::table::MoveDir;
use crate::table::Symbol;
use crate::table::TableModel;
use crate::table::TransTable;
use crate::table::TransitionKey;
use crate::table::TransitionStep;
use crate::table::key_model;
use crate::table::step_model;

verus! {

/// A record and its position among the split records of a program text that
/// failed to decode.
#[derive(Clone, Copy, Debug, PartialEq, Eq, Structural)]
pub struct DecodeError {
    /// The position, counted from zero, of the first malformed record.
    pub record_index: usize,
}

/// A character and its position in a tape text that is not a decimal digit.
#[derive(Clone, Copy, Debug, PartialEq, Eq, Structural)]
pub struct TapeError {
    /// The position, counted from zero, of the first non-digit character.
    pub index: usize,
}

/// The length of the run of `0` characters starting at `from`.
pub open spec fn zeros_run(s: Seq<char>, from: int) -> nat
    decreases s.len() - from,
{
    if from < 0 || from >= s.len() || s[from] != '0' {
        0
    } else {
        zeros_run(s, from + 1) + 1
    }
}

/// The transition a record encodes, or nothing when the record does not
/// have the five-field unary shape.
pub open spec fn record_tr(rec: Seq<char>) -> Option<((nat, nat), (nat, nat, MoveDir))> {
    let a = zeros_run(rec, 0);
    let b = zeros_run(rec, a as int + 1);
    let c = zeros_run(rec, a as int + b + 2);
    let d = zeros_run(rec, a as int + b + c + 3);
    let e = zeros_run(rec, a as int + b + c + d + 4);
    if 1 <= a && a < rec.len() && rec[a as int] == '1'
        && 1 <= b && a + b + 1 < rec.len() && rec[a as int + b + 1] == '1'
        && 1 <= c && a + b + c + 2 < rec.len() && rec[a as int + b + c + 2] == '1'
        && 1 <= d && a + b + c + d + 3 < rec.len() && rec[a as int + b + c + d + 3] == '1'
        && (e == 1 || e == 2) && a + b + c + d + e + 4 == rec.len() {
        Some(((a, b), (c, d, if e == 1 { MoveDir::Left } else { MoveDir::Right })))
    } else {
        None
    }
}

/// The position of the leftmost separator `11` at or after `from`, if any.
pub open spec fn first_sep_from(s: Seq<char>, from: int) -> Option<nat>
    decreases s.len() - from,
{
    if from < 0 || from + 2 > s.len() {
        None
    } else if s[from] == '1' && s[from + 1] == '1' {
        Some(from as nat)
    } else {
        first_sep_from(s, from + 1)
    }
}

/// The position of the leftmost separator `11`, if any.
pub open spec fn first_sep(s: Seq<char>) -> Option<nat> {
    first_sep_from(s, 0)
}

/// The records of a program text: the pieces between consecutive
/// separators, leftmost separator first, as `split` on `11` yields them.
pub open spec fn split_records(s: Seq<char>) -> Seq<Seq<char>>
    decreases s.len(),
{
    match first_sep(s) {
        None => seq![s],
        Some(i) => if i + 2 <= s.len() {
            seq![s.take(i as int)] + split_records(s.skip(i as int + 2))
        } else {
            seq![s]
        },
    }
}

/// Whether every record encodes a transition.
pub open spec fn records_ok(recs: Seq<Seq<char>>) -> bool {
    forall|i: int| 0 <= i < recs.len() ==> record_tr(#[trigger] recs[i]) is Some
}

/// The table a sequence of records folds into, a later record silently
/// overwriting an earlier one with the same key.
pub open spec fn table_of(recs: Seq<Seq<char>>) -> TableModel
    decreases recs.len(),
{
    if recs.len() == 0 {
        Map::empty()
    } else {
        match record_tr(recs.last()) {
            Some((k, st)) => table_of(recs.drop_last()).insert(k, st),
            None => table_of(recs.drop_last()),
        }
    }
}

/// The length of the run of `0` characters in `s` starting at `i`.
fn zeros_from(s: &str, n: usize, i: usize) -> (r: usize)
    requires
        n == s@.len(),
        i <= n,
    ensures
        r == zeros_run(s@, i as int),
        i + r <= n,
{
    let mut j: usize = i;
    while j < n
        invariant
            n == s@.len(),
            i <= j <= n,
            zeros_run(s@, i as int) == (j - i) + zeros_run(s@, j as int),
        decreases n - j,
    {
        let c = s.get_char(j);
        if c != '0' {
            return j - i;
        }
        j = j + 1;
    }
    j - i
}

/// Parses one record into its key and action, or nothing when the record
/// does not have the five-field unary shape.
pub fn parse_transition(rec: &str) -> (r: Option<(TransitionKey, TransitionStep)>)
    ensures
        ({
            let m = record_tr(rec@);
            match r {
                Some(p) => m == Some((key_model(p.0), step_model(p.1))),
                None => m is None,
            }
        }),
{
    let n = rec.unicode_len();
    let a = zeros_from(rec, n, 0);
    if a < 1 || a >= n || rec.get_char(a) != '1' {
        return None;
    }
    let b = zeros_from(rec, n, a + 1);
    if b < 1 || a + 1 + b >= n || rec.get_char(a + 1 + b) != '1' {
        return None;
    }
    let c = zeros_from(rec, n, a + b + 2);
    if c < 1 || a + b + 2 + c >= n || rec.get_char(a + b + 2 + c) != '1' {
        return None;
    }
    let d = zeros_from(rec, n, a + b + c + 3);
    if d < 1 || a + b + c + 3 + d >= n || rec.get_char(a + b + c + 3 + d) != '1' {
        return None;
    }
    let e = zeros_from(rec, n, a + b + c + d + 4);
    match MoveDir::from_zero_run(e) {
        Some(dir) => {
            if a + b + c + d + 4 + e == n {
                Some(((a, b), (c, d, dir)))
            } else {
                None
            }
        },
        None => None,
    }
}

/// The position of the leftmost separator `11` in `s`, if any.
fn find_sep(s: &str, n: usize) -> (r: Option<usize>)
    requires
        n == s@.len(),
    ensures
        match r {
            Some(i) => first_sep(s@) == Some(i as nat) && i + 2 <= n,
            None => first_sep(s@) is None,
        },
{
    if n < 2 {
        return None;
    }
    let mut i: usize = 0;
    while i < n - 1
        invariant
            2 <= n == s@.len(),
            i <= n,
            first_sep(s@) == first_sep_from(s@, i as int),
        decreases n - i,
    {
        if s.get_char(i) == '1' && s.get_char(i + 1) == '1' {
            return Some(i);
        }
        i = i + 1;
    }
    None
}

/// Decodes a program text into a transition table.
///
/// The text is split on the separator `11`; each piece must encode one
/// transition, and a later record silently overwrites an earlier one with
/// the same key. On the first malformed record — an empty one from a
/// trailing separator included — the decode fails as a whole, naming that
/// record's position; no partial table is returned.
pub fn decode(text: &str) -> (r: Result<TransTable, DecodeError>)
    ensures
        ({
            let recs = split_records(text@);
            match r {
                Ok(t) => records_ok(recs) && t@ == table_of(recs),
                Err(e) => e.record_index < recs.len()
                    && record_tr(recs[e.record_index as int]) is None
                    && forall|j: int| 0 <= j < e.record_index
                        ==> record_tr(#[trigger] recs[j]) is Some,
            }
        }),
{
    let ghost recs = split_records(text@);
    let mut table = TransTable::new();
    let mut rest: &str = text;
    let mut rest_len: usize = text.unicode_len();
    let mut k: usize = 0;
    proof {
        assert(recs.skip(0) =~= recs);
        assert(recs.take(0) =~= Seq::<Seq<char>>::empty());
    }
    loop
        invariant
            recs == split_records(text@),
            text@.len() <= usize::MAX,
            rest_len == rest@.len(),
            split_records(rest@) == recs.skip(k as int),
            k <= recs.len(),
            rest_len + 2 * k <= text@.len(),
            table@ == table_of(recs.take(k as int)),
            records_ok(recs.take(k as int)),
        decreases rest_len,
    {
        proof {
            assert(recs.skip(k as int).len() >= 1);
            assert(k < recs.len());
        }
        let sep = find_sep(rest, rest_len);
        let rec = match sep {
            Some(i) => {
                let rec = rest.substring_char(0, i);
                proof {
                    assert(recs.skip(k as int)
                        == seq![rest@.take(i as int)] + split_records(rest@.skip(i + 2)));
                    assert(recs[k as int] == recs.skip(k as int)[0]);
                    assert(recs[k as int] == rec@);
                }
                rec
            },
            None => {
                proof {
                    assert(recs.skip(k as int) =~= seq![rest@]);
                    assert(recs[k as int] == recs.skip(k as int)[0]);
                    assert(recs[k as int] == rest@);
                }
                rest
            },
        };
        match parse_transition(rec) {
            Some((key, st)) => {
                table.insert(key, st);
                proof {
                    assert(recs.take(k + 1).drop_last() =~= recs.take(k as int));
                    assert(recs.take(k + 1).last() == recs[k as int]);
                    assert forall|j: int| 0 <= j < k + 1
                        implies record_tr(#[trigger] recs.take(k + 1)[j]) is Some by {
                        if j < k {
                            assert(recs.take(k + 1)[j] == recs.take(k as int)[j]);
                        } else {
                            assert(recs.take(k + 1)[j] == recs[k as int]);
                        }
                    }
                }
            },
            None => {
                proof {
                    assert forall|j: int| 0 <= j < k
                        implies record_tr(#[trigger] recs[j]) is Some by {
                        assert(record_tr(recs.take(k as int)[j]) is Some);
                    }
                }
                return Err(DecodeError { record_index: k });
            },
        }
        match sep {
            Some(i) => {
                let ghost prev = rest@;
                rest = rest.substring_char(i + 2, rest_len);
                rest_len = rest_len - (i + 2);
                k = k + 1;
                proof {
                    assert(rest@ =~= prev.skip(i + 2));
                    assert(recs.skip(k - 1).skip(1) =~= recs.skip(k as int));
                    assert((seq![prev.take(i as int)] + split_records(prev.skip(i + 2))).skip(1)
                        =~= split_records(prev.skip(i + 2)));
                }
            },
            None => {
                proof {
                    assert(recs.take(k + 1) =~= recs);
                }
                return Ok(table);
            },
        }
    }
}

/// Law: decoding is deterministic. The table a text decodes to is a
/// function of the text alone, so two decodes of one text map every key
/// alike.
pub proof fn lemma_decode_deterministic(text: Seq<char>, t1: TableModel, t2: TableModel)
    requires
        t1 == table_of(split_records(text)),
        t2 == table_of(split_records(text)),
    ensures
        t1 == t2,
{
}

/// Whether a character is a decimal digit.
pub open spec fn is_tape_digit(c: char) -> bool {
    48 <= c as u32 <= 57
}

/// The symbol a digit character stands for: its value plus one.
pub open spec fn digit_symbol(c: char) -> nat {
    (c as u32 - 47) as nat
}

/// Parses a tape text, mapping each decimal digit `d` to the symbol
/// `d + 1`. The first non-digit character, if any, fails the parse.
pub fn parse_tape(text: &str) -> (r: Result<Vec<Symbol>, TapeError>)
    ensures
        ({
            let s = text@;
            match r {
                Ok(v) => (forall|i: int| 0 <= i < s.len() ==> is_tape_digit(#[trigger] s[i]))
                    && v@.len() == s.len()
                    && forall|i: int| 0 <= i < s.len() ==> v@[i] == digit_symbol(#[trigger] s[i]),
                Err(e) => e.index < s.len() && !is_tape_digit(s[e.index as int])
                    && forall|j: int| 0 <= j < e.index ==> is_tape_digit(#[trigger] s[j]),
            }
        }),
{
    let n = text.unicode_len();
    let mut v: Vec<Symbol> = Vec::new();
    let mut i: usize = 0;
    while i < n
        invariant
            n == text@.len(),
            i <= n,
            v@.len() == i,
            forall|j: int| 0 <= j < i ==> is_tape_digit(#[trigger] text@[j]),
            forall|j: int| 0 <= j < i ==> v@[j] == digit_symbol(#[trigger] text@[j]),
        decreases n - i,
    {
        let c = text.get_char(i);
        let code = c as u32;
        if code < 48 || code > 57 {
            return Err(TapeError { index: i });
        }
        v.push((code - 47) as usize);
        i = i + 1;
    }
    Ok(v)
}

} // verus!
