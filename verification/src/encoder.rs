//! Encoding of a transition table back into the unary text format.
//!
//! Only states and symbols of value one or more can be written in unary,
//! so a table with a zero field in any entry has no encoding. Encoding a
//! table and decoding the text again yields a table mapping the same keys
//! to the same actions.

use vstd::prelude::*;

use crate::table::MoveDir;
use crate::table::TableModel;
use crate::table::TransTable;
use crate::table::TransitionKey;
use crate::table::TransitionStep;
use crate::table::key_model;
use crate::table::step_model;
use crate::table::entries_table;
use crate::decoder::record_tr;
use crate::decoder::zeros_run;

verus! {

/// A run of `n` zero characters.
pub open spec fn n_zeros(n: nat) -> Seq<char> {
    Seq::new(n, |i: int| '0')
}

/// The run length that encodes a direction: one zero for left, two for
/// right.
pub open spec fn dir_run(d: MoveDir) -> nat {
    if d == MoveDir::Left {
        1
    } else {
        2
    }
}

/// Whether an entry can be written in unary: every state and symbol in it
/// is one or more.
pub open spec fn encodable(k: (nat, nat), st: (nat, nat, MoveDir)) -> bool {
    1 <= k.0 && 1 <= k.1 && 1 <= st.0 && 1 <= st.1
}

/// The record text of one entry: the five unary fields, single `1`s
/// between them.
pub open spec fn encode_record(k: (nat, nat), st: (nat, nat, MoveDir)) -> Seq<char> {
    n_zeros(k.0) + seq!['1'] + n_zeros(k.1) + seq!['1'] + n_zeros(st.0) + seq!['1'] + n_zeros(
        st.1,
    ) + seq!['1'] + n_zeros(dir_run(st.2))
}

/// Where the characters of an encoded record lie: each field is a run of
/// zeros, a single `1` after each of the first four.
pub proof fn lemma_record_chars(k: (nat, nat), st: (nat, nat, MoveDir))
    requires
        encodable(k, st),
    ensures
        ({
            let rec = encode_record(k, st);
            let (a, b) = k;
            let (c, d, dm) = st;
            let e = dir_run(dm);
            rec.len() == a + b + c + d + e + 4 && (forall|i: int|
                0 <= i < a ==> rec[i] == '0') && rec[a as int] == '1' && (forall|i: int|
                a + 1 <= i < a + b + 1 ==> rec[i] == '0') && rec[a as int + b + 1] == '1' && (
            forall|i: int|
                a + b + 2 <= i < a + b + c + 2 ==> rec[i] == '0') && rec[a as int + b + c + 2]
                == '1' && (forall|i: int|
                a + b + c + 3 <= i < a + b + c + d + 3 ==> rec[i] == '0') && rec[a as int + b + c
                + d + 3] == '1' && (forall|i: int|
                a + b + c + d + 4 <= i < rec.len() ==> rec[i] == '0')
        }),
{
}

/// A stretch of zeros ending at a non-zero character or at the end of the
/// text is a zero run of exactly its length.
pub proof fn lemma_zeros_run_exact(s: Seq<char>, from: int, n: nat)
    requires
        0 <= from,
        from + n <= s.len(),
        forall|i: int| from <= i < from + n ==> s[i] == '0',
        from + n == s.len() || s[from + n] != '0',
    ensures
        zeros_run(s, from) == n,
    decreases n,
{
    if n > 0 {
        lemma_zeros_run_exact(s, from + 1, (n - 1) as nat);
    }
}

/// Law, one record: the record text of an encodable entry decodes back to
/// exactly that entry.
pub proof fn lemma_record_round_trip(k: (nat, nat), st: (nat, nat, MoveDir))
    requires
        encodable(k, st),
    ensures
        record_tr(encode_record(k, st)) == Some((k, st)),
{
    let rec = encode_record(k, st);
    let (a, b) = k;
    let (c, d, dm) = st;
    let e = dir_run(dm);
    lemma_record_chars(k, st);
    lemma_zeros_run_exact(rec, 0, a);
    lemma_zeros_run_exact(rec, a as int + 1, b);
    lemma_zeros_run_exact(rec, a as int + b + 2, c);
    lemma_zeros_run_exact(rec, a as int + b + c + 3, d);
    lemma_zeros_run_exact(rec, a as int + b + c + d + 4, e);
}

/// No two adjacent `1`s stand inside an encoded record: each of its `1`s
/// is followed by a zero run of length one or more.
pub proof fn lemma_record_no_sep(k: (nat, nat), st: (nat, nat, MoveDir))
    requires
        encodable(k, st),
    ensures
        ({
            let rec = encode_record(k, st);
            forall|i: int|
                0 <= i && i + 2 <= rec.len() ==> !(#[trigger] rec[i] == '1' && rec[i + 1] == '1')
        }),
{
    let rec = encode_record(k, st);
    let (a, b) = k;
    let (c, d, dm) = st;
    lemma_record_chars(k, st);
    assert forall|i: int| 0 <= i && i + 2 <= rec.len() && #[trigger] rec[i] == '1'
        implies rec[i + 1] != '1' by {
        assert(i == a || i == a + b + 1 || i == a + b + c + 2 || i == a + b + c + d + 3);
    }
}

/// Below `from`, text without an adjacent pair of `1`s holds no separator.
pub proof fn lemma_no_sep_from(s: Seq<char>, from: int)
    requires
        0 <= from,
        forall|i: int| from <= i && i + 2 <= s.len() ==> !(#[trigger] s[i] == '1' && s[i + 1] == '1'),
    ensures
        crate::decoder::first_sep_from(s, from) is None,
    decreases s.len() - from,
{
    if from + 2 <= s.len() {
        lemma_no_sep_from(s, from + 1);
    }
}

/// The leftmost separator is at `l` when a pair of `1`s stands at `l` and
/// no pair stands before it.
pub proof fn lemma_first_sep_found(s: Seq<char>, from: int, l: int)
    requires
        0 <= from <= l,
        l + 2 <= s.len(),
        s[l] == '1' && s[l + 1] == '1',
        forall|i: int| 0 <= i < l ==> !(#[trigger] s[i] == '1' && s[i + 1] == '1'),
    ensures
        crate::decoder::first_sep_from(s, from) == Some(l as nat),
    decreases l - from,
{
    if from < l {
        lemma_first_sep_found(s, from + 1, l);
    }
}

/// Whether every entry of a sequence is encodable.
pub open spec fn all_encodable(s: Seq<((nat, nat), (nat, nat, MoveDir))>) -> bool {
    forall|i: int| 0 <= i < s.len() ==> encodable((#[trigger] s[i]).0, s[i].1)
}

/// The program text of a sequence of entries: their records joined by the
/// two-character separator.
pub open spec fn encode_entries(s: Seq<((nat, nat), (nat, nat, MoveDir))>) -> Seq<char>
    decreases s.len(),
{
    if s.len() == 0 {
        Seq::empty()
    } else if s.len() == 1 {
        encode_record(s[0].0, s[0].1)
    } else {
        encode_entries(s.drop_last()) + seq!['1', '1'] + encode_record(s.last().0, s.last().1)
    }
}

/// The joined text also reads as the first record, the separator, and the
/// joined text of the remaining entries.
pub proof fn lemma_encode_entries_head(s: Seq<((nat, nat), (nat, nat, MoveDir))>)
    requires
        s.len() >= 2,
    ensures
        encode_entries(s) == encode_record(s[0].0, s[0].1) + seq!['1', '1'] + encode_entries(
            s.drop_first(),
        ),
    decreases s.len(),
{
    if s.len() == 2 {
        assert(s.drop_last() =~= seq![s[0]]);
        assert(s.drop_first() =~= seq![s[1]]);
        assert(s.drop_last()[0] == s[0]);
        assert(s.drop_first()[0] == s[1]);
        assert(s.last() == s[1]);
        assert(encode_entries(s.drop_last()) == encode_record(s[0].0, s[0].1));
        assert(encode_entries(s.drop_first()) == encode_record(s[1].0, s[1].1));
    } else {
        lemma_encode_entries_head(s.drop_last());
        assert(s.drop_first().drop_last() =~= s.drop_last().drop_first());
        assert(s.drop_first().last() == s.last());
        assert(s.drop_last()[0] == s[0]);
        assert(encode_entries(s) =~= encode_record(s[0].0, s[0].1) + seq!['1', '1']
            + encode_entries(s.drop_first()));
    }
}

/// Splitting the joined text on the separator recovers exactly the record
/// of each entry, in order.
#[verifier::rlimit(50)]
pub proof fn lemma_split_encoded(s: Seq<((nat, nat), (nat, nat, MoveDir))>)
    requires
        s.len() >= 1,
        all_encodable(s),
    ensures
        ({
            let recs = crate::decoder::split_records(encode_entries(s));
            recs.len() == s.len() && forall|i: int|
                0 <= i < s.len() ==> recs[i] == encode_record((#[trigger] s[i]).0, s[i].1)
        }),
    decreases s.len(),
{
    let text = encode_entries(s);
    if s.len() == 1 {
        lemma_record_no_sep(s[0].0, s[0].1);
        lemma_no_sep_from(text, 0);
    } else {
        lemma_encode_entries_head(s);
        let rec0 = encode_record(s[0].0, s[0].1);
        let rest = encode_entries(s.drop_first());
        let l = rec0.len() as int;
        lemma_record_no_sep(s[0].0, s[0].1);
        lemma_record_chars(s[0].0, s[0].1);
        assert(text == rec0 + seq!['1', '1'] + rest);
        assert(text[l] == '1' && text[l + 1] == '1');
        assert forall|i: int| 0 <= i < l implies !(#[trigger] text[i] == '1' && text[i + 1] == '1') by {
            assert(text[i] == rec0[i]);
            if i + 1 < l {
                assert(text[i + 1] == rec0[i + 1]);
            } else {
                assert(rec0[l - 1] == '0');
            }
        }
        lemma_first_sep_found(text, 0, l);
        assert(text.take(l) =~= rec0);
        assert(text.skip(l + 2) =~= rest);
        lemma_split_encoded(s.drop_first());
        let recs = crate::decoder::split_records(text);
        let sub = crate::decoder::split_records(rest);
        assert(recs == seq![rec0] + sub);
        assert forall|i: int| 0 <= i < s.len()
            implies recs[i] == encode_record((#[trigger] s[i]).0, s[i].1) by {
            if i > 0 {
                assert(recs[i] == sub[i - 1]);
                assert(s.drop_first()[i - 1] == s[i]);
            }
        }
    }
}

/// The table a sequence of entries folds into, a later entry overwriting
/// an earlier one with the same key.
pub open spec fn fold_entries(s: Seq<((nat, nat), (nat, nat, MoveDir))>) -> TableModel
    decreases s.len(),
{
    if s.len() == 0 {
        Map::empty()
    } else {
        fold_entries(s.drop_last()).insert(s.last().0, s.last().1)
    }
}

/// Records that decode pointwise to given entries fold into the same
/// table as those entries.
pub proof fn lemma_table_of_pointwise(
    recs: Seq<Seq<char>>,
    ent: Seq<((nat, nat), (nat, nat, MoveDir))>,
)
    requires
        recs.len() == ent.len(),
        forall|i: int| 0 <= i < recs.len() ==> record_tr(#[trigger] recs[i]) == Some(ent[i]),
    ensures
        crate::decoder::table_of(recs) == fold_entries(ent),
    decreases recs.len(),
{
    if recs.len() > 0 {
        assert forall|i: int| 0 <= i < recs.drop_last().len()
            implies record_tr(#[trigger] recs.drop_last()[i]) == Some(ent.drop_last()[i]) by {
            assert(recs.drop_last()[i] == recs[i]);
            assert(ent.drop_last()[i] == ent[i]);
        }
        lemma_table_of_pointwise(recs.drop_last(), ent.drop_last());
        assert(record_tr(recs.last()) == Some(ent[recs.len() - 1]));
    }
}

/// Law, round trip: the joined text of encodable entries decodes whole —
/// every record is well-formed — and the decoded table maps exactly the
/// keys of those entries to their actions, the later of two entries with
/// one key winning on both sides.
pub proof fn lemma_encode_decode_round_trip(s: Seq<((nat, nat), (nat, nat, MoveDir))>)
    requires
        s.len() >= 1,
        all_encodable(s),
    ensures
        crate::decoder::records_ok(crate::decoder::split_records(encode_entries(s))),
        crate::decoder::table_of(crate::decoder::split_records(encode_entries(s)))
            == fold_entries(s),
{
    let recs = crate::decoder::split_records(encode_entries(s));
    lemma_split_encoded(s);
    assert forall|i: int| 0 <= i < recs.len()
        implies record_tr(#[trigger] recs[i]) == Some(s[i]) by {
        lemma_record_round_trip(s[i].0, s[i].1);
    }
    lemma_table_of_pointwise(recs, s);
}

/// The entries of a table as their mathematical models.
pub open spec fn entry_models(s: Seq<(TransitionKey, TransitionStep)>) -> Seq<
    ((nat, nat), (nat, nat, MoveDir)),
> {
    s.map_values(|p: (TransitionKey, TransitionStep)| (key_model(p.0), step_model(p.1)))
}

/// Folding the models of a table's entries gives the table's own map.
pub proof fn lemma_fold_models(s: Seq<(TransitionKey, TransitionStep)>)
    ensures
        fold_entries(entry_models(s)) == entries_table(s),
    decreases s.len(),
{
    if s.len() > 0 {
        assert(entry_models(s).drop_last() =~= entry_models(s.drop_last()));
        lemma_fold_models(s.drop_last());
        assert(entry_models(s).last() == (key_model(s.last().0), step_model(s.last().1)));
    }
}

/// Law, round trip at the table: the text written for a table of
/// encodable entries decodes whole, and the decoded table maps exactly
/// the same keys to the same actions as the table it was written from.
pub proof fn lemma_table_round_trip(t: TransTable)
    requires
        t.entries@.len() >= 1,
        all_encodable(entry_models(t.entries@)),
    ensures
        crate::decoder::records_ok(
            crate::decoder::split_records(encode_entries(entry_models(t.entries@))),
        ),
        crate::decoder::table_of(
            crate::decoder::split_records(encode_entries(entry_models(t.entries@))),
        ) == t@,
{
    lemma_encode_decode_round_trip(entry_models(t.entries@));
    lemma_fold_models(t.entries@);
}

/// Appends `n` zero characters.
fn push_zeros(out: &mut String, n: usize)
    ensures
        final(out)@ == old(out)@ + n_zeros(n as nat),
{
    proof {
        assert(old(out)@ + n_zeros(0) =~= old(out)@);
    }
    let mut i: usize = 0;
    while i < n
        invariant
            i <= n,
            out@ == old(out)@ + n_zeros(i as nat),
        decreases n - i,
    {
        out.append("0");
        proof {
            reveal_strlit("0");
            assert(old(out)@ + n_zeros(i as nat) + "0"@ =~= old(out)@ + n_zeros((i + 1) as nat));
        }
        i = i + 1;
    }
}

/// Appends the record text of one entry.
fn push_record(out: &mut String, key: TransitionKey, st: TransitionStep)
    requires
        1 <= key.0,
        1 <= key.1,
        1 <= st.0,
        1 <= st.1,
    ensures
        final(out)@ == old(out)@ + encode_record(key_model(key), step_model(st)),
{
    push_zeros(out, key.0);
    out.append("1");
    push_zeros(out, key.1);
    out.append("1");
    push_zeros(out, st.0);
    out.append("1");
    push_zeros(out, st.1);
    out.append("1");
    match st.2 {
        MoveDir::Left => push_zeros(out, 1),
        MoveDir::Right => push_zeros(out, 2),
    }
    proof {
        reveal_strlit("1");
        assert("1"@ =~= seq!['1']);
        assert(out@ =~= old(out)@ + encode_record(key_model(key), step_model(st)));
    }
}

/// Encodes a table into the unary text format, entry by entry in the
/// order the table holds them, records joined by the separator. A table
/// with no entry, or with a zero state or symbol in some entry — unary
/// has no run of length zero — has no encoding.
pub fn encode(t: &TransTable) -> (r: Option<String>)
    ensures
        match r {
            Some(text) => t.entries@.len() >= 1 && all_encodable(entry_models(t.entries@))
                && text@ == encode_entries(entry_models(t.entries@)),
            None => t.entries@.len() == 0 || !all_encodable(entry_models(t.entries@)),
        },
{
    let ghost models = entry_models(t.entries@);
    let n = t.entries.len();
    if n == 0 {
        return None;
    }
    let mut out = String::new();
    let mut i: usize = 0;
    while i < n
        invariant
            n == t.entries@.len(),
            1 <= n,
            i <= n,
            models == entry_models(t.entries@),
            all_encodable(entry_models(t.entries@).take(i as int)),
            i >= 1 ==> out@ == encode_entries(entry_models(t.entries@).take(i as int)),
            i == 0 ==> out@ == Seq::<char>::empty(),
        decreases n - i,
    {
        let (key, st) = t.entries[i];
        proof {
            assert(models[i as int] == (key_model(key), step_model(st)));
        }
        if key.0 < 1 || key.1 < 1 || st.0 < 1 || st.1 < 1 {
            proof {
                assert(!encodable(models[i as int].0, models[i as int].1));
            }
            return None;
        }
        if i > 0 {
            out.append("11");
        }
        push_record(&mut out, key, st);
        proof {
            reveal_strlit("11");
            assert("11"@ =~= seq!['1', '1']);
            assert(models.take(i + 1).drop_last() =~= models.take(i as int));
            assert(models.take(i + 1).last() == models[i as int]);
            assert forall|j: int| 0 <= j < i + 1
                implies encodable((#[trigger] models.take(i + 1)[j]).0, models.take(i + 1)[j].1) by {
                if j < i {
                    assert(models.take(i + 1)[j] == models.take(i as int)[j]);
                } else {
                    assert(models.take(i + 1)[j] == models[i as int]);
                }
            }
            if i == 0 {
                assert(models.take(1)[0] == models[0]);
                assert(out@ =~= encode_record(models[0].0, models[0].1));
            } else {
                assert(out@ =~= encode_entries(models.take(i as int)) + seq!['1', '1']
                    + encode_record(models[i as int].0, models[i as int].1));
            }
        }
        i = i + 1;
    }
    proof {
        assert(models.take(n as int) =~= models);
    }
    Some(out)
}

} // verus!
