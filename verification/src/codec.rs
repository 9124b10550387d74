//! The persisted file format: a pretty-printed JSON array of task objects,
//! written and read by this module alone. The encoder and the parser are
//! specified against the same grammar, and parsing an encoding is proved to
//! restore the records exactly.

use vstd::prelude::*;
use crate::task::{
    Task, TaskView, Status, status_of_name, status_from_chars, canon_ts, canonicalize_ts,
    lemma_canon_ts_identity, lemma_status_name_round_trip, all_wf, ids_unique, contains_id,
};
use crate::text::{lex_le, lex_le_str, chars_of, chars_eq_str, str_eq};
use vstd::string::StrSliceExecFns;
use crate::trusted::chars_to_string;

verus! {

// ---------------------------------------------------------------------------
// String escaping, as in JSON: quote and backslash get a backslash escape,
// control characters a `\u00XX` escape, everything else stands as itself.
// ---------------------------------------------------------------------------
/// The lower-case hex digit for a value below 16.
pub open spec fn hex_digit(n: int) -> char {
    if 0 <= n && n < 10 {
        ((48 + n) as u8) as char
    } else if 10 <= n && n < 16 {
        ((87 + n) as u8) as char
    } else {
        '0'
    }
}

/// The value of a lower-case hex digit, or -1.
pub open spec fn hex_val(c: char) -> int {
    if 48 <= c as u32 && c as u32 <= 57 {
        c as u32 - 48
    } else if 97 <= c as u32 && c as u32 <= 102 {
        c as u32 - 87
    } else {
        -1
    }
}

/// The escape sequence of one character.
pub open spec fn esc_char(c: char) -> Seq<char> {
    if c == '"' {
        seq!['\\', '"']
    } else if c == '\\' {
        seq!['\\', '\\']
    } else if (c as u32) < 32 {
        seq![
            '\\',
            'u',
            '0',
            '0',
            hex_digit((c as u32) as int / 16),
            hex_digit((c as u32) as int % 16),
        ]
    } else {
        seq![c]
    }
}

/// The escaped form of a sequence.
pub open spec fn esc(s: Seq<char>) -> Seq<char>
    decreases s.len(),
{
    if s.len() == 0 {
        Seq::empty()
    } else {
        esc_char(s[0]) + esc(s.drop_first())
    }
}

proof fn lemma_char_code_round_trip(c: char)
    requires
        (c as u32) < 32,
    ensures
        ((((c as u32) as int) as u8) as char) == c,
{
}

proof fn lemma_esc_push(s: Seq<char>, c: char)
    ensures
        esc(s.push(c)) == esc(s) + esc_char(c),
    decreases s.len(),
{
    if s.len() == 0 {
        assert(s.push(c)[0] == c);
        assert(s.push(c).drop_first() =~= Seq::<char>::empty());
        assert(esc(s.push(c)) == esc_char(c) + esc(Seq::<char>::empty()));
        assert(esc(s.push(c)) =~= esc(s) + esc_char(c));
    } else {
        assert(s.push(c)[0] == s[0]);
        assert(s.push(c).drop_first() =~= s.drop_first().push(c));
        lemma_esc_push(s.drop_first(), c);
        assert(esc(s.push(c)) =~= esc(s) + esc_char(c));
    }
}

fn hex_digit_exec(d: u8) -> (r: char)
    requires
        d < 16,
    ensures
        r == hex_digit(d as int),
{
    if d < 10 {
        (48 + d) as char
    } else {
        (87 + d) as char
    }
}

fn push_esc_char(out: &mut Vec<char>, c: char)
    ensures
        final(out)@ == old(out)@ + esc_char(c),
{
    if c == '"' {
        out.push('\\');
        out.push('"');
        proof {
            assert(out@ =~= old(out)@ + esc_char(c));
        }
    } else if c == '\\' {
        out.push('\\');
        out.push('\\');
        proof {
            assert(out@ =~= old(out)@ + esc_char(c));
        }
    } else {
        let u = c as u32;
        if u < 32 {
            out.push('\\');
            out.push('u');
            out.push('0');
            out.push('0');
            out.push(hex_digit_exec((u / 16) as u8));
            out.push(hex_digit_exec((u % 16) as u8));
            proof {
                assert(out@ =~= old(out)@ + esc_char(c));
            }
        } else {
            out.push(c);
            proof {
                assert(out@ =~= old(out)@ + esc_char(c));
            }
        }
    }
}

fn push_escaped(out: &mut Vec<char>, s: &Vec<char>)
    ensures
        final(out)@ == old(out)@ + esc(s@),
{
    let n = s.len();
    for i in 0..n
        invariant
            n == s@.len(),
            out@ == old(out)@ + esc(s@.subrange(0, i as int)),
    {
        push_esc_char(out, s[i]);
        proof {
            assert(s@.subrange(0, i as int).push(s@[i as int]) =~= s@.subrange(0, i as int + 1));
            lemma_esc_push(s@.subrange(0, i as int), s@[i as int]);
            assert(out@ =~= old(out)@ + esc(s@.subrange(0, i as int + 1)));
        }
    }
    proof {
        assert(s@.subrange(0, n as int) =~= s@);
    }
}

// ---------------------------------------------------------------------------
// Unescaping: read characters up to and including an unescaped closing quote.
// ---------------------------------------------------------------------------
/// Decode one escape sequence starting at the backslash at `i`.
pub open spec fn decode_esc(s: Seq<char>, i: int) -> Option<(char, int)> {
    if i + 1 < s.len() && s[i + 1] == '"' {
        Some(('"', i + 2))
    } else if i + 1 < s.len() && s[i + 1] == '\\' {
        Some(('\\', i + 2))
    } else if s.len() - i > 5 && s[i + 1] == 'u' && s[i + 2] == '0' && s[i + 3] == '0' && hex_val(
        s[i + 4],
    ) >= 0 && hex_val(s[i + 5]) >= 0 {
        Some((((16 * hex_val(s[i + 4]) + hex_val(s[i + 5])) as u8) as char, i + 6))
    } else {
        None
    }
}

/// Read a string body from position `i` up to and including the closing
/// quote; the result is the unescaped content and the position after the
/// quote.
pub open spec fn unesc(s: Seq<char>, i: int) -> Option<(Seq<char>, int)>
    decreases s.len() - i,
{
    if !(0 <= i && i < s.len()) {
        None
    } else if s[i] == '"' {
        Some((Seq::empty(), i + 1))
    } else if s[i] == '\\' {
        match decode_esc(s, i) {
            None => None,
            Some((c, j)) => if i < j && j <= s.len() {
                match unesc(s, j) {
                    None => None,
                    Some((rest, k)) => Some((seq![c] + rest, k)),
                }
            } else {
                None
            },
        }
    } else {
        match unesc(s, i + 1) {
            None => None,
            Some((rest, k)) => Some((seq![s[i]] + rest, k)),
        }
    }
}

/// Unescaping inverts escaping: at a position holding the escape of `v`
/// followed by a quote, the reader returns exactly `v`.
pub proof fn lemma_unesc_esc(v: Seq<char>, s: Seq<char>, i: int)
    requires
        0 <= i,
        i + esc(v).len() + 1 <= s.len(),
        s.subrange(i, i + esc(v).len()) == esc(v),
        s[i + esc(v).len()] == '"',
    ensures
        unesc(s, i) == Some((v, i + esc(v).len() + 1)),
    decreases v.len(),
{
    if v.len() == 0 {
        assert(esc(v).len() == 0);
        assert(v =~= Seq::<char>::empty());
    } else {
        let c = v[0];
        let v2 = v.drop_first();
        let e1 = esc_char(c);
        let n1 = e1.len() as int;
        assert(esc(v) == e1 + esc(v2));
        let sv = s.subrange(i, i + esc(v).len());
        assert(sv == esc(v));
        assert(sv[0] == s[i]);
        assert(sv[0] == e1[0]);
        assert(s.subrange(i + n1, i + n1 + esc(v2).len()) =~= esc(v2)) by {
            assert forall|k: int| 0 <= k < esc(v2).len() implies s.subrange(
                i + n1,
                i + n1 + esc(v2).len(),
            )[k] == esc(v2)[k] by {
                assert(sv[n1 + k] == s[i + n1 + k]);
                assert(esc(v)[n1 + k] == esc(v2)[k]);
            }
        }
        if c == '"' {
            assert(sv[1] == s[i + 1]);
            assert(s[i] == '\\');
            assert(s[i + 1] == '"');
            lemma_unesc_esc(v2, s, i + 2);
            assert(seq![c] + v2 =~= v);
        } else if c == '\\' {
            assert(sv[1] == s[i + 1]);
            assert(s[i] == '\\');
            assert(s[i + 1] == '\\');
            lemma_unesc_esc(v2, s, i + 2);
            assert(seq![c] + v2 =~= v);
        } else if (c as u32) < 32 {
            let u = (c as u32) as int;
            assert(sv[1] == s[i + 1]);
            assert(sv[2] == s[i + 2]);
            assert(sv[3] == s[i + 3]);
            assert(sv[4] == s[i + 4]);
            assert(sv[5] == s[i + 5]);
            assert(s[i] == '\\');
            assert(s[i + 1] == 'u');
            assert(s[i + 2] == '0');
            assert(s[i + 3] == '0');
            assert(s[i + 4] == hex_digit(u / 16));
            assert(s[i + 5] == hex_digit(u % 16));
            assert(hex_val(hex_digit(u / 16)) == u / 16);
            assert(hex_val(hex_digit(u % 16)) == u % 16);
            assert(16 * (u / 16) + u % 16 == u);
            let x = 16 * hex_val(s[i + 4]) + hex_val(s[i + 5]);
            assert(x == u);
            assert(((x as u8) as char) == ((u as u8) as char));
            lemma_char_code_round_trip(c);
            assert((((16 * hex_val(s[i + 4]) + hex_val(s[i + 5])) as u8) as char) == c);
            lemma_unesc_esc(v2, s, i + 6);
            assert(seq![c] + v2 =~= v);
        } else {
            assert(s[i] == c);
            lemma_unesc_esc(v2, s, i + 1);
            assert(seq![c] + v2 =~= v);
        }
    }
}

// ---------------------------------------------------------------------------
// The document grammar: a pretty-printed array of objects with the five
// fields in fixed order.
// ---------------------------------------------------------------------------
pub open spec fn lit_doc_empty() -> Seq<char> {
    "[]"@
}

pub open spec fn lit_doc_open() -> Seq<char> {
    "[\n"@
}

pub open spec fn lit_doc_close() -> Seq<char> {
    "\n]"@
}

pub open spec fn lit_obj_open() -> Seq<char> {
    "  {\n"@
}

pub open spec fn lit_obj_close() -> Seq<char> {
    "\n  }"@
}

pub open spec fn lit_sep() -> Seq<char> {
    ",\n"@
}

pub open spec fn key_id() -> Seq<char> {
    "    \"id\": \""@
}

pub open spec fn key_content() -> Seq<char> {
    ",\n    \"content\": \""@
}

pub open spec fn key_status() -> Seq<char> {
    ",\n    \"status\": \""@
}

pub open spec fn key_created() -> Seq<char> {
    ",\n    \"created_at\": \""@
}

pub open spec fn key_updated() -> Seq<char> {
    ",\n    \"updated_at\": \""@
}

/// An escaped string value followed by its closing quote.
pub open spec fn venc(v: Seq<char>) -> Seq<char> {
    esc(v) + seq!['"']
}

/// The encoding of one record.
pub open spec fn enc_task(t: TaskView) -> Seq<char> {
    lit_obj_open() + key_id() + venc(t.id) + key_content() + venc(t.content) + key_status() + venc(
        t.status.name_spec(),
    ) + key_created() + venc(t.created_at) + key_updated() + venc(t.updated_at) + lit_obj_close()
}

/// The encodings of a non-empty run of records, separated.
pub open spec fn enc_tasks(ts: Seq<TaskView>) -> Seq<char>
    decreases ts.len(),
{
    if ts.len() == 0 {
        Seq::empty()
    } else if ts.len() == 1 {
        enc_task(ts[0])
    } else {
        enc_task(ts[0]) + lit_sep() + enc_tasks(ts.drop_first())
    }
}

/// The whole document.
pub open spec fn enc_doc(ts: Seq<TaskView>) -> Seq<char> {
    if ts.len() == 0 {
        lit_doc_empty()
    } else {
        lit_doc_open() + enc_tasks(ts) + lit_doc_close()
    }
}

/// The literal `l` stands at position `i` of `s`.
pub open spec fn at(s: Seq<char>, i: int, l: Seq<char>) -> bool {
    0 <= i && i + l.len() <= s.len() && s.subrange(i, i + l.len()) == l
}

/// Expect a key literal, then read the quoted value after it.
pub open spec fn parse_value(s: Seq<char>, i: int, key: Seq<char>) -> Option<(Seq<char>, int)> {
    if at(s, i, key) {
        unesc(s, i + key.len())
    } else {
        None
    }
}

/// Parse one record starting at `i`; the timestamps, accepted in flexible
/// sub-second precision with a zero offset, are canonicalized, and the
/// parsed record is well-formed.
pub open spec fn parse_task_at(s: Seq<char>, i: int) -> Option<(TaskView, int)> {
    if !at(s, i, lit_obj_open()) {
        None
    } else {
        match parse_value(s, i + lit_obj_open().len(), key_id()) {
            None => None,
            Some((id, i1)) => match parse_value(s, i1, key_content()) {
                None => None,
                Some((content, i2)) => match parse_value(s, i2, key_status()) {
                    None => None,
                    Some((sname, i3)) => match status_of_name(sname) {
                        None => None,
                        Some(st) => match parse_value(s, i3, key_created()) {
                            None => None,
                            Some((ca, i4)) => match parse_value(s, i4, key_updated()) {
                                None => None,
                                Some((ua, i5)) => match (canon_ts(ca), canon_ts(ua)) {
                                    (Some(cac), Some(uac)) => if lex_le(cac, uac) && at(
                                        s,
                                        i5,
                                        lit_obj_close(),
                                    ) {
                                        Some(
                                            (
                                                TaskView {
                                                    id,
                                                    content,
                                                    status: st,
                                                    created_at: cac,
                                                    updated_at: uac,
                                                },
                                                i5 + lit_obj_close().len(),
                                            ),
                                        )
                                    } else {
                                        None
                                    },
                                    _ => None,
                                },
                            },
                        },
                    },
                },
            },
        }
    }
}

/// Parse a non-empty run of records starting at `i`.
pub open spec fn parse_tasks_at(s: Seq<char>, i: int) -> Option<(Seq<TaskView>, int)>
    decreases s.len() - i,
{
    if !(0 <= i && i <= s.len()) {
        None
    } else {
        match parse_task_at(s, i) {
            None => None,
            Some((t, j)) => if i < j && j + lit_sep().len() <= s.len() && at(s, j, lit_sep()) {
                match parse_tasks_at(s, j + lit_sep().len()) {
                    None => None,
                    Some((ts, k)) => Some((seq![t] + ts, k)),
                }
            } else if i < j {
                Some((seq![t], j))
            } else {
                None
            },
        }
    }
}

/// Keep, for each identifier, only the last record that carries it, in the
/// order of those last occurrences — a repeated identifier in a document
/// means the later record replaces the earlier one.
pub open spec fn dedup_last(ts: Seq<TaskView>) -> Seq<TaskView>
    decreases ts.len(),
{
    if ts.len() == 0 {
        Seq::empty()
    } else if contains_id(ts.drop_first(), ts[0].id) {
        dedup_last(ts.drop_first())
    } else {
        seq![ts[0]] + dedup_last(ts.drop_first())
    }
}

/// Parse a whole document: the record list, with every record well-formed;
/// on a repeated identifier the later record wins.
pub open spec fn parse_doc(s: Seq<char>) -> Option<Seq<TaskView>> {
    if s == lit_doc_empty() {
        Some(Seq::empty())
    } else if at(s, 0, lit_doc_open()) {
        match parse_tasks_at(s, lit_doc_open().len() as int) {
            None => None,
            Some((ts, j)) => if at(s, j, lit_doc_close()) && j + lit_doc_close().len() == s.len() {
                Some(dedup_last(ts))
            } else {
                None
            },
        }
    } else {
        None
    }
}

/// Every deduplicated record stands somewhere in the record list.
proof fn lemma_dedup_membership(ts: Seq<TaskView>, x: int)
    requires
        0 <= x < dedup_last(ts).len(),
    ensures
        exists|j: int| 0 <= j < ts.len() && #[trigger] ts[j] == dedup_last(ts)[x],
    decreases ts.len(),
{
    if ts.len() > 0 {
        let d = ts.drop_first();
        if contains_id(d, ts[0].id) {
            lemma_dedup_membership(d, x);
            let j = choose|j: int| 0 <= j < d.len() && #[trigger] d[j] == dedup_last(d)[x];
            assert(ts[j + 1] == dedup_last(ts)[x]);
        } else if x == 0 {
            assert(ts[0] == dedup_last(ts)[0]);
        } else {
            assert(dedup_last(ts)[x] == dedup_last(d)[x - 1]);
            lemma_dedup_membership(d, x - 1);
            let j = choose|j: int| 0 <= j < d.len() && #[trigger] d[j] == dedup_last(d)[x - 1];
            assert(ts[j + 1] == dedup_last(ts)[x]);
        }
    }
}

/// Deduplication leaves pairwise-distinct identifiers and keeps
/// well-formedness.
pub proof fn lemma_dedup_wf(ts: Seq<TaskView>)
    ensures
        ids_unique(dedup_last(ts)),
        all_wf(ts) ==> all_wf(dedup_last(ts)),
    decreases ts.len(),
{
    let out = dedup_last(ts);
    if ts.len() > 0 {
        let d = ts.drop_first();
        lemma_dedup_wf(d);
        if all_wf(ts) {
            assert(all_wf(d)) by {
                assert(forall|i: int| 0 <= i < d.len() ==> #[trigger] d[i] == ts[i + 1]);
            }
            assert forall|i: int| 0 <= i < out.len() implies (#[trigger] out[i]).wf() by {
                if contains_id(d, ts[0].id) {
                } else if i == 0 {
                    assert(out[0] == ts[0]);
                } else {
                    assert(out[i] == dedup_last(d)[i - 1]);
                }
            }
        }
        if !contains_id(d, ts[0].id) {
            assert forall|a: int, b: int|
                0 <= a < b < out.len() implies (#[trigger] out[a]).id != (#[trigger] out[b]).id by {
                if a == 0 {
                    assert(out[b] == dedup_last(d)[b - 1]);
                    lemma_dedup_membership(d, b - 1);
                    let j = choose|j: int|
                        0 <= j < d.len() && #[trigger] d[j] == dedup_last(d)[b - 1];
                    if d[j].id == ts[0].id {
                        assert(contains_id(d, ts[0].id));
                    }
                } else {
                    assert(out[a] == dedup_last(d)[a - 1] && out[b] == dedup_last(d)[b - 1]);
                }
            }
        }
    }
}

/// On a record list whose identifiers are already pairwise distinct,
/// deduplication changes nothing.
pub proof fn lemma_dedup_identity(ts: Seq<TaskView>)
    requires
        ids_unique(ts),
    ensures
        dedup_last(ts) == ts,
    decreases ts.len(),
{
    if ts.len() == 0 {
        assert(dedup_last(ts) =~= ts);
    } else {
        let d = ts.drop_first();
        if contains_id(d, ts[0].id) {
            let k = choose|k: int| 0 <= k < d.len() && (#[trigger] d[k]).id == ts[0].id;
            assert(ts[k + 1].id == ts[0].id);
            assert(false);
        }
        assert(ids_unique(d)) by {
            assert(forall|i: int| 0 <= i < d.len() ==> #[trigger] d[i] == ts[i + 1]);
        }
        lemma_dedup_identity(d);
        assert(seq![ts[0]] + d =~= ts);
    }
}

// ---------------------------------------------------------------------------
// Round trip: parsing an encoding restores the records exactly.
// ---------------------------------------------------------------------------
proof fn lemma_at_concat(s: Seq<char>, i: int, a: Seq<char>, b: Seq<char>)
    requires
        at(s, i, a + b),
    ensures
        at(s, i, a),
        at(s, i + a.len(), b),
{
    let w = s.subrange(i, i + (a + b).len());
    assert(s.subrange(i, i + a.len()) =~= a) by {
        assert forall|k: int| 0 <= k < a.len() implies s.subrange(i, i + a.len())[k] == a[k] by {
            assert(w[k] == s[i + k]);
            assert(w[k] == a[k]);
            assert(s.subrange(i, i + a.len())[k] == s[i + k]);
        }
    }
    assert(s.subrange(i + a.len(), i + a.len() + b.len()) =~= b) by {
        assert forall|k: int| 0 <= k < b.len() implies s.subrange(
            i + a.len(),
            i + a.len() + b.len(),
        )[k] == b[k] by {
            assert(w[a.len() + k] == s[i + a.len() + k]);
            assert(w[a.len() + k] == b[k]);
            assert(s.subrange(i + a.len(), i + a.len() + b.len())[k] == s[i + a.len() + k]);
        }
    }
}

proof fn lemma_parse_value(v: Seq<char>, s: Seq<char>, i: int, key: Seq<char>)
    requires
        at(s, i, key + venc(v)),
    ensures
        parse_value(s, i, key) == Some((v, i + key.len() + esc(v).len() + 1)),
{
    lemma_at_concat(s, i, key, venc(v));
    lemma_at_concat(s, i + key.len(), esc(v), seq!['"']);
    let q = i + key.len() + esc(v).len();
    assert(s.subrange(q, q + 1)[0] == s[q]);
    assert(s[q] == '"');
    lemma_unesc_esc(v, s, i + key.len());
}

proof fn lemma_parse_enc_task(t: TaskView, s: Seq<char>, i: int)
    requires
        t.wf(),
        at(s, i, enc_task(t)),
    ensures
        parse_task_at(s, i) == Some((t, i + enc_task(t).len())),
{
    let a0 = lit_obj_open();
    let a1 = key_id() + venc(t.id);
    let a2 = key_content() + venc(t.content);
    let a3 = key_status() + venc(t.status.name_spec());
    let a4 = key_created() + venc(t.created_at);
    let a5 = key_updated() + venc(t.updated_at);
    let a6 = lit_obj_close();
    assert(enc_task(t) =~= a0 + (a1 + (a2 + (a3 + (a4 + (a5 + a6))))));
    lemma_at_concat(s, i, a0, a1 + (a2 + (a3 + (a4 + (a5 + a6)))));
    let j1 = i + a0.len();
    lemma_at_concat(s, j1, a1, a2 + (a3 + (a4 + (a5 + a6))));
    lemma_parse_value(t.id, s, j1, key_id());
    let j2 = j1 + a1.len();
    lemma_at_concat(s, j2, a2, a3 + (a4 + (a5 + a6)));
    lemma_parse_value(t.content, s, j2, key_content());
    let j3 = j2 + a2.len();
    lemma_at_concat(s, j3, a3, a4 + (a5 + a6));
    lemma_parse_value(t.status.name_spec(), s, j3, key_status());
    lemma_status_name_round_trip(t.status);
    let j4 = j3 + a3.len();
    lemma_at_concat(s, j4, a4, a5 + a6);
    lemma_parse_value(t.created_at, s, j4, key_created());
    let j5 = j4 + a4.len();
    lemma_at_concat(s, j5, a5, a6);
    lemma_parse_value(t.updated_at, s, j5, key_updated());
    let j6 = j5 + a5.len();
    lemma_canon_ts_identity(t.created_at);
    lemma_canon_ts_identity(t.updated_at);
    assert(at(s, j6, lit_obj_close()));
    assert(parse_task_at(s, i) == Some((t, j6 + a6.len())));
    assert(j6 + a6.len() == i + enc_task(t).len());
}

proof fn lemma_parse_enc_tasks(ts: Seq<TaskView>, s: Seq<char>, i: int)
    requires
        ts.len() > 0,
        all_wf(ts),
        at(s, i, enc_tasks(ts)),
        !at(s, i + enc_tasks(ts).len(), lit_sep()),
    ensures
        parse_tasks_at(s, i) == Some((ts, i + enc_tasks(ts).len())),
    decreases ts.len(),
{
    assert(ts[0].wf());
    if ts.len() == 1 {
        assert(enc_tasks(ts) == enc_task(ts[0]));
        lemma_parse_enc_task(ts[0], s, i);
        let j = i + enc_task(ts[0]).len();
        assert(venc(ts[0].id).len() >= 1);
        assert(enc_task(ts[0]).len() > 0);
        assert(seq![ts[0]] =~= ts);
        assert(parse_tasks_at(s, i) == Some((ts, j)));
    } else {
        let rest = ts.drop_first();
        assert(enc_tasks(ts) == enc_task(ts[0]) + lit_sep() + enc_tasks(rest));
        assert(enc_tasks(ts) =~= enc_task(ts[0]) + (lit_sep() + enc_tasks(rest)));
        lemma_at_concat(s, i, enc_task(ts[0]), lit_sep() + enc_tasks(rest));
        lemma_parse_enc_task(ts[0], s, i);
        let j = i + enc_task(ts[0]).len();
        assert(venc(ts[0].id).len() >= 1);
        assert(enc_task(ts[0]).len() > 0);
        lemma_at_concat(s, j, lit_sep(), enc_tasks(rest));
        let i2 = j + lit_sep().len();
        assert(all_wf(rest)) by {
            assert forall|k: int| 0 <= k < rest.len() implies (#[trigger] rest[k]).wf() by {
                assert(rest[k] == ts[k + 1]);
                assert(ts[k + 1].wf());
            }
        }
        assert(i2 + enc_tasks(rest).len() == i + enc_tasks(ts).len());
        lemma_parse_enc_tasks(rest, s, i2);
        assert(seq![ts[0]] + rest =~= ts);
        assert(parse_tasks_at(s, i) == Some((ts, i + enc_tasks(ts).len())));
    }
}

/// Law (round trip): for any well-formed records with distinct identifiers,
/// parsing the saved document restores exactly those records, every field
/// preserved, timestamps to their stored precision.
pub proof fn lemma_save_load_round_trip(ts: Seq<TaskView>)
    requires
        all_wf(ts),
        ids_unique(ts),
    ensures
        parse_doc(enc_doc(ts)) == Some(ts),
{
    reveal_strlit("[]");
    reveal_strlit("[\n");
    reveal_strlit("\n]");
    reveal_strlit(",\n");
    if ts.len() == 0 {
        assert(parse_doc(enc_doc(ts)) == Some(Seq::<TaskView>::empty()));
        assert(Seq::<TaskView>::empty() =~= ts);
    } else {
        let s = enc_doc(ts);
        assert(s.len() >= 4);
        assert(s != lit_doc_empty()) by {
            assert(lit_doc_empty().len() == 2);
        }
        assert(s.subrange(0, s.len() as int) =~= s);
        assert(at(s, 0, s));
        assert(s =~= lit_doc_open() + (enc_tasks(ts) + lit_doc_close()));
        lemma_at_concat(s, 0, lit_doc_open(), enc_tasks(ts) + lit_doc_close());
        let i0 = lit_doc_open().len() as int;
        lemma_at_concat(s, i0, enc_tasks(ts), lit_doc_close());
        let j = i0 + enc_tasks(ts).len();
        assert(s.subrange(j, j + lit_doc_close().len())[0] == s[j]);
        assert(s[j] == '\n');
        assert(!at(s, j, lit_sep())) by {
            if at(s, j, lit_sep()) {
                assert(s.subrange(j, j + lit_sep().len())[0] == s[j]);
                assert(s[j] == ',');
                assert(false);
            }
        }
        lemma_parse_enc_tasks(ts, s, i0);
        assert(j + lit_doc_close().len() == s.len());
        lemma_dedup_identity(ts);
        assert(parse_doc(s) == Some(ts));
    }
}

// ---------------------------------------------------------------------------
// The executable encoder.
// ---------------------------------------------------------------------------
fn push_lit(out: &mut Vec<char>, l: &str)
    ensures
        final(out)@ == old(out)@ + l@,
{
    let n = l.unicode_len();
    for i in 0..n
        invariant
            n == l@.len(),
            out@ == old(out)@ + l@.subrange(0, i as int),
    {
        out.push(l.get_char(i));
        proof {
            assert(out@ =~= old(out)@ + l@.subrange(0, i as int + 1));
        }
    }
    proof {
        assert(l@.subrange(0, n as int) =~= l@);
    }
}

fn push_value(out: &mut Vec<char>, v: &str)
    ensures
        final(out)@ == old(out)@ + venc(v@),
{
    let cv = chars_of(v);
    push_escaped(out, &cv);
    out.push('"');
    proof {
        assert(out@ =~= old(out)@ + venc(v@));
    }
}

fn push_task_enc(out: &mut Vec<char>, t: &Task)
    ensures
        final(out)@ == old(out)@ + enc_task(t@),
{
    push_lit(out, "  {\n");
    push_lit(out, "    \"id\": \"");
    push_value(out, t.id.as_str());
    push_lit(out, ",\n    \"content\": \"");
    push_value(out, t.content.as_str());
    push_lit(out, ",\n    \"status\": \"");
    let nm = t.status.name();
    push_value(out, nm.as_str());
    push_lit(out, ",\n    \"created_at\": \"");
    push_value(out, t.created_at.as_str());
    push_lit(out, ",\n    \"updated_at\": \"");
    push_value(out, t.updated_at.as_str());
    push_lit(out, "\n  }");
    proof {
        assert(out@ =~= old(out)@ + enc_task(t@));
    }
}

proof fn lemma_enc_tasks_push(pre: Seq<TaskView>, t: TaskView)
    ensures
        enc_tasks(pre.push(t)) == if pre.len() == 0 {
            enc_task(t)
        } else {
            enc_tasks(pre) + lit_sep() + enc_task(t)
        },
    decreases pre.len(),
{
    if pre.len() == 0 {
        assert(pre.push(t).len() == 1);
        assert(pre.push(t)[0] == t);
    } else {
        assert(pre.push(t)[0] == pre[0]);
        assert(pre.push(t).drop_first() =~= pre.drop_first().push(t));
        lemma_enc_tasks_push(pre.drop_first(), t);
        if pre.len() == 1 {
            assert(pre.push(t).len() == 2);
            assert(enc_tasks(pre.push(t)) == enc_task(pre[0]) + lit_sep() + enc_tasks(
                pre.drop_first().push(t),
            ));
            assert(enc_tasks(pre.drop_first().push(t)) == enc_task(t));
            assert(enc_tasks(pre) == enc_task(pre[0]));
        } else {
            assert(enc_tasks(pre.push(t)) =~= enc_tasks(pre) + lit_sep() + enc_task(t));
        }
    }
}

/// Encode a record list as the persisted document.
pub fn encode_doc_string(tasks: &Vec<Task>) -> (r: String)
    ensures
        r@ == enc_doc(tasks.deep_view()),
{
    let mut out: Vec<char> = Vec::new();
    let n = tasks.len();
    if n == 0 {
        out.push('[');
        out.push(']');
        proof {
            reveal_strlit("[]");
            assert(out@ =~= lit_doc_empty());
        }
    } else {
        out.push('[');
        out.push('\n');
        proof {
            reveal_strlit("[\n");
            assert(out@ =~= lit_doc_open());
        }
        for idx in 0..n
            invariant
                n == tasks@.len(),
                out@ == lit_doc_open() + enc_tasks(tasks.deep_view().subrange(0, idx as int)),
        {
            if idx > 0 {
                push_lit(&mut out, ",\n");
            }
            push_task_enc(&mut out, &tasks[idx]);
            proof {
                let dv = tasks.deep_view();
                assert(dv.subrange(0, idx as int).push(dv[idx as int]) =~= dv.subrange(
                    0,
                    idx as int + 1,
                ));
                lemma_enc_tasks_push(dv.subrange(0, idx as int), dv[idx as int]);
                assert(out@ =~= lit_doc_open() + enc_tasks(dv.subrange(0, idx as int + 1)));
            }
        }
        push_lit(&mut out, "\n]");
        proof {
            assert(tasks.deep_view().subrange(0, n as int) =~= tasks.deep_view());
            assert(out@ =~= enc_doc(tasks.deep_view()));
        }
    }
    chars_to_string(&out)
}

// ---------------------------------------------------------------------------
// The executable parser.
// ---------------------------------------------------------------------------
fn at_check(s: &Vec<char>, i: usize, l: &str) -> (r: bool)
    ensures
        r == at(s@, i as int, l@),
{
    let n = l.unicode_len();
    let sn = s.len();
    if i > sn || n > sn - i {
        return false;
    }
    for k in 0..n
        invariant
            n == l@.len(),
            sn == s@.len(),
            i + n <= sn,
            s@.subrange(i as int, i as int + k as int) == l@.subrange(0, k as int),
    {
        if s[i + k] != l.get_char(k) {
            proof {
                if at(s@, i as int, l@) {
                    assert(s@.subrange(i as int, i as int + l@.len())[k as int] == s@[i as int + k
                        as int]);
                    assert(false);
                }
            }
            return false;
        }
        proof {
            assert(s@.subrange(i as int, i as int + k as int + 1) =~= s@.subrange(
                i as int,
                i as int + k as int,
            ).push(s@[i as int + k as int]));
            assert(l@.subrange(0, k as int + 1) =~= l@.subrange(0, k as int).push(l@[k as int]));
        }
    }
    proof {
        assert(s@.subrange(i as int, i as int + n as int) =~= l@) by {
            assert(l@.subrange(0, n as int) =~= l@);
        }
    }
    true
}

spec fn unesc_prepend(pre: Seq<char>, o: Option<(Seq<char>, int)>) -> Option<(Seq<char>, int)> {
    match o {
        None => None,
        Some((v, j)) => Some((pre + v, j)),
    }
}

proof fn lemma_unesc_prepend_assoc(pre: Seq<char>, c: char, o: Option<(Seq<char>, int)>)
    ensures
        unesc_prepend(pre.push(c), o) == unesc_prepend(pre, unesc_prepend(seq![c], o)),
{
    match o {
        None => {
        },
        Some((v, j)) => {
            assert(pre.push(c) + v =~= pre + (seq![c] + v));
        },
    }
}

fn hex_val_exec(c: char) -> (r: Option<u8>)
    ensures
        match r {
            Some(d) => hex_val(c) == d as int && d < 16,
            None => hex_val(c) < 0,
        },
{
    let u = c as u32;
    if 48 <= u && u <= 57 {
        Some((u - 48) as u8)
    } else if 97 <= u && u <= 102 {
        Some((u - 87) as u8)
    } else {
        None
    }
}

fn unesc_exec(s: &Vec<char>, start: usize) -> (r: Option<(Vec<char>, usize)>)
    ensures
        match r {
            Some(p) => unesc(s@, start as int) == Some((p.0@, p.1 as int)) && start < p.1 <= s@.len(),
            None => unesc(s@, start as int) is None,
        },
{
    let mut acc: Vec<char> = Vec::new();
    let mut i = start;
    loop
        invariant
            start <= i,
            unesc_prepend(acc@, unesc(s@, i as int)) == unesc(s@, start as int),
        decreases s@.len() - i,
    {
        if i >= s.len() {
            proof {
                assert(unesc(s@, i as int) is None);
            }
            return None;
        }
        let c = s[i];
        if c == '"' {
            proof {
                assert(unesc(s@, i as int) == Some((Seq::<char>::empty(), i as int + 1)));
                assert(acc@ + Seq::<char>::empty() =~= acc@);
            }
            return Some((acc, i + 1));
        }
        if c == '\\' {
            let c2: char;
            let j: usize;
            if i + 1 < s.len() && s[i + 1] == '"' {
                c2 = '"';
                j = i + 2;
            } else if i + 1 < s.len() && s[i + 1] == '\\' {
                c2 = '\\';
                j = i + 2;
            } else if s.len() - i > 5 && s[i + 1] == 'u' && s[i + 2] == '0' && s[i + 3] == '0' {
                let h1 = match hex_val_exec(s[i + 4]) {
                    Some(d) => d,
                    None => {
                        proof {
                            assert(decode_esc(s@, i as int) is None);
                            assert(unesc(s@, i as int) is None);
                        }
                        return None;
                    },
                };
                let h2 = match hex_val_exec(s[i + 5]) {
                    Some(d) => d,
                    None => {
                        proof {
                            assert(decode_esc(s@, i as int) is None);
                            assert(unesc(s@, i as int) is None);
                        }
                        return None;
                    },
                };
                c2 = (16 * h1 + h2) as char;
                j = i + 6;
                proof {
                    assert(c2 == (((16 * hex_val(s@[i as int + 4]) + hex_val(
                        s@[i as int + 5],
                    )) as u8) as char));
                }
            } else {
                proof {
                    assert(decode_esc(s@, i as int) is None);
                    assert(unesc(s@, i as int) is None);
                }
                return None;
            }
            proof {
                assert(decode_esc(s@, i as int) == Some((c2, j as int)));
                assert(unesc(s@, i as int) == unesc_prepend(seq![c2], unesc(s@, j as int)));
                lemma_unesc_prepend_assoc(acc@, c2, unesc(s@, j as int));
            }
            acc.push(c2);
            i = j;
        } else {
            proof {
                assert(unesc(s@, i as int) == unesc_prepend(
                    seq![s@[i as int]],
                    unesc(s@, i as int + 1),
                ));
                lemma_unesc_prepend_assoc(acc@, c, unesc(s@, i as int + 1));
            }
            acc.push(c);
            i = i + 1;
        }
    }
}

fn parse_value_exec(s: &Vec<char>, i: usize, key: &str) -> (r: Option<(Vec<char>, usize)>)
    ensures
        match r {
            Some(p) => parse_value(s@, i as int, key@) == Some((p.0@, p.1 as int)) && i < p.1
                <= s@.len(),
            None => parse_value(s@, i as int, key@) is None,
        },
{
    if !at_check(s, i, key) {
        return None;
    }
    let kl = key.unicode_len();
    let sn = s.len();
    proof {
        assert(i + kl <= sn);
    }
    unesc_exec(s, i + kl)
}

fn parse_task_exec(s: &Vec<char>, i: usize) -> (r: Option<(Task, usize)>)
    ensures
        match r {
            Some(p) => parse_task_at(s@, i as int) == Some((p.0@, p.1 as int)) && i < p.1
                <= s@.len() && p.0@.wf(),
            None => parse_task_at(s@, i as int) is None,
        },
{
    if !at_check(s, i, "  {\n") {
        return None;
    }
    let ol = "  {\n".unicode_len();
    let sn = s.len();
    proof {
        assert(i + ol <= sn);
    }
    let (idv, i1) = match parse_value_exec(s, i + ol, "    \"id\": \"") {
        Some(p) => p,
        None => {
            return None;
        },
    };
    let (contentv, i2) = match parse_value_exec(s, i1, ",\n    \"content\": \"") {
        Some(p) => p,
        None => {
            return None;
        },
    };
    let (snamev, i3) = match parse_value_exec(s, i2, ",\n    \"status\": \"") {
        Some(p) => p,
        None => {
            return None;
        },
    };
    let st = match status_from_chars(&snamev) {
        Some(st) => st,
        None => {
            return None;
        },
    };
    let (cav, i4) = match parse_value_exec(s, i3, ",\n    \"created_at\": \"") {
        Some(p) => p,
        None => {
            return None;
        },
    };
    let (uav, i5) = match parse_value_exec(s, i4, ",\n    \"updated_at\": \"") {
        Some(p) => p,
        None => {
            return None;
        },
    };
    let cac = match canonicalize_ts(&cav) {
        Some(c) => c,
        None => {
            return None;
        },
    };
    let uac = match canonicalize_ts(&uav) {
        Some(c) => c,
        None => {
            return None;
        },
    };
    let ca_s = chars_to_string(&cac);
    let ua_s = chars_to_string(&uac);
    if !lex_le_str(ca_s.as_str(), ua_s.as_str()) {
        return None;
    }
    if !at_check(s, i5, "\n  }") {
        return None;
    }
    let cl = "\n  }".unicode_len();
    proof {
        assert(i5 + cl <= sn);
    }
    let t = Task {
        id: chars_to_string(&idv),
        content: chars_to_string(&contentv),
        status: st,
        created_at: ca_s,
        updated_at: ua_s,
    };
    Some((t, i5 + cl))
}

spec fn tasks_prepend(pre: Seq<TaskView>, o: Option<(Seq<TaskView>, int)>) -> Option<
    (Seq<TaskView>, int),
> {
    match o {
        None => None,
        Some((v, j)) => Some((pre + v, j)),
    }
}

proof fn lemma_tasks_prepend_assoc(pre: Seq<TaskView>, t: TaskView, o: Option<(Seq<TaskView>, int)>)
    ensures
        tasks_prepend(pre.push(t), o) == tasks_prepend(pre, tasks_prepend(seq![t], o)),
{
    match o {
        None => {
        },
        Some((v, j)) => {
            assert(pre.push(t) + v =~= pre + (seq![t] + v));
        },
    }
}

fn parse_tasks_exec(s: &Vec<char>, start: usize) -> (r: Option<(Vec<Task>, usize)>)
    ensures
        match r {
            Some(p) => parse_tasks_at(s@, start as int) == Some((p.0.deep_view(), p.1 as int))
                && p.1 <= s@.len(),
            None => parse_tasks_at(s@, start as int) is None,
        },
{
    let mut acc: Vec<Task> = Vec::new();
    let mut i = start;
    let sn = s.len();
    proof {
        assert(acc.deep_view() =~= Seq::<TaskView>::empty());
    }
    loop
        invariant
            start <= i,
            sn == s@.len(),
            tasks_prepend(acc.deep_view(), parse_tasks_at(s@, i as int)) == parse_tasks_at(
                s@,
                start as int,
            ),
        decreases s@.len() - i,
    {
        let ghost pre = acc.deep_view();
        let (t, j) = match parse_task_exec(s, i) {
            Some(p) => p,
            None => {
                proof {
                    assert(parse_tasks_at(s@, i as int) is None);
                }
                return None;
            },
        };
        if at_check(s, j, ",\n") {
            proof {
                reveal_strlit(",\n");
                assert(parse_tasks_at(s@, i as int) == tasks_prepend(
                    seq![t@],
                    parse_tasks_at(s@, j as int + 2),
                ));
                lemma_tasks_prepend_assoc(pre, t@, parse_tasks_at(s@, j as int + 2));
                assert(j as int + 2 <= sn as int);
            }
            acc.push(t);
            proof {
                assert(acc.deep_view() =~= pre.push(t@));
            }
            i = j + 2;
        } else {
            proof {
                assert(parse_tasks_at(s@, i as int) == Some((seq![t@], j as int)));
            }
            acc.push(t);
            proof {
                assert(acc.deep_view() =~= pre.push(t@));
                assert(pre.push(t@) =~= pre + seq![t@]);
            }
            return Some((acc, j));
        }
    }
}

fn suffix_has_id(v: &Vec<Task>, from: usize, id: &String) -> (r: bool)
    requires
        from <= v@.len(),
    ensures
        r == contains_id(v.deep_view().skip(from as int), id@),
{
    let n = v.len();
    for j in from..n
        invariant
            n == v@.len(),
            from <= j,
            forall|x: int| from <= x < j ==> (#[trigger] v.deep_view()[x]).id != id@,
    {
        if str_eq(v[j].id.as_str(), id.as_str()) {
            proof {
                let sk = v.deep_view().skip(from as int);
                assert(sk[j - from as int] == v.deep_view()[j as int]);
            }
            return true;
        }
    }
    proof {
        let sk = v.deep_view().skip(from as int);
        if contains_id(sk, id@) {
            let k = choose|k: int| 0 <= k < sk.len() && (#[trigger] sk[k]).id == id@;
            assert(sk[k] == v.deep_view()[from + k]);
            assert(false);
        }
    }
    false
}

/// Keep, for each identifier, only its last record.
fn dedup_last_exec(v: &Vec<Task>) -> (r: Vec<Task>)
    ensures
        r.deep_view() == dedup_last(v.deep_view()),
{
    let n = v.len();
    let mut out: Vec<Task> = Vec::new();
    proof {
        assert(v.deep_view().skip(0) =~= v.deep_view());
        assert(out.deep_view() =~= Seq::<TaskView>::empty());
    }
    for i in 0..n
        invariant
            n == v@.len(),
            dedup_last(v.deep_view()) == out.deep_view() + dedup_last(
                v.deep_view().skip(i as int),
            ),
    {
        let keep = !suffix_has_id(v, i + 1, &v[i].id);
        let ghost dv = v.deep_view();
        let ghost pre = out.deep_view();
        proof {
            assert(dv.skip(i as int)[0] == dv[i as int]);
            assert(dv.skip(i as int).drop_first() =~= dv.skip(i as int + 1));
        }
        if keep {
            out.push(v[i].clone());
            proof {
                assert(out.deep_view() =~= pre.push(dv[i as int]));
                assert(dedup_last(dv.skip(i as int)) == seq![dv[i as int]] + dedup_last(
                    dv.skip(i as int + 1),
                ));
                assert(pre + (seq![dv[i as int]] + dedup_last(dv.skip(i as int + 1)))
                    =~= out.deep_view() + dedup_last(dv.skip(i as int + 1)));
            }
        } else {
            proof {
                assert(dedup_last(dv.skip(i as int)) == dedup_last(dv.skip(i as int + 1)));
            }
        }
    }
    proof {
        assert(v.deep_view().skip(n as int).len() == 0);
        assert(dedup_last(v.deep_view().skip(n as int)) =~= Seq::<TaskView>::empty());
        assert(out.deep_view() + Seq::<TaskView>::empty() =~= out.deep_view());
    }
    out
}

/// Parse a persisted document into records; the result is exactly what the
/// grammar accepts. A repeated identifier is not an error: the later record
/// replaces the earlier one, as a map keyed by identifier would have it.
pub fn parse_doc_string(s: &str) -> (r: Option<Vec<Task>>)
    ensures
        match r {
            Some(v) => parse_doc(s@) == Some(v.deep_view()),
            None => parse_doc(s@) is None,
        },
{
    let cv = chars_of(s);
    if chars_eq_str(&cv, "[]") {
        let out: Vec<Task> = Vec::new();
        proof {
            assert(out.deep_view() =~= Seq::<TaskView>::empty());
        }
        return Some(out);
    }
    if !at_check(&cv, 0, "[\n") {
        return None;
    }
    proof {
        reveal_strlit("[\n");
        assert(lit_doc_open().len() == 2);
    }
    let (tasks, j) = match parse_tasks_exec(&cv, 2) {
        Some(p) => p,
        None => {
            return None;
        },
    };
    proof {
        reveal_strlit("\n]");
        assert(lit_doc_close().len() == 2);
    }
    if !at_check(&cv, j, "\n]") {
        return None;
    }
    if j + 2 != cv.len() {
        return None;
    }
    Some(dedup_last_exec(&tasks))
}

proof fn lemma_parse_tasks_wf(s: Seq<char>, i: int)
    ensures
        match parse_tasks_at(s, i) {
            Some((ts, j)) => all_wf(ts),
            None => true,
        },
    decreases s.len() - i,
{
    if 0 <= i && i <= s.len() {
        match parse_task_at(s, i) {
            None => {
            },
            Some((t, j)) => {
                assert(t.wf());
                if i < j && j + lit_sep().len() <= s.len() && at(s, j, lit_sep()) {
                    lemma_parse_tasks_wf(s, j + lit_sep().len());
                    match parse_tasks_at(s, j + lit_sep().len()) {
                        None => {
                        },
                        Some((ts2, k)) => {
                            assert(all_wf(seq![t] + ts2)) by {
                                assert forall|x: int|
                                    0 <= x < (seq![t] + ts2).len() implies (#[trigger] (seq![t]
                                    + ts2)[x]).wf() by {
                                    if x == 0 {
                                        assert((seq![t] + ts2)[0] == t);
                                    } else {
                                        assert((seq![t] + ts2)[x] == ts2[x - 1]);
                                    }
                                }
                            }
                        },
                    }
                } else if i < j {
                    assert(all_wf(seq![t])) by {
                        assert(seq![t][0] == t);
                    }
                }
            },
        }
    }
}

/// Whatever the document parser accepts is well-formed with distinct
/// identifiers.
pub proof fn lemma_parse_doc_wf(s: Seq<char>)
    ensures
        match parse_doc(s) {
            Some(ts) => all_wf(ts) && ids_unique(ts),
            None => true,
        },
{
    if s == lit_doc_empty() {
    } else if at(s, 0, lit_doc_open()) {
        lemma_parse_tasks_wf(s, lit_doc_open().len() as int);
        match parse_tasks_at(s, lit_doc_open().len() as int) {
            None => {
            },
            Some((ts, j)) => {
                lemma_dedup_wf(ts);
            },
        }
    }
}

} // verus!
