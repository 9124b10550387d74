//! The record model: a task's status, its identifier and content, and its
//! two timestamps. Timestamps are canonical fixed-width RFC 3339 UTC strings
//! (`YYYY-MM-DDTHH:MM:SS.nnnnnnnnnZ`); on that shape, lexicographic order
//! coincides with chronological order.

use vstd::prelude::*;
use vstd::string::StringExecFns;
use vstd::string::StrSliceExecFns;
use crate::text::{
    lex_le, lex_lt, chars_of, chars_eq_str, upper_chars, upper_seq, lemma_lex_le_refl,
    lemma_lex_le_total, lemma_lex_le_trans,
};
use crate::trusted::now_rfc3339;

verus! {

/// Lifecycle stage of a task. Any status may follow any status: the domain
/// is a flat re-labelable tag, not a guarded workflow.
#[derive(Clone, Copy, Debug, PartialEq, Eq, Structural)]
pub enum Status {
    Hold,
    Doing,
    Done,
}

impl Status {
    /// Sort ordinal: HOLD before DOING before DONE.
    pub open spec fn ordinal_spec(self) -> int {
        match self {
            Status::Hold => 0,
            Status::Doing => 1,
            Status::Done => 2,
        }
    }

    pub fn ordinal(&self) -> (r: u8)
        ensures
            r as int == self.ordinal_spec(),
    {
        match self {
            Status::Hold => 0,
            Status::Doing => 1,
            Status::Done => 2,
        }
    }

    /// The canonical upper-case name, as persisted and displayed.
    pub open spec fn name_spec(self) -> Seq<char> {
        match self {
            Status::Hold => "HOLD"@,
            Status::Doing => "DOING"@,
            Status::Done => "DONE"@,
        }
    }

    pub fn name(&self) -> (r: String)
        ensures
            r@ == self.name_spec(),
    {
        match self {
            Status::Hold => String::from_str("HOLD"),
            Status::Doing => String::from_str("DOING"),
            Status::Done => String::from_str("DONE"),
        }
    }
}

/// The status whose canonical name is exactly `v`, if any.
pub open spec fn status_of_name(v: Seq<char>) -> Option<Status> {
    if v == "HOLD"@ {
        Some(Status::Hold)
    } else if v == "DOING"@ {
        Some(Status::Doing)
    } else if v == "DONE"@ {
        Some(Status::Done)
    } else {
        None
    }
}

pub fn status_from_chars(v: &Vec<char>) -> (r: Option<Status>)
    ensures
        r == status_of_name(v@),
{
    if chars_eq_str(v, "HOLD") {
        Some(Status::Hold)
    } else if chars_eq_str(v, "DOING") {
        Some(Status::Doing)
    } else if chars_eq_str(v, "DONE") {
        Some(Status::Done)
    } else {
        None
    }
}

/// Canonical names map back to their status.
pub proof fn lemma_status_name_round_trip(st: Status)
    ensures
        status_of_name(st.name_spec()) == Some(st),
{
    reveal_strlit("HOLD");
    reveal_strlit("DOING");
    reveal_strlit("DONE");
    match st {
        Status::Hold => {
        },
        Status::Doing => {
            assert("DOING"@.len() != "HOLD"@.len());
        },
        Status::Done => {
            assert("DONE"@[0] != "HOLD"@[0]);
            assert("DONE"@.len() != "DOING"@.len());
        },
    }
}

/// Case-insensitive (ASCII) reading of a user-supplied status name.
pub open spec fn status_of_filter(s: Seq<char>) -> Option<Status> {
    status_of_name(upper_seq(s))
}

pub fn parse_status(s: &str) -> (r: Option<Status>)
    ensures
        r == status_of_filter(s@),
{
    let u = upper_chars(s);
    status_from_chars(&u)
}

/// One character is a decimal digit.
pub open spec fn is_digit(c: char) -> bool {
    48 <= c as u32 && c as u32 <= 57
}

/// Canonical timestamp shape: `YYYY-MM-DDTHH:MM:SS.nnnnnnnnnZ`, 30
/// characters, with the month, day, hour, minute and second in range
/// (second 60 admits a leap second; the day respects each month's bound,
/// with February allowed 29 in every year).
pub open spec fn is_ts_shape(s: Seq<char>) -> bool {
    &&& s.len() == 30
    &&& is_digit(s[0]) && is_digit(s[1]) && is_digit(s[2]) && is_digit(s[3])
    &&& s[4] == '-'
    &&& is_digit(s[5]) && is_digit(s[6])
    &&& s[7] == '-'
    &&& is_digit(s[8]) && is_digit(s[9])
    &&& s[10] == 'T'
    &&& is_digit(s[11]) && is_digit(s[12])
    &&& s[13] == ':'
    &&& is_digit(s[14]) && is_digit(s[15])
    &&& s[16] == ':'
    &&& is_digit(s[17]) && is_digit(s[18])
    &&& s[19] == '.'
    &&& is_digit(s[20]) && is_digit(s[21]) && is_digit(s[22]) && is_digit(s[23]) && is_digit(s[24])
    &&& is_digit(s[25]) && is_digit(s[26]) && is_digit(s[27]) && is_digit(s[28])
    &&& s[29] == 'Z'
    &&& (s[5] == '0' || s[5] == '1')
    &&& (s[5] == '0' ==> s[6] != '0')
    &&& (s[5] == '1' ==> (s[6] as u32) <= 50)
    &&& ((s[8] as u32) <= 51)
    &&& (s[8] == '0' ==> s[9] != '0')
    &&& (s[8] == '3' ==> (s[9] as u32) <= 49)
    &&& ((s[11] as u32) <= 50)
    &&& (s[11] == '2' ==> (s[12] as u32) <= 51)
    &&& ((s[14] as u32) <= 53)
    &&& ((s[17] as u32) <= 53 || (s[17] == '6' && s[18] == '0'))
    &&& ((s[5] == '0' && (s[6] == '4' || s[6] == '6' || s[6] == '9')) || (s[5] == '1' && s[6]
        == '1') ==> !(s[8] == '3' && s[9] == '1'))
    &&& (s[5] == '0' && s[6] == '2' ==> s[8] != '3')
}

fn digit_check(c: char) -> (r: bool)
    ensures
        r == is_digit(c),
{
    let u = c as u32;
    48 <= u && u <= 57
}

/// Check the canonical timestamp shape.
pub fn ts_shape_check(v: &Vec<char>) -> (r: bool)
    ensures
        r == is_ts_shape(v@),
{
    if v.len() != 30 {
        return false;
    }
    let mut i: usize = 0;
    while i < 30
        invariant
            v@.len() == 30,
            i <= 30,
            forall|j: int|
                0 <= j < i && j != 4 && j != 7 && j != 10 && j != 13 && j != 16 && j != 19 && j
                    != 29 ==> is_digit(#[trigger] v@[j]),
        decreases 30 - i,
    {
        if i != 4 && i != 7 && i != 10 && i != 13 && i != 16 && i != 19 && i != 29 {
            if !digit_check(v[i]) {
                return false;
            }
        }
        i = i + 1;
    }
    if v[4] != '-' || v[7] != '-' || v[10] != 'T' || v[13] != ':' || v[16] != ':' || v[19] != '.'
        || v[29] != 'Z' {
        return false;
    }
    if !(v[5] == '0' || v[5] == '1') {
        return false;
    }
    if v[5] == '0' && v[6] == '0' {
        return false;
    }
    if v[5] == '1' && (v[6] as u32) > 50 {
        return false;
    }
    if (v[8] as u32) > 51 {
        return false;
    }
    if v[8] == '0' && v[9] == '0' {
        return false;
    }
    if v[8] == '3' && (v[9] as u32) > 49 {
        return false;
    }
    if (v[11] as u32) > 50 {
        return false;
    }
    if v[11] == '2' && (v[12] as u32) > 51 {
        return false;
    }
    if (v[14] as u32) > 53 {
        return false;
    }
    if (v[17] as u32) > 53 && !(v[17] == '6' && v[18] == '0') {
        return false;
    }
    if (v[5] == '0' && (v[6] == '4' || v[6] == '6' || v[6] == '9')) || (v[5] == '1' && v[6] == '1')
    {
        if v[8] == '3' && v[9] == '1' {
            return false;
        }
    }
    if v[5] == '0' && v[6] == '2' && v[8] == '3' {
        return false;
    }
    true
}


/// A zero UTC offset as a stored timestamp may carry it: `Z`, `+00:00` or
/// `-00:00`. (A non-zero offset would need calendar arithmetic to convert
/// and is not accepted.)
pub open spec fn is_zero_offset(r: Seq<char>) -> bool {
    r == "Z"@ || r == "+00:00"@ || r == "-00:00"@
}

/// The number of consecutive digits at position `i`.
pub open spec fn digit_run(r: Seq<char>, i: int) -> int
    decreases r.len() - i,
{
    if 0 <= i < r.len() && is_digit(r[i]) {
        1 + digit_run(r, i + 1)
    } else {
        0
    }
}

proof fn lemma_digit_run_val(r: Seq<char>, i: int, cnt: int)
    requires
        0 <= i,
        0 <= cnt,
        i + cnt <= r.len(),
        forall|k: int| i <= k < i + cnt ==> is_digit(#[trigger] r[k]),
        i + cnt == r.len() || !is_digit(r[i + cnt]),
    ensures
        digit_run(r, i) == cnt,
    decreases cnt,
{
    if cnt > 0 {
        lemma_digit_run_val(r, i + 1, cnt - 1);
    }
}

/// The canonical nine-digit fraction held in a timestamp tail — an optional
/// `.` with one to nine digits, then a zero offset — if the tail has that
/// form.
#[verifier::opaque]
pub open spec fn canon_fraction(r: Seq<char>) -> Option<Seq<char>> {
    if r.len() > 0 && r[0] == '.' {
        let fl = digit_run(r, 1);
        if 1 <= fl <= 9 && is_zero_offset(r.skip(1 + fl)) {
            Some(Seq::new(9, |k: int| if k < fl {
                r[1 + k]
            } else {
                '0'
            }))
        } else {
            None
        }
    } else if is_zero_offset(r) {
        Some(Seq::new(9, |k: int| '0'))
    } else {
        None
    }
}

/// A stored timestamp in flexible form — any sub-second precision up to
/// nine digits and a zero offset — rewritten to the canonical shape, if it
/// is a valid instant.
pub open spec fn canon_ts(v: Seq<char>) -> Option<Seq<char>> {
    if v.len() >= 19 {
        match canon_fraction(v.skip(19)) {
            None => None,
            Some(frac) => {
                let c = v.subrange(0, 19) + seq!['.'] + frac + seq!['Z'];
                if is_ts_shape(c) {
                    Some(c)
                } else {
                    None
                }
            },
        }
    } else {
        None
    }
}

/// A timestamp already in canonical shape canonicalizes to itself.
pub proof fn lemma_canon_ts_identity(c: Seq<char>)
    requires
        is_ts_shape(c),
    ensures
        canon_ts(c) == Some(c),
{
    reveal(canon_fraction);
    reveal_strlit("Z");
    let r = c.skip(19);
    assert(r.len() == 11);
    assert(r[0] == c[19]);
    assert forall|k: int| 1 <= k < 10 implies is_digit(#[trigger] r[k]) by {
        assert(r[k] == c[19 + k]);
    }
    assert(r[10] == c[29]);
    assert(!is_digit(r[10]));
    lemma_digit_run_val(r, 1, 9);
    assert(r.skip(10) =~= "Z"@) by {
        assert(r.skip(10).len() == 1);
        assert(r.skip(10)[0] == c[29]);
    }
    let frac = Seq::new(9, |k: int| if k < 9 {
        r[1 + k]
    } else {
        '0'
    });
    assert(canon_fraction(r) == Some(frac));
    assert(c.subrange(0, 19) + seq!['.'] + frac + seq!['Z'] =~= c);
}

fn tail_eq(v: &Vec<char>, from: usize, l: &str) -> (r: bool)
    requires
        from <= v@.len(),
    ensures
        r == (v@.skip(from as int) == l@),
{
    let n = l.unicode_len();
    let vn = v.len();
    if vn - from != n {
        proof {
            assert(v@.skip(from as int).len() != l@.len());
        }
        return false;
    }
    for k in 0..n
        invariant
            n == l@.len(),
            vn == v@.len(),
            from + n == vn,
            forall|x: int| 0 <= x < k ==> v@[from + x] == l@[x],
    {
        if v[from + k] != l.get_char(k) {
            proof {
                if v@.skip(from as int) == l@ {
                    assert(v@.skip(from as int)[k as int] == v@[from + k]);
                    assert(false);
                }
            }
            return false;
        }
    }
    proof {
        assert(v@.skip(from as int) =~= l@) by {
            assert forall|x: int| 0 <= x < n implies v@.skip(from as int)[x] == l@[x] by {
                assert(v@.skip(from as int)[x] == v@[from + x]);
            }
        }
    }
    true
}

/// Rewrite a flexible stored timestamp to the canonical shape, validating it.
pub fn canonicalize_ts(v: &Vec<char>) -> (r: Option<Vec<char>>)
    ensures
        match r {
            Some(c) => canon_ts(v@) == Some(c@),
            None => canon_ts(v@) is None,
        },
{
    proof {
        reveal(canon_fraction);
    }
    let n = v.len();
    if n < 19 {
        return None;
    }
    let ghost rtail = v@.skip(19);
    let off: usize;
    let fl: usize;
    if n > 19 && v[19] == '.' {
        let mut p: usize = 20;
        loop
            invariant_except_break
                20 <= p <= n,
                n == v@.len(),
                forall|x: int| 20 <= x < p ==> is_digit(#[trigger] v@[x]),
            ensures
                20 <= p <= n,
                n == v@.len(),
                forall|x: int| 20 <= x < p ==> is_digit(#[trigger] v@[x]),
                p == n || !is_digit(v@[p as int]),
            decreases n - p,
        {
            if p == n {
                break;
            }
            if !digit_check(v[p]) {
                break;
            }
            p = p + 1;
        }
        fl = p - 20;
        off = p;
        proof {
            assert(rtail[0] == v@[19]);
            assert forall|k: int| 1 <= k < 1 + fl implies is_digit(#[trigger] rtail[k]) by {
                assert(rtail[k] == v@[19 + k]);
            }
            if 1 + fl < rtail.len() {
                assert(rtail[1 + fl] == v@[19 + 1 + fl]);
            }
            lemma_digit_run_val(rtail, 1, fl as int);
        }
        if fl < 1 || fl > 9 {
            return None;
        }
    } else {
        fl = 0;
        off = 19;
        proof {
            if rtail.len() > 0 {
                assert(rtail[0] == v@[19]);
            }
        }
    }
    let zok = tail_eq(v, off, "Z") || tail_eq(v, off, "+00:00") || tail_eq(v, off, "-00:00");
    proof {
        assert(v@.skip(off as int) =~= rtail.skip(off - 19));
    }
    if !zok {
        return None;
    }
    let mut out: Vec<char> = Vec::new();
    for i in 0..19usize
        invariant
            n == v@.len(),
            n >= 19,
            out@ == v@.subrange(0, i as int),
    {
        out.push(v[i]);
        proof {
            assert(out@ =~= v@.subrange(0, i as int + 1));
        }
    }
    out.push('.');
    let ghost frac = Seq::new(9, |k: int| if k < fl {
        v@[20 + k]
    } else {
        '0'
    });
    for k in 0..9usize
        invariant
            n == v@.len(),
            fl <= 9,
            off == if fl == 0 {
                19int
            } else {
                20 + fl
            },
            off <= n,
            frac == Seq::new(9, |x: int| if x < fl {
                v@[20 + x]
            } else {
                '0'
            }),
            out@ == v@.subrange(0, 19) + seq!['.'] + frac.subrange(0, k as int),
    {
        let c: char = if k < fl {
            v[20 + k]
        } else {
            '0'
        };
        out.push(c);
        proof {
            assert(frac.subrange(0, k as int + 1) =~= frac.subrange(0, k as int).push(
                frac[k as int],
            ));
            assert(out@ =~= v@.subrange(0, 19) + seq!['.'] + frac.subrange(0, k as int + 1));
        }
    }
    out.push('Z');
    proof {
        assert(frac.subrange(0, 9) =~= frac);
        assert(out@ =~= v@.subrange(0, 19) + seq!['.'] + frac + seq!['Z']);
        if fl == 0 {
            assert(canon_fraction(rtail) == Some(frac)) by {
                assert(is_zero_offset(rtail));
                assert(Seq::new(9, |k: int| '0') =~= frac);
            }
        } else {
            assert(canon_fraction(rtail) == Some(frac)) by {
                assert(rtail.skip(1 + fl) =~= v@.skip(off as int));
                assert(is_zero_offset(rtail.skip(1 + fl)));
                assert(Seq::new(9, |k: int| if k < fl as int {
                    rtail[1 + k]
                } else {
                    '0'
                }) =~= frac) by {
                    assert forall|k: int| 0 <= k < fl implies #[trigger] rtail[1 + k] == v@[20
                        + k] by {
                    }
                }
            }
        }
    }
    if ts_shape_check(&out) {
        Some(out)
    } else {
        None
    }
}

/// The Unix epoch instant in canonical shape: the fallback should the host
/// clock ever render outside the canonical shape (a year beyond 9999).
fn epoch_timestamp() -> (r: String)
    ensures
        is_ts_shape(r@),
{
    let r = String::from_str("1970-01-01T00:00:00.000000000Z");
    proof {
        reveal_strlit("1970-01-01T00:00:00.000000000Z");
    }
    r
}

/// The current instant as a canonical timestamp. The clock is read through
/// the trusted chrono wrapper and the shape is validated here; an
/// out-of-shape reading falls back to the epoch.
pub fn now_timestamp() -> (r: String)
    ensures
        is_ts_shape(r@),
{
    let s = now_rfc3339();
    let v = chars_of(s.as_str());
    if ts_shape_check(&v) {
        s
    } else {
        epoch_timestamp()
    }
}

/// The mathematical model of a task record.
pub ghost struct TaskView {
    pub id: Seq<char>,
    pub content: Seq<char>,
    pub status: Status,
    pub created_at: Seq<char>,
    pub updated_at: Seq<char>,
}

impl TaskView {
    /// Well-formedness: both timestamps canonical, and a task is never
    /// updated before it was created.
    pub open spec fn wf(self) -> bool {
        &&& is_ts_shape(self.created_at)
        &&& is_ts_shape(self.updated_at)
        &&& lex_le(self.created_at, self.updated_at)
    }
}

/// A task record.
#[derive(Debug)]
pub struct Task {
    pub id: String,
    pub content: String,
    pub status: Status,
    pub created_at: String,
    pub updated_at: String,
}

impl View for Task {
    type V = TaskView;

    open spec fn view(&self) -> TaskView {
        TaskView {
            id: self.id@,
            content: self.content@,
            status: self.status,
            created_at: self.created_at@,
            updated_at: self.updated_at@,
        }
    }
}

impl DeepView for Task {
    type V = TaskView;

    open spec fn deep_view(&self) -> TaskView {
        self@
    }
}

impl Clone for Task {
    fn clone(&self) -> (r: Self)
        ensures
            r == *self,
    {
        Task {
            id: self.id.clone(),
            content: self.content.clone(),
            status: self.status,
            created_at: self.created_at.clone(),
            updated_at: self.updated_at.clone(),
        }
    }
}

/// The model of a status transition: the status is replaced and
/// `updated_at` becomes the given clock reading, clamped so that it never
/// falls back behind the previous `updated_at` (and so never behind
/// `created_at` either, which the record invariant places no later).
pub open spec fn transition_view(t: TaskView, status: Status, now: Seq<char>) -> TaskView {
    TaskView {
        id: t.id,
        content: t.content,
        status,
        created_at: t.created_at,
        updated_at: if lex_le(t.updated_at, now) {
            now
        } else {
            t.updated_at
        },
    }
}

impl Task {
    /// Construct a task: fresh id and content from the caller, status HOLD,
    /// both timestamps the given clock reading.
    pub fn new_task(id: String, content: String, now: String) -> (t: Task)
        requires
            is_ts_shape(now@),
        ensures
            t@ == (TaskView {
                id: id@,
                content: content@,
                status: Status::Hold,
                created_at: now@,
                updated_at: now@,
            }),
            t@.wf(),
    {
        proof {
            lemma_lex_le_refl(now@);
        }
        let created = now.clone();
        Task { id, content, status: Status::Hold, created_at: created, updated_at: now }
    }

    /// Apply a status transition with the given clock reading; `updated_at`
    /// never moves backwards, whatever the clock reads.
    pub fn transition(&mut self, status: Status, now: &String)
        requires
            is_ts_shape(now@),
            old(self)@.wf(),
        ensures
            final(self)@ == transition_view(old(self)@, status, now@),
            lex_le(old(self)@.updated_at, final(self)@.updated_at),
            final(self)@.wf(),
    {
        self.status = status;
        if crate::text::lex_le_str(self.updated_at.as_str(), now.as_str()) {
            proof {
                lemma_lex_le_trans(self.created_at@, self.updated_at@, now@);
            }
            self.updated_at = now.clone();
        } else {
            proof {
                lemma_lex_le_refl(self.updated_at@);
            }
        }
    }
}

/// All records in a sequence are well-formed.
pub open spec fn all_wf(s: Seq<TaskView>) -> bool {
    forall|i: int| 0 <= i < s.len() ==> (#[trigger] s[i]).wf()
}

/// Identifiers are pairwise distinct.
pub open spec fn ids_unique(s: Seq<TaskView>) -> bool {
    forall|i: int, j: int| 0 <= i < j < s.len() ==> (#[trigger] s[i]).id != (#[trigger] s[j]).id
}

/// A record stands in the sequence under an identifier.
pub open spec fn contains_id(s: Seq<TaskView>, id: Seq<char>) -> bool {
    exists|k: int| 0 <= k < s.len() && (#[trigger] s[k]).id == id
}

/// Law: a status transition sets the requested status, leaves the identity,
/// content and creation time unchanged, and keeps `created_at <= updated_at`;
/// whenever the clock reads later than the previous `updated_at`, the new
/// `updated_at` is strictly later than the old one. (With a clock that did
/// not advance past the previous update the strict increase cannot hold and
/// is not claimed.)
pub proof fn lemma_status_transition(t: TaskView, status: Status, now: Seq<char>)
    requires
        t.wf(),
        is_ts_shape(now),
        lex_lt(t.updated_at, now),
    ensures
        ({
            let t2 = transition_view(t, status, now);
            &&& t2.status == status
            &&& t2.id == t.id
            &&& t2.content == t.content
            &&& t2.created_at == t.created_at
            &&& t2.updated_at == now
            &&& lex_le(t2.created_at, t2.updated_at)
            &&& lex_lt(t.updated_at, t2.updated_at)
            &&& t2.wf()
        }),
{
    lemma_lex_le_total(t.updated_at, now);
    lemma_lex_le_trans(t.created_at, t.updated_at, now);
}

/// Law: whatever the clock reads, a status transition never moves
/// `updated_at` backwards, keeps `created_at <= updated_at`, and changes
/// nothing but the status and `updated_at`.
pub proof fn lemma_transition_never_regresses(t: TaskView, status: Status, now: Seq<char>)
    requires
        t.wf(),
        is_ts_shape(now),
    ensures
        ({
            let t2 = transition_view(t, status, now);
            &&& t2.status == status
            &&& t2.id == t.id
            &&& t2.content == t.content
            &&& t2.created_at == t.created_at
            &&& lex_le(t.updated_at, t2.updated_at)
            &&& t2.wf()
        }),
{
    if lex_le(t.updated_at, now) {
        lemma_lex_le_trans(t.created_at, t.updated_at, now);
    } else {
        lemma_lex_le_refl(t.updated_at);
    }
}

} // verus!
