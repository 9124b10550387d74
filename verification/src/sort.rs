//! Stable multi-field sorting. The specification is an insertion sort that
//! places each record after its equals, so the order of records that compare
//! equal is the order in which they arrived; the executable sort is proved
//! to return exactly that sequence.

use vstd::prelude::*;
use crate::task::{Task, TaskView};
use crate::text::{lex_le, lex_le_str, lemma_lex_le_total, lemma_lex_le_trans};

verus! {

/// The five sort keys.
#[derive(Clone, Copy, Debug, PartialEq, Eq, Structural)]
pub enum SortKey {
    Id,
    Content,
    Status,
    Created,
    Updated,
}

/// Ascending comparison under one key.
pub open spec fn base_le(key: SortKey, a: TaskView, b: TaskView) -> bool {
    match key {
        SortKey::Id => lex_le(a.id, b.id),
        SortKey::Content => lex_le(a.content, b.content),
        SortKey::Status => a.status.ordinal_spec() <= b.status.ordinal_spec(),
        SortKey::Created => lex_le(a.created_at, b.created_at),
        SortKey::Updated => lex_le(a.updated_at, b.updated_at),
    }
}

/// The comparison the sort runs under: descending flips the operands.
pub open spec fn key_le(key: SortKey, desc: bool, a: TaskView, b: TaskView) -> bool {
    if desc {
        base_le(key, b, a)
    } else {
        base_le(key, a, b)
    }
}

/// Stable insertion into a sorted run: the new record moves left only past
/// records strictly greater than it.
pub open spec fn insert_sorted(s: Seq<TaskView>, x: TaskView, key: SortKey, desc: bool) -> Seq<
    TaskView,
>
    decreases s.len(),
{
    if s.len() == 0 {
        seq![x]
    } else if key_le(key, desc, s.last(), x) {
        s.push(x)
    } else {
        insert_sorted(s.drop_last(), x, key, desc).push(s.last())
    }
}

/// The stable sort of a record sequence under a key and direction.
pub open spec fn sort_spec(s: Seq<TaskView>, key: SortKey, desc: bool) -> Seq<TaskView>
    decreases s.len(),
{
    if s.len() == 0 {
        Seq::empty()
    } else {
        insert_sorted(sort_spec(s.drop_last(), key, desc), s.last(), key, desc)
    }
}

fn key_le_exec(key: SortKey, desc: bool, a: &Task, b: &Task) -> (r: bool)
    ensures
        r == key_le(key, desc, a@, b@),
{
    let (x, y) = if desc {
        (b, a)
    } else {
        (a, b)
    };
    match key {
        SortKey::Id => lex_le_str(x.id.as_str(), y.id.as_str()),
        SortKey::Content => lex_le_str(x.content.as_str(), y.content.as_str()),
        SortKey::Status => x.status.ordinal() <= y.status.ordinal(),
        SortKey::Created => lex_le_str(x.created_at.as_str(), y.created_at.as_str()),
        SortKey::Updated => lex_le_str(x.updated_at.as_str(), y.updated_at.as_str()),
    }
}

proof fn lemma_insert_sorted_at(s: Seq<TaskView>, x: TaskView, key: SortKey, desc: bool, j: int)
    requires
        0 <= j <= s.len(),
        forall|k: int| j <= k < s.len() ==> !key_le(key, desc, #[trigger] s[k], x),
        j > 0 ==> key_le(key, desc, s[j - 1], x),
    ensures
        insert_sorted(s, x, key, desc) == s.subrange(0, j).push(x) + s.subrange(j, s.len() as int),
    decreases s.len(),
{
    if j == s.len() {
        if s.len() == 0 {
            assert(insert_sorted(s, x, key, desc) =~= s.subrange(0, j).push(x) + s.subrange(
                j,
                s.len() as int,
            ));
        } else {
            assert(s[j - 1] == s.last());
            assert(insert_sorted(s, x, key, desc) == s.push(x));
            assert(s.push(x) =~= s.subrange(0, j).push(x) + s.subrange(j, s.len() as int));
        }
    } else {
        assert(s[s.len() - 1] == s.last());
        assert(!key_le(key, desc, s.last(), x));
        let d = s.drop_last();
        assert(forall|k: int| j <= k < d.len() ==> !key_le(key, desc, #[trigger] d[k], x)) by {
            assert(forall|k: int| 0 <= k < d.len() ==> #[trigger] d[k] == s[k]);
        }
        if j > 0 {
            assert(d[j - 1] == s[j - 1]);
        }
        lemma_insert_sorted_at(d, x, key, desc, j);
        assert(insert_sorted(s, x, key, desc) == insert_sorted(d, x, key, desc).push(s.last()));
        assert((d.subrange(0, j).push(x) + d.subrange(j, d.len() as int)).push(s.last()) =~= s
            .subrange(0, j).push(x) + s.subrange(j, s.len() as int));
    }
}

/// Sort records under a key, ascending or descending; the result is exactly
/// the stable sort of the input.
pub fn sort_tasks(v: &Vec<Task>, key: SortKey, desc: bool) -> (r: Vec<Task>)
    ensures
        r.deep_view() == sort_spec(v.deep_view(), key, desc),
{
    let mut out: Vec<Task> = Vec::new();
    let n = v.len();
    proof {
        assert(out.deep_view() =~= sort_spec(v.deep_view().subrange(0, 0), key, desc));
    }
    for i in 0..n
        invariant
            n == v@.len(),
            out@.len() == i,
            out.deep_view() == sort_spec(v.deep_view().subrange(0, i as int), key, desc),
    {
        let t = v[i].clone();
        let ghost pre = out.deep_view();
        let mut j = out.len();
        loop
            invariant_except_break
                j <= out@.len(),
                forall|k: int|
                    j <= k < out@.len() ==> !key_le(key, desc, #[trigger] out.deep_view()[k], t@),
            ensures
                j <= out@.len(),
                forall|k: int|
                    j <= k < out@.len() ==> !key_le(key, desc, #[trigger] out.deep_view()[k], t@),
                j > 0 ==> key_le(key, desc, out.deep_view()[j - 1], t@),
            decreases j,
        {
            if j == 0 {
                break;
            }
            if key_le_exec(key, desc, &out[j - 1], &t) {
                break;
            }
            j = j - 1;
        }
        proof {
            lemma_insert_sorted_at(pre, t@, key, desc, j as int);
        }
        out.insert(j, t);
        proof {
            let dvw = v.deep_view();
            assert(dvw.subrange(0, i as int + 1).drop_last() =~= dvw.subrange(0, i as int));
            assert(dvw.subrange(0, i as int + 1).last() == dvw[i as int]);
            assert(out.deep_view() =~= pre.subrange(0, j as int).push(t@) + pre.subrange(
                j as int,
                pre.len() as int,
            ));
            assert(out.deep_view() =~= sort_spec(dvw.subrange(0, i as int + 1), key, desc));
        }
    }
    proof {
        assert(v.deep_view().subrange(0, n as int) =~= v.deep_view());
    }
    out
}

/// The sort key whose lower-case name is exactly `v`, if any.
pub open spec fn sort_key_of_name(v: Seq<char>) -> Option<SortKey> {
    if v == "id"@ {
        Some(SortKey::Id)
    } else if v == "content"@ {
        Some(SortKey::Content)
    } else if v == "status"@ {
        Some(SortKey::Status)
    } else if v == "created"@ {
        Some(SortKey::Created)
    } else if v == "updated"@ {
        Some(SortKey::Updated)
    } else {
        None
    }
}

/// Case-insensitive (ASCII) reading of a user-supplied sort field name;
/// an unrecognized name is reported as `None`.
pub fn parse_sort_field(s: &str) -> (r: Option<SortKey>)
    ensures
        r == sort_key_of_name(crate::text::lower_seq(s@)),
{
    let lo = crate::text::lower_chars(s);
    if crate::text::chars_eq_str(&lo, "id") {
        Some(SortKey::Id)
    } else if crate::text::chars_eq_str(&lo, "content") {
        Some(SortKey::Content)
    } else if crate::text::chars_eq_str(&lo, "status") {
        Some(SortKey::Status)
    } else if crate::text::chars_eq_str(&lo, "created") {
        Some(SortKey::Created)
    } else if crate::text::chars_eq_str(&lo, "updated") {
        Some(SortKey::Updated)
    } else {
        None
    }
}

proof fn lemma_insert_sorted_multiset(s: Seq<TaskView>, x: TaskView, key: SortKey, desc: bool)
    ensures
        insert_sorted(s, x, key, desc).to_multiset() == s.to_multiset().insert(x),
    decreases s.len(),
{
    broadcast use vstd::seq_lib::group_to_multiset_ensures;

    if s.len() == 0 {
        assert(seq![x] =~= Seq::<TaskView>::empty().push(x));
        assert(insert_sorted(s, x, key, desc).to_multiset() =~= s.to_multiset().insert(x));
    } else if key_le(key, desc, s.last(), x) {
        assert(insert_sorted(s, x, key, desc).to_multiset() =~= s.to_multiset().insert(x));
    } else {
        let d = s.drop_last();
        lemma_insert_sorted_multiset(d, x, key, desc);
        assert(s =~= d.push(s.last()));
        assert(s.to_multiset() =~= d.to_multiset().insert(s.last()));
        assert(insert_sorted(s, x, key, desc).to_multiset() =~= d.to_multiset().insert(x).insert(
            s.last(),
        ));
        assert(d.to_multiset().insert(x).insert(s.last()) =~= d.to_multiset().insert(
            s.last(),
        ).insert(x));
    }
}

/// Law (sorting permutes): the sorted sequence holds exactly the records of
/// the input, with multiplicity.
pub proof fn lemma_sort_spec_multiset(s: Seq<TaskView>, key: SortKey, desc: bool)
    ensures
        sort_spec(s, key, desc).to_multiset() == s.to_multiset(),
    decreases s.len(),
{
    broadcast use vstd::seq_lib::group_to_multiset_ensures;

    if s.len() > 0 {
        let d = s.drop_last();
        lemma_sort_spec_multiset(d, key, desc);
        lemma_insert_sorted_multiset(sort_spec(d, key, desc), s.last(), key, desc);
        assert(s =~= d.push(s.last()));
        assert(s.to_multiset() =~= d.to_multiset().insert(s.last()));
    }
}

/// Sorting neither adds nor loses any record.
pub proof fn lemma_sort_spec_contains(s: Seq<TaskView>, key: SortKey, desc: bool, t: TaskView)
    ensures
        sort_spec(s, key, desc).contains(t) <==> s.contains(t),
{
    broadcast use vstd::seq_lib::group_to_multiset_ensures;

    lemma_sort_spec_multiset(s, key, desc);
    assert(sort_spec(s, key, desc).contains(t) <==> sort_spec(s, key, desc).to_multiset().count(t)
        > 0);
    assert(s.contains(t) <==> s.to_multiset().count(t) > 0);
}

/// A sequence is sorted under the chosen comparison.
pub open spec fn sorted_by_key(s: Seq<TaskView>, key: SortKey, desc: bool) -> bool {
    forall|x: int, y: int|
        0 <= x < y < s.len() ==> key_le(key, desc, #[trigger] s[x], #[trigger] s[y])
}

/// The comparison is total.
proof fn lemma_key_le_total(key: SortKey, desc: bool, a: TaskView, b: TaskView)
    ensures
        key_le(key, desc, a, b) || key_le(key, desc, b, a),
{
    match key {
        SortKey::Id => lemma_lex_le_total(a.id, b.id),
        SortKey::Content => lemma_lex_le_total(a.content, b.content),
        SortKey::Status => {
        },
        SortKey::Created => lemma_lex_le_total(a.created_at, b.created_at),
        SortKey::Updated => lemma_lex_le_total(a.updated_at, b.updated_at),
    }
}

/// The comparison is transitive.
proof fn lemma_key_le_trans(key: SortKey, desc: bool, a: TaskView, b: TaskView, c: TaskView)
    requires
        key_le(key, desc, a, b),
        key_le(key, desc, b, c),
    ensures
        key_le(key, desc, a, c),
{
    match key {
        SortKey::Id => if desc {
            lemma_lex_le_trans(c.id, b.id, a.id);
        } else {
            lemma_lex_le_trans(a.id, b.id, c.id);
        },
        SortKey::Content => if desc {
            lemma_lex_le_trans(c.content, b.content, a.content);
        } else {
            lemma_lex_le_trans(a.content, b.content, c.content);
        },
        SortKey::Status => {
        },
        SortKey::Created => if desc {
            lemma_lex_le_trans(c.created_at, b.created_at, a.created_at);
        } else {
            lemma_lex_le_trans(a.created_at, b.created_at, c.created_at);
        },
        SortKey::Updated => if desc {
            lemma_lex_le_trans(c.updated_at, b.updated_at, a.updated_at);
        } else {
            lemma_lex_le_trans(a.updated_at, b.updated_at, c.updated_at);
        },
    }
}

/// Every record of a stable insertion stands in the run it was built from,
/// or is the inserted one.
proof fn lemma_insert_sorted_elem(s: Seq<TaskView>, x: TaskView, key: SortKey, desc: bool, i: int)
    requires
        0 <= i < insert_sorted(s, x, key, desc).len(),
    ensures
        insert_sorted(s, x, key, desc)[i] == x || s.contains(insert_sorted(s, x, key, desc)[i]),
    decreases s.len(),
{
    let r = insert_sorted(s, x, key, desc);
    if s.len() == 0 {
    } else if key_le(key, desc, s.last(), x) {
        if i < s.len() {
            assert(r[i] == s[i]);
        }
    } else {
        let d = s.drop_last();
        if i < r.len() - 1 {
            lemma_insert_sorted_elem(d, x, key, desc, i);
            if d.contains(r[i]) {
                let j = choose|j: int| 0 <= j < d.len() && d[j] == r[i];
                assert(s[j] == r[i]);
            }
        } else {
            assert(r[i] == s.last());
            assert(s[s.len() - 1] == s.last());
        }
    }
}

proof fn lemma_insert_sorted_sorted(s: Seq<TaskView>, x: TaskView, key: SortKey, desc: bool)
    requires
        sorted_by_key(s, key, desc),
    ensures
        sorted_by_key(insert_sorted(s, x, key, desc), key, desc),
    decreases s.len(),
{
    let r = insert_sorted(s, x, key, desc);
    if s.len() == 0 {
    } else if key_le(key, desc, s.last(), x) {
        assert forall|a: int, b: int| 0 <= a < b < r.len() implies key_le(
            key,
            desc,
            #[trigger] r[a],
            #[trigger] r[b],
        ) by {
            if b == r.len() - 1 {
                assert(r[a] == s[a]);
                if a < s.len() - 1 {
                    assert(key_le(key, desc, s[a], s[s.len() - 1]));
                    lemma_key_le_trans(key, desc, s[a], s.last(), x);
                } else {
                    assert(s[a] == s.last());
                }
            } else {
                assert(r[a] == s[a] && r[b] == s[b]);
            }
        }
    } else {
        let d = s.drop_last();
        assert(sorted_by_key(d, key, desc)) by {
            assert(forall|a: int| 0 <= a < d.len() ==> #[trigger] d[a] == s[a]);
        }
        lemma_insert_sorted_sorted(d, x, key, desc);
        let rd = insert_sorted(d, x, key, desc);
        lemma_key_le_total(key, desc, s.last(), x);
        assert(key_le(key, desc, x, s.last()));
        assert forall|a: int, b: int| 0 <= a < b < r.len() implies key_le(
            key,
            desc,
            #[trigger] r[a],
            #[trigger] r[b],
        ) by {
            if b == r.len() - 1 {
                assert(r[b] == s.last());
                assert(r[a] == rd[a]);
                lemma_insert_sorted_elem(d, x, key, desc, a);
                if rd[a] == x {
                } else {
                    let j = choose|j: int| 0 <= j < d.len() && d[j] == rd[a];
                    assert(s[j] == rd[a]);
                    if j < s.len() - 1 {
                        assert(key_le(key, desc, s[j], s[s.len() - 1]));
                    } else {
                        assert(s[j] == s.last());
                    }
                    assert(s[s.len() - 1] == s.last());
                }
            } else {
                assert(r[a] == rd[a] && r[b] == rd[b]);
            }
        }
    }
}

/// Law (sort order): the sorted sequence is ordered under the requested key
/// and direction.
pub proof fn lemma_sort_spec_sorted(s: Seq<TaskView>, key: SortKey, desc: bool)
    ensures
        sorted_by_key(sort_spec(s, key, desc), key, desc),
    decreases s.len(),
{
    if s.len() > 0 {
        lemma_sort_spec_sorted(s.drop_last(), key, desc);
        lemma_insert_sorted_sorted(sort_spec(s.drop_last(), key, desc), s.last(), key, desc);
    }
}

} // verus!
