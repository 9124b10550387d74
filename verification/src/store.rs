//! The task store: the owning collection of records with unique identifiers,
//! the persistence entry points, and the query operations (filter, plain and
//! regex search, stable sort), each with an exact contract.

use vstd::prelude::*;
use vstd::string::StringExecFns;
use crate::task::{
    Task, TaskView, Status, all_wf, ids_unique, contains_id, now_timestamp, transition_view,
    is_ts_shape,
};
use crate::sort::{SortKey, sort_spec, sort_tasks};
use crate::codec::{enc_doc, parse_doc, encode_doc_string, parse_doc_string};
use crate::text::{is_substring, str_eq, contains_chars, chars_of};
use crate::trusted::{lowercase, lower_of, regex_match, regex_compiles, regex_matches,
    chars_to_string};

verus! {

/// A record passes the filter: no filter admits everything, a status filter
/// admits exactly that status.
pub open spec fn status_matches(t: TaskView, f: Option<Status>) -> bool {
    match f {
        None => true,
        Some(st) => t.status == st,
    }
}

/// The records a clear keeps: those the filter does not admit.
pub open spec fn keeps(f: Option<Status>) -> spec_fn(TaskView) -> bool {
    |t: TaskView| !status_matches(t, f)
}

/// The records a status query admits.
pub open spec fn admits(f: Option<Status>) -> spec_fn(TaskView) -> bool {
    |t: TaskView| status_matches(t, f)
}

/// The records a case-insensitive plain search admits.
pub open spec fn plain_pred(p: Seq<char>) -> spec_fn(TaskView) -> bool {
    |t: TaskView| is_substring(lower_of(t.content), lower_of(p))
}

/// The records a regex search admits.
pub open spec fn regex_pred(p: Seq<char>) -> spec_fn(TaskView) -> bool {
    |t: TaskView| regex_matches(p, t.content)
}

/// A character of a generated identifier: `A`-`Z` or `0`-`9`.
pub open spec fn is_id_char(c: char) -> bool {
    (65 <= c as u32 && c as u32 <= 90) || (48 <= c as u32 && c as u32 <= 57)
}

/// A generated identifier: at least six characters, each from `A`-`Z` and
/// `0`-`9`. Six is the normal length; a longer token appears only through
/// the collision fallback of `add`.
pub open spec fn is_generated_id(s: Seq<char>) -> bool {
    s.len() >= 6 && (forall|i: int| 0 <= i < s.len() ==> is_id_char(#[trigger] s[i]))
}

/// A freshly constructed record: given identifier and content, status HOLD,
/// both timestamps equal.
pub open spec fn is_new_task(t: TaskView, id: Seq<char>, content: Seq<char>) -> bool {
    &&& t.id == id
    &&& t.content == content
    &&& t.status == Status::Hold
    &&& t.created_at == t.updated_at
    &&& t.wf()
}

/// The store: all live records. Iteration order is insertion order; queries
/// order their output explicitly.
pub struct Store {
    pub tasks: Vec<Task>,
}

impl View for Store {
    type V = Seq<TaskView>;

    open spec fn view(&self) -> Seq<TaskView> {
        self.tasks.deep_view()
    }
}

impl Store {
    /// Invariant: identifiers pairwise distinct, every record well-formed.
    pub open spec fn wf(self) -> bool {
        all_wf(self@) && ids_unique(self@)
    }

    /// An empty store.
    pub fn new() -> (s: Store)
        ensures
            s@ == Seq::<TaskView>::empty(),
            s.wf(),
    {
        let s = Store { tasks: Vec::new() };
        proof {
            assert(s@ =~= Seq::<TaskView>::empty());
        }
        s
    }

    /// The position of the record with the given identifier, if any.
    pub fn find_index(&self, id: &str) -> (r: Option<usize>)
        ensures
            match r {
                Some(k) => k < self@.len() && self@[k as int].id == id@,
                None => !contains_id(self@, id@),
            },
    {
        let n = self.tasks.len();
        for k in 0..n
            invariant
                n == self.tasks@.len(),
                forall|x: int| 0 <= x < k ==> (#[trigger] self@[x]).id != id@,
        {
            if str_eq(self.tasks[k].id.as_str(), id) {
                return Some(k);
            }
        }
        None
    }

    /// A fresh random identifier: `len` characters from `A`-`Z` and `0`-`9`.
    fn random_id(len: usize) -> (r: String)
        ensures
            r@.len() == len,
            forall|i: int| 0 <= i < r@.len() ==> is_id_char(#[trigger] r@[i]),
    {
        let mut v: Vec<char> = Vec::new();
        for i in 0..len
            invariant
                v@.len() == i,
                forall|j: int| 0 <= j < i ==> is_id_char(#[trigger] v@[j]),
        {
            let x: u64 = rand::random::<u64>();
            let idx = (x % 36) as u8;
            let c: char = if idx < 26 {
                (65 + idx) as char
            } else {
                (48 + (idx - 26)) as char
            };
            proof {
                assert(is_id_char(c));
            }
            v.push(c);
        }
        chars_to_string(&v)
    }

    /// Add a task: a fresh random identifier, the given content, status HOLD,
    /// both timestamps the current instant. A colliding six-character
    /// identifier is redrawn up to a retry budget; should every draw collide,
    /// a longer token is drawn — one character longer than every resident
    /// identifier, so it cannot collide. The overwrite branch of the contract
    /// remains only for the unattainable corner in which a resident
    /// identifier already has the machine's maximum length. Returns the new
    /// identifier.
    pub fn add(&mut self, content: String) -> (id: String)
        requires
            old(self).wf(),
            old(self)@.len() < usize::MAX,
        ensures
            final(self).wf(),
            is_generated_id(id@),
            !contains_id(old(self)@, id@) ==> final(self)@ == old(self)@.push(
                final(self)@.last(),
            ) && is_new_task(final(self)@.last(), id@, content@),
            contains_id(old(self)@, id@) ==> exists|k: int|
                0 <= k < old(self)@.len() && (#[trigger] old(self)@[k]).id == id@ && final(self)@
                    == old(self)@.update(k, final(self)@[k]) && is_new_task(
                    final(self)@[k],
                    id@,
                    content@,
                ),
    {
        let now = now_timestamp();
        let mut id = Self::random_id(6);
        let mut fresh = self.find_index(id.as_str()).is_none();
        let mut attempts: usize = 0;
        while !fresh && attempts < 64
            invariant
                is_generated_id(id@),
            decreases 64 - attempts,
        {
            id = Self::random_id(6);
            fresh = self.find_index(id.as_str()).is_none();
            attempts = attempts + 1;
        }
        if self.find_index(id.as_str()).is_some() {
            // every draw collided: fall back to a token longer than every
            // resident identifier, which no resident identifier can equal
            let n = self.tasks.len();
            let mut m: usize = 6;
            for i in 0..n
                invariant
                    n == self.tasks@.len(),
                    m >= 6,
                    forall|x: int| 0 <= x < i ==> (#[trigger] self@[x]).id.len() <= m as int,
            {
                let l = self.tasks[i].id.as_str().unicode_len();
                if l > m {
                    m = l;
                }
            }
            if m < usize::MAX {
                id = Self::random_id(m + 1);
                proof {
                    if contains_id(self@, id@) {
                        let k = choose|k: int|
                            0 <= k < self@.len() && (#[trigger] self@[k]).id == id@;
                        assert(self@[k].id.len() <= m as int);
                        assert(false);
                    }
                }
            }
        }
        let ret = id.clone();
        match self.find_index(id.as_str()) {
            None => {
                let t = Task::new_task(id, content, now);
                let ghost pre = self@;
                self.tasks.push(t);
                proof {
                    assert(self@ =~= pre.push(t@));
                    assert(final(self).wf()) by {
                        assert(forall|x: int|
                            0 <= x < pre.len() ==> (#[trigger] self@[x]) == pre[x]);
                        assert(self@[pre.len() as int] == t@);
                        if !ids_unique(self@) {
                            let (a, b) = choose|a: int, b: int|
                                0 <= a < b < self@.len() && (#[trigger] self@[a]).id == (
                                #[trigger] self@[b]).id;
                            if b == pre.len() {
                                assert(contains_id(pre, id@));
                            }
                            assert(false);
                        }
                    }
                }
                ret
            },
            Some(k) => {
                let t = Task::new_task(id, content, now);
                let ghost pre = self@;
                let _ = self.tasks.remove(k);
                self.tasks.insert(k, t);
                proof {
                    assert(self@ =~= pre.update(k as int, t@));
                    assert(final(self).wf()) by {
                        assert(forall|x: int|
                            0 <= x < self@.len() && x != k ==> (#[trigger] self@[x]) == pre[x]);
                        assert(self@[k as int] == t@);
                        assert(t@.id == pre[k as int].id);
                    }
                }
                ret
            },
        }
    }

    /// Set the status of the record with the given identifier, refreshing
    /// `updated_at` from the clock; reports whether the record was found,
    /// and touches nothing when it was not.
    pub fn update_status(&mut self, id: &str, status: Status) -> (r: bool)
        requires
            old(self).wf(),
        ensures
            final(self).wf(),
            r == contains_id(old(self)@, id@),
            !r ==> final(self)@ == old(self)@,
            r ==> exists|k: int, n: Seq<char>|
                0 <= k < old(self)@.len() && old(self)@[k].id == id@ && is_ts_shape(n)
                    && crate::text::lex_le(old(self)@[k].updated_at, final(self)@[k].updated_at)
                    && final(self)@ == #[trigger] old(self)@.update(
                    k,
                    transition_view(old(self)@[k], status, n),
                ),
    {
        match self.find_index(id) {
            None => false,
            Some(k) => {
                let now = now_timestamp();
                let mut t = self.tasks[k].clone();
                proof {
                    assert(t@ == self@[k as int]);
                    assert(t@.wf());
                }
                t.transition(status, &now);
                let ghost pre = self@;
                let _ = self.tasks.remove(k);
                self.tasks.insert(k, t);
                proof {
                    assert(self@ =~= pre.update(k as int, t@));
                    assert(final(self).wf()) by {
                        assert(forall|x: int|
                            0 <= x < self@.len() && x != k ==> (#[trigger] self@[x]) == pre[x]);
                        assert(self@[k as int] == t@);
                        assert(t@.id == pre[k as int].id);
                    }
                    assert(pre[k as int].id == id@ && is_ts_shape(now@) && self@ == pre.update(
                        k as int,
                        transition_view(pre[k as int], status, now@),
                    ));
                }
                true
            },
        }
    }

    /// Remove the record with the given identifier, returning its content;
    /// reports not-found by `None` and then touches nothing.
    pub fn delete(&mut self, id: &str) -> (r: Option<String>)
        requires
            old(self).wf(),
        ensures
            final(self).wf(),
            r is Some == contains_id(old(self)@, id@),
            r is None ==> final(self)@ == old(self)@,
            match r {
                Some(content) => exists|k: int|
                    0 <= k < old(self)@.len() && (#[trigger] old(self)@[k]).id == id@ && content@
                        == old(self)@[k].content && final(self)@ == old(self)@.remove(k),
                None => true,
            },
    {
        match self.find_index(id) {
            None => None,
            Some(k) => {
                let ghost pre = self@;
                let t = self.tasks.remove(k);
                proof {
                    assert(self@ =~= pre.remove(k as int));
                    assert(final(self).wf()) by {
                        assert(forall|x: int|
                            0 <= x < self@.len() ==> (#[trigger] self@[x]) == if x < k {
                                pre[x]
                            } else {
                                pre[x + 1]
                            });
                    }
                }
                Some(t.content)
            },
        }
    }

    /// Remove every record the filter admits — all of them when there is no
    /// filter — and keep the rest in order.
    pub fn clear_by_filter(&mut self, f: Option<Status>)
        requires
            old(self).wf(),
        ensures
            final(self).wf(),
            final(self)@ == old(self)@.filter(keeps(f)),
    {
        let n = self.tasks.len();
        let mut kept: Vec<Task> = Vec::new();
        proof {
            reveal(Seq::filter);
            assert(kept.deep_view() =~= self@.subrange(0, 0).filter(keeps(f)));
        }
        for i in 0..n
            invariant
                n == self.tasks@.len(),
                kept.deep_view() == self@.subrange(0, i as int).filter(keeps(f)),
        {
            let keep = match f {
                None => false,
                Some(st) => self.tasks[i].status != st,
            };
            proof {
                assert(keep == keeps(f)(self@[i as int]));
            }
            let ghost pre = kept.deep_view();
            if keep {
                kept.push(self.tasks[i].clone());
                proof {
                    assert(kept.deep_view() =~= pre.push(self@[i as int]));
                }
            }
            proof {
                reveal(Seq::filter);
                assert(self@.subrange(0, i as int + 1).drop_last() =~= self@.subrange(0, i as int));
                assert(self@.subrange(0, i as int + 1).last() == self@[i as int]);
                assert(kept.deep_view() == self@.subrange(0, i as int + 1).filter(keeps(f)));
            }
        }
        let ghost orig = self@;
        self.tasks = kept;
        proof {
            assert(orig.subrange(0, n as int) =~= orig);
            lemma_filter_keeps_wf(orig, keeps(f));
        }
    }

    /// The records the filter admits, ordered by creation time (stable, so
    /// records created at the same instant keep insertion order).
    pub fn filter_by_status(&self, f: Option<Status>) -> (r: Vec<Task>)
        ensures
            r.deep_view() == sort_spec(self@.filter(admits(f)), SortKey::Created, false),
    {
        let n = self.tasks.len();
        let mut picked: Vec<Task> = Vec::new();
        proof {
            reveal(Seq::filter);
            assert(picked.deep_view() =~= self@.subrange(0, 0).filter(admits(f)));
        }
        for i in 0..n
            invariant
                n == self.tasks@.len(),
                picked.deep_view() == self@.subrange(0, i as int).filter(admits(f)),
        {
            let keep = match f {
                None => true,
                Some(st) => self.tasks[i].status == st,
            };
            proof {
                assert(keep == admits(f)(self@[i as int]));
            }
            let ghost pre = picked.deep_view();
            if keep {
                picked.push(self.tasks[i].clone());
                proof {
                    assert(picked.deep_view() =~= pre.push(self@[i as int]));
                }
            }
            proof {
                reveal(Seq::filter);
                assert(self@.subrange(0, i as int + 1).drop_last() =~= self@.subrange(0, i as int));
                assert(self@.subrange(0, i as int + 1).last() == self@[i as int]);
                assert(picked.deep_view() == self@.subrange(0, i as int + 1).filter(admits(f)));
            }
        }
        proof {
            assert(self@.subrange(0, n as int) =~= self@);
        }
        sort_tasks(&picked, SortKey::Created, false)
    }

    /// Case-insensitive plain-text search over content, ordered by creation
    /// time. Case folding is Unicode's, through the trusted wrapper.
    pub fn search_plain(&self, pattern: &str) -> (r: Vec<Task>)
        ensures
            r.deep_view() == sort_spec(
                self@.filter(plain_pred(pattern@)),
                SortKey::Created,
                false,
            ),
    {
        let lp = lowercase(pattern);
        let lpv = chars_of(lp.as_str());
        let n = self.tasks.len();
        let mut picked: Vec<Task> = Vec::new();
        proof {
            reveal(Seq::filter);
            assert(picked.deep_view() =~= self@.subrange(0, 0).filter(plain_pred(pattern@)));
        }
        for i in 0..n
            invariant
                n == self.tasks@.len(),
                lpv@ == lower_of(pattern@),
                picked.deep_view() == self@.subrange(0, i as int).filter(plain_pred(pattern@)),
        {
            let lc = lowercase(self.tasks[i].content.as_str());
            let lcv = chars_of(lc.as_str());
            let keep = contains_chars(&lcv, &lpv);
            proof {
                assert(keep == plain_pred(pattern@)(self@[i as int]));
            }
            let ghost pre = picked.deep_view();
            if keep {
                picked.push(self.tasks[i].clone());
                proof {
                    assert(picked.deep_view() =~= pre.push(self@[i as int]));
                }
            }
            proof {
                reveal(Seq::filter);
                assert(self@.subrange(0, i as int + 1).drop_last() =~= self@.subrange(0, i as int));
                assert(self@.subrange(0, i as int + 1).last() == self@[i as int]);
                assert(picked.deep_view() == self@.subrange(0, i as int + 1).filter(
                    plain_pred(pattern@),
                ));
            }
        }
        proof {
            assert(self@.subrange(0, n as int) =~= self@);
        }
        sort_tasks(&picked, SortKey::Created, false)
    }

    /// Regular-expression search over content, ordered by creation time.
    /// An invalid pattern is reported as `Err` with the engine's message,
    /// and nothing is changed; on an empty store there is nothing to match,
    /// and the pattern is not examined.
    pub fn search_regex(&self, pattern: &str) -> (r: Result<Vec<Task>, String>)
        ensures
            self@.len() == 0 ==> r is Ok,
            self@.len() > 0 ==> (r is Ok <==> regex_compiles(pattern@)),
            match r {
                Ok(v) => v.deep_view() == sort_spec(
                    self@.filter(regex_pred(pattern@)),
                    SortKey::Created,
                    false,
                ),
                Err(_) => true,
            },
    {
        let n = self.tasks.len();
        let mut picked: Vec<Task> = Vec::new();
        proof {
            reveal(Seq::filter);
            assert(picked.deep_view() =~= self@.subrange(0, 0).filter(regex_pred(pattern@)));
        }
        for i in 0..n
            invariant
                n == self.tasks@.len(),
                picked.deep_view() == self@.subrange(0, i as int).filter(regex_pred(pattern@)),
                i > 0 ==> regex_compiles(pattern@),
        {
            let keep = match regex_match(pattern, self.tasks[i].content.as_str()) {
                Ok(b) => b,
                Err(e) => {
                    return Err(e);
                },
            };
            proof {
                assert(keep == regex_pred(pattern@)(self@[i as int]));
            }
            let ghost pre = picked.deep_view();
            if keep {
                picked.push(self.tasks[i].clone());
                proof {
                    assert(picked.deep_view() =~= pre.push(self@[i as int]));
                }
            }
            proof {
                reveal(Seq::filter);
                assert(self@.subrange(0, i as int + 1).drop_last() =~= self@.subrange(0, i as int));
                assert(self@.subrange(0, i as int + 1).last() == self@[i as int]);
                assert(picked.deep_view() == self@.subrange(0, i as int + 1).filter(
                    regex_pred(pattern@),
                ));
            }
        }
        proof {
            assert(self@.subrange(0, n as int) =~= self@);
        }
        Ok(sort_tasks(&picked, SortKey::Created, false))
    }

    /// All records sorted under the requested key and direction; the sort is
    /// stable over insertion order.
    pub fn sorted(&self, key: SortKey, desc: bool) -> (r: Vec<Task>)
        ensures
            r.deep_view() == sort_spec(self@, key, desc),
    {
        sort_tasks(&self.tasks, key, desc)
    }

    /// Serialize the whole store as the persisted document.
    pub fn save_to_string(&self) -> (r: String)
        ensures
            r@ == enc_doc(self@),
    {
        encode_doc_string(&self.tasks)
    }

    /// Read a store back from a persisted document. Exactly the documents
    /// the grammar accepts load; anything else is a fatal parse error. A
    /// repeated identifier is not a parse failure: the later record replaces
    /// the earlier one, as insertion into a map keyed by identifier has it.
    pub fn load_from_string(s: &str) -> (r: Result<Store, String>)
        ensures
            match r {
                Ok(st) => parse_doc(s@) == Some(st@) && st.wf(),
                Err(_) => parse_doc(s@) is None,
            },
    {
        match parse_doc_string(s) {
            Some(tasks) => {
                let st = Store { tasks };
                proof {
                    assert(st.wf()) by {
                        crate::codec::lemma_parse_doc_wf(s@);
                    }
                }
                Ok(st)
            },
            None => Err(String::from_str("could not parse the task file")),
        }
    }
}

/// Every element a filter keeps stands somewhere in the original sequence.
proof fn lemma_filter_membership(s: Seq<TaskView>, pred: spec_fn(TaskView) -> bool)
    ensures
        forall|x: int|
            0 <= x < s.filter(pred).len() ==> exists|j: int|
                0 <= j < s.len() && #[trigger] s.filter(pred)[x] == s[j],
    decreases s.len(),
{
    reveal(Seq::filter);
    if s.len() > 0 {
        let d = s.drop_last();
        lemma_filter_membership(d, pred);
        assert forall|x: int|
            0 <= x < s.filter(pred).len() implies exists|j: int|
            0 <= j < s.len() && #[trigger] s.filter(pred)[x] == s[j] by {
            if pred(s.last()) && x == s.filter(pred).len() - 1 {
                assert(s.filter(pred)[x] == s[s.len() - 1]);
            } else {
                assert(s.filter(pred)[x] == d.filter(pred)[x]);
                let j = choose|j: int| 0 <= j < d.len() && #[trigger] d.filter(pred)[x] == d[j];
                assert(s.filter(pred)[x] == s[j]);
            }
        }
    }
}

/// Filtering keeps well-formedness and identifier uniqueness.
proof fn lemma_filter_keeps_wf(s: Seq<TaskView>, pred: spec_fn(TaskView) -> bool)
    requires
        all_wf(s),
        ids_unique(s),
    ensures
        all_wf(s.filter(pred)),
        ids_unique(s.filter(pred)),
{
    lemma_filter_membership(s, pred);
    let out = s.filter(pred);
    assert forall|x: int| 0 <= x < out.len() implies (#[trigger] out[x]).wf() by {
        let j = choose|j: int| 0 <= j < s.len() && #[trigger] s.filter(pred)[x] == s[j];
        assert(s[j].wf());
    }
    assert forall|x: int, y: int|
        0 <= x < y < out.len() implies (#[trigger] out[x]).id != (#[trigger] out[y]).id by {
        let jx = choose|j: int| 0 <= j < s.len() && #[trigger] s.filter(pred)[x] == s[j];
        let jy = choose|j: int| 0 <= j < s.len() && #[trigger] s.filter(pred)[y] == s[j];
        if jx == jy {
            lemma_filter_distinct_positions(s, pred, x, y);
        } else if jx < jy {
            assert(s[jx].id != s[jy].id);
        } else {
            assert(s[jy].id != s[jx].id);
        }
    }
}

/// Two positions of a filtered sequence come from two positions of the
/// original, in order.
proof fn lemma_filter_distinct_positions(
    s: Seq<TaskView>,
    pred: spec_fn(TaskView) -> bool,
    x: int,
    y: int,
)
    requires
        0 <= x < y < s.filter(pred).len(),
    ensures
        exists|jx: int, jy: int|
            0 <= jx < jy < s.len() && #[trigger] s.filter(pred)[x] == s[jx]
                && #[trigger] s.filter(pred)[y] == s[jy],
    decreases s.len(),
{
    reveal(Seq::filter);
    let d = s.drop_last();
    if pred(s.last()) && y == s.filter(pred).len() - 1 {
        lemma_filter_membership(d, pred);
        assert(s.filter(pred)[x] == d.filter(pred)[x]);
        let jx = choose|j: int| 0 <= j < d.len() && #[trigger] d.filter(pred)[x] == d[j];
        assert(s.filter(pred)[x] == s[jx] && s.filter(pred)[y] == s[s.len() - 1]);
    } else {
        lemma_filter_distinct_positions(d, pred, x, y);
        let (jx, jy) = choose|jx: int, jy: int|
            0 <= jx < jy < d.len() && #[trigger] d.filter(pred)[x] == d[jx]
                && #[trigger] d.filter(pred)[y] == d[jy];
        assert(s.filter(pred)[x] == s[jx] && s.filter(pred)[y] == s[jy]);
    }
}

/// Law (idempotent clear): clearing with no filter empties the store, and
/// clearing an empty store again succeeds and leaves it empty.
pub proof fn lemma_clear_all_idempotent(s: Seq<TaskView>)
    ensures
        s.filter(keeps(None::<Status>)).len() == 0,
        s.filter(keeps(None::<Status>)).filter(keeps(None::<Status>)).len() == 0,
    decreases s.len(),
{
    reveal(Seq::filter);
    if s.len() > 0 {
        lemma_clear_all_idempotent(s.drop_last());
        assert(!keeps(None::<Status>)(s.last()));
    }
    assert(s.filter(keeps(None::<Status>)).len() == 0);
    assert(s.filter(keeps(None::<Status>)).filter(keeps(None::<Status>)).len() == 0);
}


/// Law (id uniqueness): inserting a record under an identifier not yet
/// present keeps all identifiers pairwise distinct and grows the store by
/// exactly one record — no insertion under a fresh identifier overwrites an
/// unrelated record. (Which identifiers are fresh is up to the generator's
/// draw; after an unbroken run of colliding draws the documented fallback of
/// `add` overwrites the colliding entry instead, and uniqueness still holds.)
pub proof fn lemma_add_keeps_ids_unique(s: Seq<TaskView>, t: TaskView)
    requires
        ids_unique(s),
        !contains_id(s, t.id),
    ensures
        ids_unique(s.push(t)),
        s.push(t).len() == s.len() + 1,
{
    let r = s.push(t);
    assert forall|a: int, b: int|
        0 <= a < b < r.len() implies (#[trigger] r[a]).id != (#[trigger] r[b]).id by {
        if b == s.len() {
            assert(r[a] == s[a]);
            if s[a].id == t.id {
                assert(contains_id(s, t.id));
            }
        } else {
            assert(r[a] == s[a] && r[b] == s[b]);
        }
    }
}


/// Law: removing the record that stands under an identifier leaves no
/// record under that identifier, so it can no longer be shown or found.
pub proof fn lemma_delete_removes_id(s: Seq<TaskView>, k: int)
    requires
        ids_unique(s),
        0 <= k < s.len(),
    ensures
        !contains_id(s.remove(k), s[k].id),
{
    let r = s.remove(k);
    if contains_id(r, s[k].id) {
        let j = choose|j: int| 0 <= j < r.len() && (#[trigger] r[j]).id == s[k].id;
        if j < k {
            assert(r[j] == s[j]);
        } else {
            assert(r[j] == s[j + 1]);
        }
        assert(false);
    }
}

/// Law (filter correctness): the status query returns a record exactly when
/// it stands in the store and its status passes the filter; no record of the
/// complement is returned.
pub proof fn lemma_filter_by_status_exact(s: Seq<TaskView>, f: Option<Status>, t: TaskView)
    ensures
        sort_spec(s.filter(admits(f)), SortKey::Created, false).contains(t) <==> (s.contains(t)
            && status_matches(t, f)),
{
    crate::sort::lemma_sort_spec_contains(s.filter(admits(f)), SortKey::Created, false, t);
    let picked = s.filter(admits(f));
    if picked.contains(t) {
        let i = choose|i: int| 0 <= i < picked.len() && picked[i] == t;
        s.lemma_filter_pred(admits(f), i);
        lemma_filter_membership(s, admits(f));
        let j = choose|j: int| 0 <= j < s.len() && #[trigger] s.filter(admits(f))[i] == s[j];
        assert(s[j] == t);
        assert(s.contains(t));
    }
    if s.contains(t) && status_matches(t, f) {
        let i = choose|i: int| 0 <= i < s.len() && s[i] == t;
        assert(admits(f)(s[i]));
        s.lemma_filter_contains(admits(f), i);
    }
}

} // verus!
