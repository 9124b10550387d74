//! Character-sequence helpers: lexicographic order, substring search and
//! ASCII case mapping, with exact specifications.

use vstd::prelude::*;
use vstd::string::StrSliceExecFns;

verus! {

/// Lexicographic order on character sequences by Unicode scalar value.
/// On canonical fixed-width timestamps it coincides with chronological order,
/// and on any two strings with the order of Rust's `str` comparison.
pub open spec fn lex_le(a: Seq<char>, b: Seq<char>) -> bool
    decreases a.len(),
{
    if a.len() == 0 {
        true
    } else if b.len() == 0 {
        false
    } else if (a[0] as u32) < (b[0] as u32) {
        true
    } else if (a[0] as u32) > (b[0] as u32) {
        false
    } else {
        lex_le(a.drop_first(), b.drop_first())
    }
}

/// Strict lexicographic order.
pub open spec fn lex_lt(a: Seq<char>, b: Seq<char>) -> bool {
    !lex_le(b, a)
}

pub proof fn lemma_lex_le_refl(a: Seq<char>)
    ensures
        lex_le(a, a),
    decreases a.len(),
{
    if a.len() > 0 {
        lemma_lex_le_refl(a.drop_first());
    }
}

pub proof fn lemma_lex_le_total(a: Seq<char>, b: Seq<char>)
    ensures
        lex_le(a, b) || lex_le(b, a),
    decreases a.len(),
{
    if a.len() > 0 && b.len() > 0 && (a[0] as u32) == (b[0] as u32) {
        lemma_lex_le_total(a.drop_first(), b.drop_first());
    }
}

pub proof fn lemma_lex_le_trans(a: Seq<char>, b: Seq<char>, c: Seq<char>)
    requires
        lex_le(a, b),
        lex_le(b, c),
    ensures
        lex_le(a, c),
    decreases a.len(),
{
    if a.len() > 0 && b.len() > 0 && c.len() > 0 {
        if (a[0] as u32) == (b[0] as u32) && (b[0] as u32) == (c[0] as u32) {
            lemma_lex_le_trans(a.drop_first(), b.drop_first(), c.drop_first());
        }
    }
}

/// Compare two strings lexicographically by character.
pub fn lex_le_str(a: &str, b: &str) -> (r: bool)
    ensures
        r == lex_le(a@, b@),
{
    let alen = a.unicode_len();
    let blen = b.unicode_len();
    let mut i: usize = 0;
    proof {
        assert(a@.skip(0) =~= a@);
        assert(b@.skip(0) =~= b@);
    }
    loop
        invariant
            i <= alen,
            i <= blen,
            alen == a@.len(),
            blen == b@.len(),
            lex_le(a@, b@) == lex_le(a@.skip(i as int), b@.skip(i as int)),
        decreases alen - i,
    {
        if i == alen {
            proof {
                assert(a@.skip(i as int).len() == 0);
            }
            return true;
        }
        if i == blen {
            proof {
                assert(b@.skip(i as int).len() == 0);
                assert(a@.skip(i as int).len() > 0);
            }
            return false;
        }
        let ca = a.get_char(i);
        let cb = b.get_char(i);
        proof {
            assert(a@.skip(i as int)[0] == a@[i as int]);
            assert(b@.skip(i as int)[0] == b@[i as int]);
            assert(a@.skip(i as int).drop_first() =~= a@.skip(i as int + 1));
            assert(b@.skip(i as int).drop_first() =~= b@.skip(i as int + 1));
        }
        if (ca as u32) < (cb as u32) {
            return true;
        }
        if (ca as u32) > (cb as u32) {
            return false;
        }
        i = i + 1;
    }
}

/// The characters of a string, in order.
pub fn chars_of(s: &str) -> (r: Vec<char>)
    ensures
        r@ == s@,
{
    let n = s.unicode_len();
    let mut v: Vec<char> = Vec::new();
    for i in 0..n
        invariant
            n == s@.len(),
            v@ == s@.subrange(0, i as int),
    {
        v.push(s.get_char(i));
        proof {
            assert(v@ =~= s@.subrange(0, i as int + 1));
        }
    }
    proof {
        assert(v@ =~= s@);
    }
    v
}

/// `needle` occurs contiguously in `hay`.
pub open spec fn is_substring(hay: Seq<char>, needle: Seq<char>) -> bool {
    exists|k: int|
        0 <= k && k + needle.len() <= hay.len() && #[trigger] hay.subrange(k, k + needle.len())
            == needle
}

/// Substring search, specified exactly.
pub fn contains_chars(hay: &Vec<char>, needle: &Vec<char>) -> (r: bool)
    ensures
        r == is_substring(hay@, needle@),
{
    let hn = hay.len();
    let nn = needle.len();
    if nn > hn {
        proof {
            if is_substring(hay@, needle@) {
                let k0 = choose|k0: int|
                    0 <= k0 && k0 + needle@.len() <= hay@.len() && #[trigger] hay@.subrange(
                        k0,
                        k0 + needle@.len(),
                    ) == needle@;
                assert(false);
            }
        }
        return false;
    }
    let mut k: usize = 0;
    loop
        invariant
            nn <= hn,
            k <= hn - nn + 1,
            hn == hay@.len(),
            nn == needle@.len(),
            forall|k0: int|
                0 <= k0 < k ==> #[trigger] hay@.subrange(k0, k0 + needle@.len()) != needle@,
        decreases hn - nn + 1 - k,
    {
        if k > hn - nn {
            proof {
                assert(forall|k0: int|
                    0 <= k0 && k0 + needle@.len() <= hay@.len() ==> #[trigger] hay@.subrange(
                        k0,
                        k0 + needle@.len(),
                    ) != needle@);
            }
            return false;
        }
        let mut j: usize = 0;
        let mut mismatch = false;
        proof {
            assert(hay@.subrange(k as int, k as int) =~= needle@.subrange(0, 0));
        }
        while j < nn
            invariant
                j <= nn,
                k + nn <= hn,
                hn == hay@.len(),
                nn == needle@.len(),
                !mismatch ==> hay@.subrange(k as int, k as int + j as int) == needle@.subrange(
                    0,
                    j as int,
                ),
                mismatch ==> hay@.subrange(k as int, k as int + nn as int) != needle@,
            decreases nn - j,
        {
            if hay[k + j] != needle[j] {
                proof {
                    let full = hay@.subrange(k as int, k as int + nn as int);
                    assert(full[j as int] == hay@[k as int + j as int]);
                    assert(full != needle@);
                }
                mismatch = true;
                j = nn;
            } else {
                proof {
                    assert(hay@.subrange(k as int, k as int + j as int + 1) =~= hay@.subrange(
                        k as int,
                        k as int + j as int,
                    ).push(hay@[k as int + j as int]));
                    assert(needle@.subrange(0, j as int + 1) =~= needle@.subrange(0, j as int).push(
                        needle@[j as int],
                    ));
                }
                j = j + 1;
            }
        }
        if !mismatch {
            proof {
                assert(needle@.subrange(0, nn as int) =~= needle@);
            }
            return true;
        }
        proof {
            assert(nn > 0) by {
                if nn == 0 {
                    assert(hay@.subrange(k as int, k as int) =~= needle@);
                }
            }
        }
        k = k + 1;
    }
}

/// Equality of two strings.
pub fn str_eq(a: &str, b: &str) -> (r: bool)
    ensures
        r == (a@ == b@),
{
    let va = chars_of(a);
    chars_eq_str(&va, b)
}

/// ASCII upper-casing of one character; other characters are unchanged.
pub open spec fn ascii_upper(c: char) -> char {
    if 97 <= c as u32 && c as u32 <= 122 {
        (((c as u32) - 32) as u8) as char
    } else {
        c
    }
}

/// ASCII upper-casing of a sequence.
pub open spec fn upper_seq(s: Seq<char>) -> Seq<char> {
    s.map_values(|c: char| ascii_upper(c))
}

/// ASCII lower-casing of one character; other characters are unchanged.
pub open spec fn ascii_lower(c: char) -> char {
    if 65 <= c as u32 && c as u32 <= 90 {
        (((c as u32) + 32) as u8) as char
    } else {
        c
    }
}

/// ASCII lower-casing of a sequence.
pub open spec fn lower_seq(s: Seq<char>) -> Seq<char> {
    s.map_values(|c: char| ascii_lower(c))
}

/// ASCII upper-case a string's characters.
pub fn upper_chars(s: &str) -> (r: Vec<char>)
    ensures
        r@ == upper_seq(s@),
{
    let n = s.unicode_len();
    let mut v: Vec<char> = Vec::new();
    for i in 0..n
        invariant
            n == s@.len(),
            v@ == upper_seq(s@.subrange(0, i as int)),
    {
        let c = s.get_char(i);
        let u = c as u32;
        let up: char = if 97 <= u && u <= 122 {
            ((u - 32) as u8) as char
        } else {
            c
        };
        v.push(up);
        proof {
            assert(v@ =~= upper_seq(s@.subrange(0, i as int + 1)));
        }
    }
    proof {
        assert(s@.subrange(0, s@.len() as int) =~= s@);
    }
    v
}

/// ASCII lower-case a string's characters.
pub fn lower_chars(s: &str) -> (r: Vec<char>)
    ensures
        r@ == lower_seq(s@),
{
    let n = s.unicode_len();
    let mut v: Vec<char> = Vec::new();
    for i in 0..n
        invariant
            n == s@.len(),
            v@ == lower_seq(s@.subrange(0, i as int)),
    {
        let c = s.get_char(i);
        let u = c as u32;
        let lo: char = if 65 <= u && u <= 90 {
            ((u + 32) as u8) as char
        } else {
            c
        };
        v.push(lo);
        proof {
            assert(v@ =~= lower_seq(s@.subrange(0, i as int + 1)));
        }
    }
    proof {
        assert(s@.subrange(0, s@.len() as int) =~= s@);
    }
    v
}

/// Equality of a character vector and a string.
pub fn chars_eq_str(v: &Vec<char>, s: &str) -> (r: bool)
    ensures
        r == (v@ == s@),
{
    let n = s.unicode_len();
    if v.len() != n {
        proof {
            assert(v@ != s@) by {
                assert(v@.len() != s@.len());
            }
        }
        return false;
    }
    for i in 0..n
        invariant
            n == s@.len(),
            v@.len() == n,
            v@.subrange(0, i as int) == s@.subrange(0, i as int),
    {
        if v[i] != s.get_char(i) {
            proof {
                if v@ == s@ {
                    assert(false);
                }
            }
            return false;
        }
        proof {
            assert(v@.subrange(0, i as int + 1) =~= s@.subrange(0, i as int + 1));
        }
    }
    proof {
        assert(v@ =~= v@.subrange(0, n as int));
        assert(s@ =~= s@.subrange(0, n as int));
    }
    true
}

} // verus!
