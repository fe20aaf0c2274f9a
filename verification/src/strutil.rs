//! Character-level string operations: finding separators, splitting paths
//! into directory and file name, substring search, and lexicographic order.

use vstd::prelude::*;

verus! {

/// Index of the first occurrence of `c` in `s`, or `-1` if absent.
pub open spec fn first_idx(s: Seq<char>, c: char) -> int
    decreases s.len(),
{
    if s.len() == 0 {
        -1
    } else if s[0] == c {
        0
    } else {
        let r = first_idx(s.subrange(1, s.len() as int), c);
        if r < 0 {
            -1
        } else {
            r + 1
        }
    }
}

/// Index of the last occurrence of `c` in `s`, or `-1` if absent.
pub open spec fn last_idx(s: Seq<char>, c: char) -> int
    decreases s.len(),
{
    if s.len() == 0 {
        -1
    } else if s[s.len() - 1] == c {
        s.len() - 1
    } else {
        last_idx(s.drop_last(), c)
    }
}

pub open spec fn has_char(s: Seq<char>, c: char) -> bool {
    exists|j: int| 0 <= j < s.len() && s[j] == c
}

/// The segment after the last `/`; the whole string when there is no `/`.
pub open spec fn basename(s: Seq<char>) -> Seq<char> {
    s.subrange(last_idx(s, '/') + 1, s.len() as int)
}

/// The segment before the last `/`; empty when there is no `/`.
pub open spec fn dirname(s: Seq<char>) -> Seq<char> {
    if last_idx(s, '/') >= 0 {
        s.subrange(0, last_idx(s, '/'))
    } else {
        Seq::empty()
    }
}

pub open spec fn has_substr(s: Seq<char>, sub: Seq<char>) -> bool {
    exists|i: int| 0 <= i && i + sub.len() <= s.len() && #[trigger] s.subrange(i, i + sub.len()) == sub
}

pub proof fn lemma_first_idx(s: Seq<char>, c: char)
    ensures
        first_idx(s, c) == -1 ==> forall|j: int| 0 <= j < s.len() ==> s[j] != c,
        first_idx(s, c) != -1 ==> {
            let r = first_idx(s, c);
            &&& 0 <= r < s.len()
            &&& s[r] == c
            &&& forall|j: int| 0 <= j < r ==> s[j] != c
        },
    decreases s.len(),
{
    if s.len() == 0 {
    } else if s[0] == c {
    } else {
        let t = s.subrange(1, s.len() as int);
        lemma_first_idx(t, c);
        let r = first_idx(t, c);
        if r < 0 {
            assert forall|j: int| 0 <= j < s.len() implies s[j] != c by {
                if j > 0 {
                    assert(t[j - 1] == s[j]);
                }
            }
        } else {
            assert(t[r] == s[r + 1]);
            assert forall|j: int| 0 <= j < r + 1 implies s[j] != c by {
                if j > 0 {
                    assert(t[j - 1] == s[j]);
                }
            }
        }
    }
}

pub proof fn lemma_last_idx(s: Seq<char>, c: char)
    ensures
        last_idx(s, c) == -1 ==> forall|j: int| 0 <= j < s.len() ==> s[j] != c,
        last_idx(s, c) != -1 ==> {
            let r = last_idx(s, c);
            &&& 0 <= r < s.len()
            &&& s[r] == c
            &&& forall|j: int| r < j < s.len() ==> s[j] != c
        },
    decreases s.len(),
{
    if s.len() == 0 {
    } else if s[s.len() - 1] == c {
    } else {
        let t = s.drop_last();
        lemma_last_idx(t, c);
        let r = last_idx(t, c);
        if r == -1 {
            assert forall|j: int| 0 <= j < s.len() implies s[j] != c by {
                if j < s.len() - 1 {
                    assert(t[j] == s[j]);
                }
            }
        } else {
            assert(t[r] == s[r]);
            assert forall|j: int| r < j < s.len() implies s[j] != c by {
                if j < s.len() - 1 {
                    assert(t[j] == s[j]);
                }
            }
        }
    }
}

/// `has_char` matches the recursive search `first_idx`.
pub proof fn lemma_has_char(s: Seq<char>, c: char)
    ensures
        has_char(s, c) <==> first_idx(s, c) >= 0,
        has_char(s, c) <==> last_idx(s, c) >= 0,
{
    lemma_first_idx(s, c);
    lemma_last_idx(s, c);
}

/// First occurrence of `c` in `s`, scanning from the front.
pub fn find_char(s: &str, c: char) -> (r: Option<usize>)
    ensures
        match r {
            Some(i) => i < s@.len() && s@[i as int] == c && forall|j: int| 0 <= j < i ==> s@[j] != c,
            None => forall|j: int| 0 <= j < s@.len() ==> s@[j] != c,
        },
{
    let n = s.unicode_len();
    let mut i: usize = 0;
    while i < n
        invariant
            n == s@.len(),
            i <= n,
            forall|j: int| 0 <= j < i ==> s@[j] != c,
        decreases n - i,
    {
        if s.get_char(i) == c {
            return Some(i);
        }
        i += 1;
    }
    None
}

/// Last occurrence of `c` in `s`, scanning from the back.
pub fn rfind_char(s: &str, c: char) -> (r: Option<usize>)
    ensures
        match r {
            Some(i) => i < s@.len() && s@[i as int] == c && forall|j: int| i < j < s@.len() ==> s@[j] != c,
            None => forall|j: int| 0 <= j < s@.len() ==> s@[j] != c,
        },
{
    let n = s.unicode_len();
    let mut i: usize = n;
    while i > 0
        invariant
            n == s@.len(),
            i <= n,
            forall|j: int| i <= j < n ==> s@[j] != c,
        decreases i,
    {
        i -= 1;
        if s.get_char(i) == c {
            return Some(i);
        }
    }
    None
}

/// Character-wise equality of two string slices.
pub fn str_eq(a: &str, b: &str) -> (r: bool)
    ensures
        r == (a@ == b@),
{
    let na = a.unicode_len();
    let nb = b.unicode_len();
    if na != nb {
        return false;
    }
    let mut i: usize = 0;
    while i < na
        invariant
            na == a@.len(),
            nb == b@.len(),
            na == nb,
            i <= na,
            forall|j: int| 0 <= j < i ==> a@[j] == b@[j],
        decreases na - i,
    {
        if a.get_char(i) != b.get_char(i) {
            return false;
        }
        i += 1;
    }
    proof {
        assert(a@ =~= b@);
    }
    true
}

/// Whether `sub` occurs contiguously inside `s`.
pub fn contains_substr(s: &str, sub: &str) -> (r: bool)
    ensures
        r == has_substr(s@, sub@),
{
    let n = s.unicode_len();
    let m = sub.unicode_len();
    if m > n {
        return false;
    }
    if m == 0 {
        proof {
            assert(s@.subrange(0, 0 + sub@.len() as int) =~= sub@);
            assert(has_substr(s@, sub@));
        }
        return true;
    }
    let mut i: usize = 0;
    while i <= n - m
        invariant
            n == s@.len(),
            m == sub@.len(),
            1 <= m <= n,
            i <= n - m + 1,
            forall|x: int| 0 <= x < i ==> #[trigger] s@.subrange(x, x + sub@.len()) != sub@,
        decreases n - i,
    {
        let mut j: usize = 0;
        let mut all_eq: bool = true;
        while j < m
            invariant
                n == s@.len(),
                m == sub@.len(),
                m <= n,
                i + m <= n,
                j <= m,
                all_eq ==> forall|y: int| 0 <= y < j ==> s@[i + y] == sub@[y],
                !all_eq ==> s@.subrange(i as int, i + sub@.len()) != sub@,
            decreases m - j,
        {
            if s.get_char(i + j) != sub.get_char(j) {
                proof {
                    let w = s@.subrange(i as int, i + sub@.len());
                    assert(w[j as int] != sub@[j as int]);
                }
                all_eq = false;
                j = m;
            } else {
                j += 1;
            }
        }
        if all_eq {
            proof {
                assert(s@.subrange(i as int, i + sub@.len()) =~= sub@);
            }
            return true;
        }
        i += 1;
    }
    proof {
        assert forall|x: int| 0 <= x && x + sub@.len() <= s@.len() implies #[trigger] s@.subrange(
            x,
            x + sub@.len(),
        ) != sub@ by {
            assert(x < i);
        }
    }
    false
}

/// Strict lexicographic order on character sequences; a proper prefix
/// precedes its extensions.
pub open spec fn lex_lt(a: Seq<char>, b: Seq<char>) -> bool
    decreases a.len(),
{
    if b.len() == 0 {
        false
    } else if a.len() == 0 {
        true
    } else if a[0] == b[0] {
        lex_lt(a.subrange(1, a.len() as int), b.subrange(1, b.len() as int))
    } else {
        (a[0] as u32) < (b[0] as u32)
    }
}

pub open spec fn lex_le(a: Seq<char>, b: Seq<char>) -> bool {
    lex_lt(a, b) || a == b
}

/// With an equal prefix of length `i`, the order is decided by the tails.
pub proof fn lemma_lex_lt_skip(a: Seq<char>, b: Seq<char>, i: int)
    requires
        0 <= i <= a.len(),
        i <= b.len(),
        forall|j: int| 0 <= j < i ==> a[j] == b[j],
    ensures
        lex_lt(a, b) == lex_lt(a.subrange(i, a.len() as int), b.subrange(i, b.len() as int)),
    decreases i,
{
    if i == 0 {
        assert(a.subrange(0, a.len() as int) =~= a);
        assert(b.subrange(0, b.len() as int) =~= b);
    } else {
        let a1 = a.subrange(1, a.len() as int);
        let b1 = b.subrange(1, b.len() as int);
        lemma_lex_lt_skip(a1, b1, i - 1);
        assert(a1.subrange(i - 1, a1.len() as int) =~= a.subrange(i, a.len() as int));
        assert(b1.subrange(i - 1, b1.len() as int) =~= b.subrange(i, b.len() as int));
    }
}

/// Exactly one of `a < b`, `b < a`, `a == b` holds.
pub proof fn lemma_lex_total(a: Seq<char>, b: Seq<char>)
    ensures
        lex_lt(a, b) || lex_lt(b, a) || a == b,
    decreases a.len(),
{
    if b.len() == 0 {
        if a.len() == 0 {
            assert(a =~= b);
        }
    } else if a.len() == 0 {
    } else if a[0] == b[0] {
        let a1 = a.subrange(1, a.len() as int);
        let b1 = b.subrange(1, b.len() as int);
        lemma_lex_total(a1, b1);
        if a1 == b1 {
            assert(a1.len() == b1.len());
            assert(a.len() == b.len());
            assert forall|j: int| 0 <= j < a.len() implies a[j] == b[j] by {
                if j > 0 {
                    assert(a1[j - 1] == a[j]);
                    assert(b1[j - 1] == b[j]);
                    assert(a1[j - 1] == b1[j - 1]);
                }
            }
            assert(a =~= b);
        }
    } else {
        vstd::utf8::char_u32_cast(a[0], a[0] as u32);
        vstd::utf8::char_u32_cast(b[0], b[0] as u32);
        assert(a[0] as u32 != b[0] as u32);
    }
}

pub proof fn lemma_lex_lt_trans(a: Seq<char>, b: Seq<char>, c: Seq<char>)
    requires
        lex_lt(a, b),
        lex_lt(b, c),
    ensures
        lex_lt(a, c),
    decreases a.len(),
{
    if c.len() == 0 {
    } else if a.len() == 0 {
    } else {
        if b.len() == 0 {
        } else {
            if a[0] == b[0] && b[0] == c[0] {
                lemma_lex_lt_trans(
                    a.subrange(1, a.len() as int),
                    b.subrange(1, b.len() as int),
                    c.subrange(1, c.len() as int),
                );
            }
        }
    }
}

/// `a < b` and `b <= c` give `a < c`.
pub proof fn lemma_lex_lt_le_trans(a: Seq<char>, b: Seq<char>, c: Seq<char>)
    requires
        lex_lt(a, b),
        lex_le(b, c),
    ensures
        lex_lt(a, c),
{
    if b == c {
    } else {
        lemma_lex_lt_trans(a, b, c);
    }
}

/// Strict lexicographic comparison of two string slices.
pub fn str_lt(a: &str, b: &str) -> (r: bool)
    ensures
        r == lex_lt(a@, b@),
{
    let na = a.unicode_len();
    let nb = b.unicode_len();
    let mut i: usize = 0;
    while i < na && i < nb
        invariant
            na == a@.len(),
            nb == b@.len(),
            i <= na,
            i <= nb,
            forall|j: int| 0 <= j < i ==> a@[j] == b@[j],
        decreases na - i,
    {
        let ca = a.get_char(i);
        let cb = b.get_char(i);
        if ca != cb {
            proof {
                lemma_lex_lt_skip(a@, b@, i as int);
            }
            return (ca as u32) < (cb as u32);
        }
        i += 1;
    }
    proof {
        lemma_lex_lt_skip(a@, b@, i as int);
    }
    na < nb
}

} // verus!
