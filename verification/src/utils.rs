//! The bitness-aware locator: finds the library record matching a bare
//! name or an absolute path, preferring an exact path match and falling
//! back to a name match restricted by architecture.

use vstd::prelude::*;
use crate::strutil::{basename, dirname, has_char, has_substr, lemma_has_char, lemma_last_idx,
    find_char, rfind_char, str_eq, contains_substr};
use crate::types::{Library, LibMeta, lib64_marker, metas};

verus! {

/// Index of the first record whose path is exactly `q`, or `-1`.
pub open spec fn first_exact(ms: Seq<LibMeta>, q: Seq<char>) -> int
    decreases ms.len(),
{
    if ms.len() == 0 {
        -1
    } else if ms[0].path == q {
        0
    } else {
        let r = first_exact(ms.drop_first(), q);
        if r < 0 {
            -1
        } else {
            r + 1
        }
    }
}

/// Index of the first record of the wanted bitness whose name is `name`,
/// or `-1`.
pub open spec fn first_name_arch(ms: Seq<LibMeta>, name: Seq<char>, want_32: bool) -> int
    decreases ms.len(),
{
    if ms.len() == 0 {
        -1
    } else if ms[0].is_32_bit == want_32 && ms[0].name == name {
        0
    } else {
        let r = first_name_arch(ms.drop_first(), name, want_32);
        if r < 0 {
            -1
        } else {
            r + 1
        }
    }
}

pub proof fn lemma_first_exact(ms: Seq<LibMeta>, q: Seq<char>)
    ensures
        first_exact(ms, q) == -1 ==> forall|j: int| 0 <= j < ms.len() ==> ms[j].path != q,
        first_exact(ms, q) != -1 ==> {
            let r = first_exact(ms, q);
            &&& 0 <= r < ms.len()
            &&& ms[r].path == q
            &&& forall|j: int| 0 <= j < r ==> ms[j].path != q
        },
    decreases ms.len(),
{
    if ms.len() == 0 {
    } else if ms[0].path == q {
    } else {
        let t = ms.drop_first();
        lemma_first_exact(t, q);
        let r = first_exact(t, q);
        if r < 0 {
            assert forall|j: int| 0 <= j < ms.len() implies ms[j].path != q by {
                if j > 0 {
                    assert(t[j - 1] == ms[j]);
                }
            }
        } else {
            assert(t[r] == ms[r + 1]);
            assert forall|j: int| 0 <= j < r + 1 implies ms[j].path != q by {
                if j > 0 {
                    assert(t[j - 1] == ms[j]);
                }
            }
        }
    }
}

pub proof fn lemma_first_name_arch(ms: Seq<LibMeta>, name: Seq<char>, want_32: bool)
    ensures
        first_name_arch(ms, name, want_32) == -1 ==> forall|j: int|
            0 <= j < ms.len() ==> !(ms[j].is_32_bit == want_32 && ms[j].name == name),
        first_name_arch(ms, name, want_32) != -1 ==> {
            let r = first_name_arch(ms, name, want_32);
            &&& 0 <= r < ms.len()
            &&& ms[r].is_32_bit == want_32
            &&& ms[r].name == name
            &&& forall|j: int| 0 <= j < r ==> !(ms[j].is_32_bit == want_32 && ms[j].name == name)
        },
    decreases ms.len(),
{
    if ms.len() == 0 {
    } else if ms[0].is_32_bit == want_32 && ms[0].name == name {
    } else {
        let t = ms.drop_first();
        lemma_first_name_arch(t, name, want_32);
        let r = first_name_arch(t, name, want_32);
        if r < 0 {
            assert forall|j: int| 0 <= j < ms.len() implies !(ms[j].is_32_bit == want_32
                && ms[j].name == name) by {
                if j > 0 {
                    assert(t[j - 1] == ms[j]);
                }
            }
        } else {
            assert(t[r] == ms[r + 1]);
            assert forall|j: int| 0 <= j < r + 1 implies !(ms[j].is_32_bit == want_32
                && ms[j].name == name) by {
                if j > 0 {
                    assert(t[j - 1] == ms[j]);
                }
            }
        }
    }
}

/// The index the locator returns for query `q` under `hint`, or `-1`.
///
/// A query with a `/` is first matched exactly against paths; failing
/// that, by its base name restricted to the target bitness (the hint if
/// given, otherwise derived from the query's directory portion).  A bare
/// name is matched 64-bit first, then 32-bit, whatever the hint.
pub open spec fn locate_spec(ms: Seq<LibMeta>, q: Seq<char>, hint: Option<bool>) -> int {
    if has_char(q, '/') {
        let e = first_exact(ms, q);
        if e >= 0 {
            e
        } else {
            let want_32 = match hint {
                Some(b) => b,
                None => !has_substr(dirname(q), lib64_marker()),
            };
            first_name_arch(ms, basename(q), want_32)
        }
    } else {
        let p = first_name_arch(ms, q, false);
        if p >= 0 {
            p
        } else {
            first_name_arch(ms, q, true)
        }
    }
}

/// The locator's result is `-1` or a valid index.
pub proof fn lemma_locate_range(ms: Seq<LibMeta>, q: Seq<char>, hint: Option<bool>)
    ensures
        -1 <= locate_spec(ms, q, hint) < ms.len(),
{
    lemma_first_exact(ms, q);
    lemma_first_name_arch(ms, basename(q), true);
    lemma_first_name_arch(ms, basename(q), false);
    lemma_first_name_arch(ms, q, true);
    lemma_first_name_arch(ms, q, false);
    if hint is Some {
        lemma_first_name_arch(ms, basename(q), hint->0);
    }
}

/// First record whose path equals `q` exactly.
fn find_exact(libs: &Vec<Library>, q: &str) -> (r: Option<usize>)
    ensures
        match r {
            Some(i) => first_exact(metas(libs@), q@) == i as int,
            None => first_exact(metas(libs@), q@) == -1,
        },
{
    let ghost ms = metas(libs@);
    let n = libs.len();
    let mut i: usize = 0;
    while i < n
        invariant
            ms == metas(libs@),
            n == libs@.len(),
            i <= n,
            forall|j: int| 0 <= j < i ==> ms[j].path != q@,
        decreases n - i,
    {
        if str_eq(libs[i].path.as_str(), q) {
            proof {
                lemma_first_exact(ms, q@);
                assert(ms[i as int].path == q@);
            }
            return Some(i);
        }
        proof {
            assert(ms[i as int].path == libs@[i as int].path@);
        }
        i += 1;
    }
    proof {
        lemma_first_exact(ms, q@);
    }
    None
}

/// First record of the wanted bitness whose name equals `name`.
fn find_name_arch(libs: &Vec<Library>, name: &str, want_32: bool) -> (r: Option<usize>)
    ensures
        match r {
            Some(i) => first_name_arch(metas(libs@), name@, want_32) == i as int,
            None => first_name_arch(metas(libs@), name@, want_32) == -1,
        },
{
    let ghost ms = metas(libs@);
    let n = libs.len();
    let mut i: usize = 0;
    while i < n
        invariant
            ms == metas(libs@),
            n == libs@.len(),
            i <= n,
            forall|j: int| 0 <= j < i ==> !(ms[j].is_32_bit == want_32 && ms[j].name == name@),
        decreases n - i,
    {
        if libs[i].is_32_bit == want_32 && str_eq(libs[i].name.as_str(), name) {
            proof {
                lemma_first_name_arch(ms, name@, want_32);
                assert(ms[i as int].is_32_bit == want_32 && ms[i as int].name == name@);
            }
            return Some(i);
        }
        proof {
            assert(ms[i as int].name == libs@[i as int].name@);
            assert(ms[i as int].is_32_bit == libs@[i as int].is_32_bit);
        }
        i += 1;
    }
    proof {
        lemma_first_name_arch(ms, name@, want_32);
    }
    None
}

/// Finds the single record matching `name_or_path`, resolving an
/// architecture ambiguity with `is_32_bit` when given; `None` when no
/// candidate matches.
pub fn search_library(libs: &Vec<Library>, name_or_path: &str, is_32_bit: Option<bool>) -> (r:
    Option<usize>)
    ensures
        match r {
            Some(i) => locate_spec(metas(libs@), name_or_path@, is_32_bit) == i as int && i
                < libs@.len(),
            None => locate_spec(metas(libs@), name_or_path@, is_32_bit) == -1,
        },
{
    let ghost ms = metas(libs@);
    let q = name_or_path;
    proof {
        lemma_has_char(q@, '/');
        lemma_last_idx(q@, '/');
        lemma_locate_range(ms, q@, is_32_bit);
    }
    match rfind_char(q, '/') {
        Some(slash) => {
            proof {
                assert(slash as int == crate::strutil::last_idx(q@, '/'));
                assert(has_char(q@, '/'));
            }
            if let Some(i) = find_exact(libs, q) {
                return Some(i);
            }
            let n = q.unicode_len();
            let name = q.substring_char(slash + 1, n);
            let dir = q.substring_char(0, slash);
            proof {
                assert(name@ == basename(q@));
                assert(dir@ == dirname(q@));
            }
            let want_32 = match is_32_bit {
                Some(b) => b,
                None => !contains_substr(dir, "lib64"),
            };
            find_name_arch(libs, name, want_32)
        },
        None => {
            proof {
                assert(!has_char(q@, '/'));
            }
            if let Some(i) = find_name_arch(libs, q, false) {
                return Some(i);
            }
            find_name_arch(libs, q, true)
        },
    }
}

/// A query that is the exact path of a record is answered with the first
/// record carrying that path, whatever architecture hint accompanies it.
pub proof fn lemma_locate_exact_path(ms: Seq<LibMeta>, i: int, hint: Option<bool>)
    requires
        0 <= i < ms.len(),
        has_char(ms[i].path, '/'),
        forall|j: int| 0 <= j < i ==> ms[j].path != ms[i].path,
    ensures
        locate_spec(ms, ms[i].path, hint) == i,
{
    lemma_first_exact(ms, ms[i].path);
}

/// A bare-name query with no hint is answered with the first 64-bit record
/// of that name whenever one exists, even if a 32-bit record of the same
/// name is present.
pub proof fn lemma_locate_bare_name_prefers_64(ms: Seq<LibMeta>, q: Seq<char>)
    requires
        !has_char(q, '/'),
        exists|i: int| 0 <= i < ms.len() && !ms[i].is_32_bit && ms[i].name == q,
    ensures
        ({
            let r = locate_spec(ms, q, None);
            &&& 0 <= r < ms.len()
            &&& !ms[r].is_32_bit
            &&& ms[r].name == q
            &&& forall|j: int| 0 <= j < r ==> !(!ms[j].is_32_bit && ms[j].name == q)
        }),
{
    lemma_first_name_arch(ms, q, false);
}

} // verus!
