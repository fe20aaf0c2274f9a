//! The classifier and the ordering of the report: each closure member is
//! labelled against an externally supplied list of already-present library
//! paths, in ascending path order.

use vstd::prelude::*;
use crate::strutil::{basename, lex_le, lex_lt, lemma_last_idx, lemma_lex_total,
    lemma_lex_lt_le_trans, rfind_char, str_eq, str_lt};
use crate::types::{Library, views};

verus! {

/// How a closure member relates to the already-present libraries: its path
/// is present as-is; or only its name is present, under the path at the
/// carried index into the existing list; or neither.
pub enum LibClass {
    Present,
    PathMismatch(usize),
    Missing,
}

/// What the classifier promises of its label for a library with the given
/// path and name against the existing paths.
pub open spec fn class_matches(
    c: LibClass,
    path: Seq<char>,
    name: Seq<char>,
    existing: Seq<Seq<char>>,
) -> bool {
    match c {
        LibClass::Present => exists|k: int| 0 <= k < existing.len() && existing[k] == path,
        LibClass::PathMismatch(k) => {
            &&& forall|j: int| 0 <= j < existing.len() ==> existing[j] != path
            &&& k < existing.len()
            &&& basename(existing[k as int]) == name
            &&& forall|j: int| 0 <= j < k ==> basename(#[trigger] existing[j]) != name
        },
        LibClass::Missing => {
            &&& forall|j: int| 0 <= j < existing.len() ==> existing[j] != path
            &&& forall|j: int| 0 <= j < existing.len() ==> basename(#[trigger] existing[j]) != name
        },
    }
}

/// The segment of `s` after its last `/`, or all of `s` without one.
fn base_of(s: &str) -> (r: &str)
    ensures
        r@ == basename(s@),
{
    proof {
        lemma_last_idx(s@, '/');
    }
    let n = s.unicode_len();
    match rfind_char(s, '/') {
        Some(i) => {
            proof {
                assert(i as int == crate::strutil::last_idx(s@, '/'));
            }
            s.substring_char(i + 1, n)
        },
        None => {
            proof {
                assert(crate::strutil::last_idx(s@, '/') == -1);
                assert(s@.subrange(0, s@.len() as int) =~= s@);
            }
            s
        },
    }
}

/// Labels one library against the existing paths: `Present` when its path
/// occurs exactly; otherwise `PathMismatch` carrying the first existing
/// entry whose base name matches; otherwise `Missing`.
pub fn classify(path: &str, name: &str, existing: &Vec<String>) -> (c: LibClass)
    ensures
        class_matches(c, path@, name@, views(existing@)),
{
    let ghost ex = views(existing@);
    let n = existing.len();
    let mut k: usize = 0;
    while k < n
        invariant
            ex == views(existing@),
            n == ex.len(),
            k <= n,
            forall|j: int| 0 <= j < k ==> ex[j] != path@,
        decreases n - k,
    {
        if str_eq(existing[k].as_str(), path) {
            proof {
                assert(ex[k as int] == path@);
            }
            return LibClass::Present;
        }
        proof {
            assert(ex[k as int] == existing@[k as int]@);
        }
        k += 1;
    }
    let mut k2: usize = 0;
    while k2 < n
        invariant
            ex == views(existing@),
            n == ex.len(),
            k2 <= n,
            forall|j: int| 0 <= j < n ==> ex[j] != path@,
            forall|j: int| 0 <= j < k2 ==> basename(#[trigger] ex[j]) != name@,
        decreases n - k2,
    {
        if str_eq(base_of(existing[k2].as_str()), name) {
            proof {
                assert(basename(ex[k2 as int]) == name@);
            }
            return LibClass::PathMismatch(k2);
        }
        proof {
            assert(ex[k2 as int] == existing@[k2 as int]@);
        }
        k2 += 1;
    }
    LibClass::Missing
}

/// Labels every listed record, index for index.
pub fn classify_all(libs: &Vec<Library>, idxs: &Vec<usize>, existing: &Vec<String>) -> (r: Vec<
    LibClass,
>)
    requires
        forall|k: int| 0 <= k < idxs@.len() ==> (#[trigger] idxs@[k]) < libs@.len(),
    ensures
        r@.len() == idxs@.len(),
        forall|k: int|
            0 <= k < idxs@.len() ==> class_matches(
                #[trigger] r@[k],
                libs@[idxs@[k] as int].path@,
                libs@[idxs@[k] as int].name@,
                views(existing@),
            ),
{
    let n = idxs.len();
    let mut r: Vec<LibClass> = Vec::new();
    let mut k: usize = 0;
    while k < n
        invariant
            n == idxs@.len(),
            k <= n,
            r@.len() == k,
            forall|j: int| 0 <= j < idxs@.len() ==> (#[trigger] idxs@[j]) < libs@.len(),
            forall|j: int|
                0 <= j < k ==> class_matches(
                    #[trigger] r@[j],
                    libs@[idxs@[j] as int].path@,
                    libs@[idxs@[j] as int].name@,
                    views(existing@),
                ),
        decreases n - k,
    {
        let i = idxs[k];
        let c = classify(libs[i].path.as_str(), libs[i].name.as_str(), existing);
        r.push(c);
        k += 1;
    }
    r
}

/// Orders distinct record indices by the lexicographic order of their
/// paths, for deterministic report output.
#[verifier::rlimit(80)]
pub fn sort_by_path(libs: &Vec<Library>, items: &Vec<usize>) -> (r: Vec<usize>)
    requires
        forall|k: int| 0 <= k < items@.len() ==> (#[trigger] items@[k]) < libs@.len(),
        forall|a: int, b: int| 0 <= a < b < items@.len() ==> items@[a] != items@[b],
    ensures
        r@.len() == items@.len(),
        forall|x: usize| r@.contains(x) <==> items@.contains(x),
        forall|a: int, b: int|
            0 <= a <= b < r@.len() ==> lex_le(libs@[r@[a] as int].path@, libs@[r@[b] as int].path@),
        forall|a: int, b: int| 0 <= a < b < r@.len() ==> r@[a] != r@[b],
        forall|k: int| 0 <= k < r@.len() ==> (#[trigger] r@[k]) < libs@.len(),
{
    let n = items.len();
    let mut out: Vec<usize> = Vec::new();
    let mut k: usize = 0;
    while k < n
        invariant
            n == items@.len(),
            k <= n,
            out@.len() == k,
            forall|j: int| 0 <= j < items@.len() ==> (#[trigger] items@[j]) < libs@.len(),
            forall|a: int, b: int| 0 <= a < b < items@.len() ==> items@[a] != items@[b],
            forall|x: usize| out@.contains(x) <==> items@.take(k as int).contains(x),
            forall|a: int, b: int|
                0 <= a <= b < out@.len() ==> lex_le(
                    libs@[out@[a] as int].path@,
                    libs@[out@[b] as int].path@,
                ),
            forall|a: int, b: int| 0 <= a < b < out@.len() ==> out@[a] != out@[b],
            forall|j: int| 0 <= j < out@.len() ==> (#[trigger] out@[j]) < libs@.len(),
        decreases n - k,
    {
        let x = items[k];
        let ghost xp = libs@[x as int].path@;
        let mut p: usize = 0;
        while p < out.len() && !str_lt(libs[x].path.as_str(), libs[out[p]].path.as_str())
            invariant
                out@.len() == k,
                p <= k,
                xp == libs@[x as int].path@,
                x < libs@.len(),
                forall|j: int| 0 <= j < out@.len() ==> (#[trigger] out@[j]) < libs@.len(),
                forall|j: int| 0 <= j < p ==> !lex_lt(xp, libs@[out@[j] as int].path@),
            decreases k - p,
        {
            p += 1;
        }
        let ghost out0 = out@;
        out.insert(p, x);
        proof {
            out0.insert_ensures(p as int, x);
            // The new element is not among the old ones.
            assert(!items@.take(k as int).contains(x)) by {
                if items@.take(k as int).contains(x) {
                    let j = choose|j: int| 0 <= j < k && items@.take(k as int)[j] == x;
                    assert(items@[j] == x);
                    assert(items@[k as int] == x);
                }
            }
            assert(!out0.contains(x));
            // Element bookkeeping for the contains postcondition.
            assert(items@.take(k + 1) =~= items@.take(k as int).push(items@[k as int]));
            assert forall|y: usize| out@.contains(y) implies items@.take(k + 1).contains(y) by {
                let j = choose|j: int| 0 <= j < out@.len() && out@[j] == y;
                if j < p {
                    assert(out0[j] == y);
                    assert(out0.contains(y));
                    let j2 = choose|j2: int| 0 <= j2 < k && items@.take(k as int)[j2] == y;
                    assert(items@.take(k + 1)[j2] == y);
                } else if j == p {
                    assert(items@.take(k + 1)[k as int] == y);
                } else {
                    assert(out0[j - 1] == y);
                    assert(out0.contains(y));
                    let j2 = choose|j2: int| 0 <= j2 < k && items@.take(k as int)[j2] == y;
                    assert(items@.take(k + 1)[j2] == y);
                }
            }
            assert forall|y: usize| items@.take(k + 1).contains(y) implies out@.contains(y) by {
                let j = choose|j: int| 0 <= j < k + 1 && #[trigger] items@.take(k + 1)[j] == y;
                if j < k {
                    assert(items@.take(k as int)[j] == y);
                    assert(items@.take(k as int).contains(y));
                    assert(out0.contains(y));
                    let j2 = choose|j2: int| 0 <= j2 < out0.len() && out0[j2] == y;
                    if j2 < p {
                        assert(out@[j2] == y);
                    } else {
                        assert(out@[j2 + 1] == y);
                    }
                } else {
                    assert(out@[p as int] == x);
                    assert(y == x);
                }
            }
            // Order around the insertion point.
            assert forall|a: int, b: int|
                0 <= a <= b < out@.len() implies lex_le(
                    libs@[out@[a] as int].path@,
                    libs@[out@[b] as int].path@,
                ) by {
                let pa = libs@[out@[a] as int].path@;
                let pb = libs@[out@[b] as int].path@;
                if a < p {
                    assert(out@[a] == out0[a]);
                    lemma_lex_total(xp, libs@[out0[a] as int].path@);
                }
                if b < p {
                    assert(out@[b] == out0[b]);
                    lemma_lex_total(xp, libs@[out0[b] as int].path@);
                }
                if a > p {
                    assert(out@[a] == out0[a - 1]);
                }
                if b > p {
                    assert(out@[b] == out0[b - 1]);
                }
                if a == p && b > p {
                    // x was inserted before the first strictly greater entry.
                    assert(lex_lt(xp, libs@[out0[p as int] as int].path@));
                    if b > p + 1 {
                        lemma_lex_lt_le_trans(
                            xp,
                            libs@[out0[p as int] as int].path@,
                            libs@[out0[b - 1] as int].path@,
                        );
                    }
                }
                if a < p && b == p {
                    lemma_lex_total(xp, libs@[out0[a] as int].path@);
                }
                assert(lex_le(pa, pb));
            }
            // Distinctness is preserved.
            assert forall|a: int, b: int| 0 <= a < b < out@.len() implies out@[a] != out@[b] by {
                if b < p {
                    assert(out@[a] == out0[a] && out@[b] == out0[b]);
                } else if a > p {
                    assert(out@[a] == out0[a - 1] && out@[b] == out0[b - 1]);
                } else if a < p && b > p {
                    assert(out@[a] == out0[a] && out@[b] == out0[b - 1]);
                } else if a == p {
                    assert(out@[b] == out0[b - 1]);
                    assert(out0.contains(out0[b - 1]));
                } else if b == p {
                    assert(out@[a] == out0[a]);
                    assert(out0.contains(out0[a]));
                }
            }
        }
        k += 1;
    }
    proof {
        assert(items@.take(n as int) =~= items@);
    }
    out
}

} // verus!
