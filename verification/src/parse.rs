//! The registry parser and the two-phase graph build: phase 1 turns the
//! registry text into library nodes, phase 2 resolves every declared
//! dependency to a node index through the locator.

use vstd::prelude::*;
use crate::strutil::{first_idx, has_char, lemma_first_idx, lemma_has_char, find_char};
use crate::types::{DefinedDependency, Library, LibMeta, LibraryHolder, is_excluded_name, metas,
    views};
use crate::utils::{locate_spec, lemma_locate_range, search_library};

verus! {

/// The pieces of `s` between occurrences of `c`; `n` separators give
/// `n + 1` pieces.
pub open spec fn split_seq(s: Seq<char>, c: char) -> Seq<Seq<char>>
    decreases s.len(),
    via split_seq_dec
{
    let i = first_idx(s, c);
    if i < 0 {
        seq![s]
    } else {
        seq![s.subrange(0, i)] + split_seq(s.subrange(i + 1, s.len() as int), c)
    }
}

#[via_fn]
proof fn split_seq_dec(s: Seq<char>, c: char) {
    lemma_first_idx(s, c);
}

/// The non-empty elements of `xs`, in order.
pub open spec fn drop_empty(xs: Seq<Seq<char>>) -> Seq<Seq<char>>
    decreases xs.len(),
{
    if xs.len() == 0 {
        Seq::empty()
    } else {
        let rest = drop_empty(xs.drop_first());
        if xs[0].len() == 0 {
            rest
        } else {
            seq![xs[0]] + rest
        }
    }
}

/// The non-empty lines of the registry text, in file order.
pub open spec fn registry_lines(data: Seq<char>) -> Seq<Seq<char>> {
    drop_empty(split_seq(data, '\n'))
}

pub open spec fn line_has_sep(l: Seq<char>) -> bool {
    has_char(l, ';')
}

/// The library path of a registry line: everything before the first `;`.
pub open spec fn line_path(l: Seq<char>) -> Seq<char> {
    l.subrange(0, first_idx(l, ';'))
}

/// The dependency portion of a registry line: everything after the first `;`.
pub open spec fn line_rest(l: Seq<char>) -> Seq<char> {
    l.subrange(first_idx(l, ';') + 1, l.len() as int)
}

/// The name of a dependency token: the part before `>`, or the whole token.
pub open spec fn token_name(t: Seq<char>) -> Seq<char> {
    if first_idx(t, '>') >= 0 {
        t.subrange(0, first_idx(t, '>'))
    } else {
        t
    }
}

/// The lookup path of a dependency token: the part after `>`, or the whole
/// token.
pub open spec fn token_path(t: Seq<char>) -> Seq<char> {
    if first_idx(t, '>') >= 0 {
        t.subrange(first_idx(t, '>') + 1, t.len() as int)
    } else {
        t
    }
}

/// The (name, path) pairs of the tokens whose name is not excluded, in order.
pub open spec fn keep_tokens(ts: Seq<Seq<char>>) -> Seq<(Seq<char>, Seq<char>)>
    decreases ts.len(),
{
    if ts.len() == 0 {
        Seq::empty()
    } else {
        let rest = keep_tokens(ts.drop_first());
        if is_excluded_name(token_name(ts[0])) {
            rest
        } else {
            seq![(token_name(ts[0]), token_path(ts[0]))] + rest
        }
    }
}

/// The declared dependencies of a registry line: an empty rest declares
/// nothing; otherwise the rest splits on `,` into tokens.
pub open spec fn line_deps(l: Seq<char>) -> Seq<(Seq<char>, Seq<char>)> {
    if line_rest(l).len() == 0 {
        Seq::empty()
    } else {
        keep_tokens(split_seq(line_rest(l), ','))
    }
}

/// Index of the first line without a `;`, or the number of lines.
pub open spec fn first_bad_line(lines: Seq<Seq<char>>) -> int
    decreases lines.len(),
{
    if lines.len() == 0 {
        0
    } else if !line_has_sep(lines[0]) {
        0
    } else {
        1 + first_bad_line(lines.drop_first())
    }
}

pub proof fn lemma_first_bad_line(lines: Seq<Seq<char>>)
    ensures
        0 <= first_bad_line(lines) <= lines.len(),
        forall|j: int| 0 <= j < first_bad_line(lines) ==> line_has_sep(#[trigger] lines[j]),
        first_bad_line(lines) < lines.len() ==> !line_has_sep(lines[first_bad_line(lines)]),
    decreases lines.len(),
{
    if lines.len() == 0 {
    } else if !line_has_sep(lines[0]) {
    } else {
        let t = lines.drop_first();
        lemma_first_bad_line(t);
        let r = first_bad_line(t);
        assert forall|j: int| 0 <= j < r + 1 implies line_has_sep(#[trigger] lines[j]) by {
            if j > 0 {
                assert(t[j - 1] == lines[j]);
            }
        }
        if r < t.len() {
            assert(t[r] == lines[r + 1]);
        }
    }
}

/// The (name, path) views of a sequence of declared dependencies.
pub open spec fn dep_views(ds: Seq<DefinedDependency>) -> Seq<(Seq<char>, Seq<char>)> {
    Seq::new(ds.len(), |i: int| (ds[i].name@, ds[i].path@))
}

/// The node indices that resolving `deps` within bitness `is_32` yields,
/// in order; dependencies the locator cannot resolve are dropped.
pub open spec fn resolved_edges(ms: Seq<LibMeta>, deps: Seq<(Seq<char>, Seq<char>)>, is_32: bool)
    -> Seq<usize>
    decreases deps.len(),
{
    if deps.len() == 0 {
        Seq::empty()
    } else {
        let rest = resolved_edges(ms, deps.drop_first(), is_32);
        let r = locate_spec(ms, deps[0].1, Some(is_32));
        if r >= 0 {
            seq![r as usize] + rest
        } else {
            rest
        }
    }
}

/// The names of the dependencies in `deps` that the locator cannot
/// resolve within bitness `is_32`, in order.
pub open spec fn unresolved_names(ms: Seq<LibMeta>, deps: Seq<(Seq<char>, Seq<char>)>, is_32: bool)
    -> Seq<Seq<char>>
    decreases deps.len(),
{
    if deps.len() == 0 {
        Seq::empty()
    } else {
        let rest = unresolved_names(ms, deps.drop_first(), is_32);
        if locate_spec(ms, deps[0].1, Some(is_32)) >= 0 {
            rest
        } else {
            seq![deps[0].0] + rest
        }
    }
}

proof fn lemma_drop_empty_push(xs: Seq<Seq<char>>, x: Seq<char>)
    ensures
        drop_empty(xs.push(x)) == drop_empty(xs) + (if x.len() == 0 {
            Seq::<Seq<char>>::empty()
        } else {
            seq![x]
        }),
    decreases xs.len(),
{
    reveal_with_fuel(drop_empty, 3);
    let p = xs.push(x);
    if xs.len() == 0 {
        assert(p.drop_first() =~= Seq::<Seq<char>>::empty());
        if x.len() == 0 {
            assert(drop_empty(p) =~= drop_empty(xs) + Seq::<Seq<char>>::empty());
        } else {
            assert(drop_empty(p) =~= drop_empty(xs) + seq![x]);
        }
    } else {
        assert(p.drop_first() =~= xs.drop_first().push(x));
        lemma_drop_empty_push(xs.drop_first(), x);
        assert(p[0] == xs[0]);
        if x.len() == 0 {
            assert(drop_empty(p) =~= drop_empty(xs) + Seq::<Seq<char>>::empty());
        } else {
            assert(drop_empty(p) =~= drop_empty(xs) + seq![x]);
        }
    }
}

proof fn lemma_keep_tokens_push(ts: Seq<Seq<char>>, t: Seq<char>)
    ensures
        keep_tokens(ts.push(t)) == keep_tokens(ts) + (if is_excluded_name(token_name(t)) {
            Seq::<(Seq<char>, Seq<char>)>::empty()
        } else {
            seq![(token_name(t), token_path(t))]
        }),
    decreases ts.len(),
{
    reveal_with_fuel(keep_tokens, 3);
    let p = ts.push(t);
    if ts.len() == 0 {
        assert(p.drop_first() =~= Seq::<Seq<char>>::empty());
        if is_excluded_name(token_name(t)) {
            assert(keep_tokens(p) =~= keep_tokens(ts) + Seq::<(Seq<char>, Seq<char>)>::empty());
        } else {
            assert(keep_tokens(p) =~= keep_tokens(ts) + seq![(token_name(t), token_path(t))]);
        }
    } else {
        assert(p.drop_first() =~= ts.drop_first().push(t));
        lemma_keep_tokens_push(ts.drop_first(), t);
        assert(p[0] == ts[0]);
        if is_excluded_name(token_name(t)) {
            assert(keep_tokens(p) =~= keep_tokens(ts) + Seq::<(Seq<char>, Seq<char>)>::empty());
        } else {
            assert(keep_tokens(p) =~= keep_tokens(ts) + seq![(token_name(t), token_path(t))]);
        }
    }
}

proof fn lemma_resolved_edges_push(
    ms: Seq<LibMeta>,
    deps: Seq<(Seq<char>, Seq<char>)>,
    d: (Seq<char>, Seq<char>),
    is_32: bool,
)
    ensures
        resolved_edges(ms, deps.push(d), is_32) == resolved_edges(ms, deps, is_32) + (if locate_spec(
            ms,
            d.1,
            Some(is_32),
        ) >= 0 {
            seq![locate_spec(ms, d.1, Some(is_32)) as usize]
        } else {
            Seq::<usize>::empty()
        }),
        unresolved_names(ms, deps.push(d), is_32) == unresolved_names(ms, deps, is_32) + (
        if locate_spec(ms, d.1, Some(is_32)) >= 0 {
            Seq::<Seq<char>>::empty()
        } else {
            seq![d.0]
        }),
    decreases deps.len(),
{
    reveal_with_fuel(resolved_edges, 3);
    reveal_with_fuel(unresolved_names, 3);
    let p = deps.push(d);
    if deps.len() == 0 {
        assert(p.drop_first() =~= Seq::<(Seq<char>, Seq<char>)>::empty());
        if locate_spec(ms, d.1, Some(is_32)) >= 0 {
            assert(resolved_edges(ms, p, is_32) =~= resolved_edges(ms, deps, is_32) + seq![
                locate_spec(ms, d.1, Some(is_32)) as usize,
            ]);
            assert(unresolved_names(ms, p, is_32) =~= unresolved_names(ms, deps, is_32)
                + Seq::<Seq<char>>::empty());
        } else {
            assert(resolved_edges(ms, p, is_32) =~= resolved_edges(ms, deps, is_32)
                + Seq::<usize>::empty());
            assert(unresolved_names(ms, p, is_32) =~= unresolved_names(ms, deps, is_32) + seq![d.0]);
        }
    } else {
        assert(p.drop_first() =~= deps.drop_first().push(d));
        lemma_resolved_edges_push(ms, deps.drop_first(), d, is_32);
        assert(p[0] == deps[0]);
        if locate_spec(ms, d.1, Some(is_32)) >= 0 {
            assert(resolved_edges(ms, p, is_32) =~= resolved_edges(ms, deps, is_32) + seq![
                locate_spec(ms, d.1, Some(is_32)) as usize,
            ]);
            assert(unresolved_names(ms, p, is_32) =~= unresolved_names(ms, deps, is_32)
                + Seq::<Seq<char>>::empty());
        } else {
            assert(resolved_edges(ms, p, is_32) =~= resolved_edges(ms, deps, is_32)
                + Seq::<usize>::empty());
            assert(unresolved_names(ms, p, is_32) =~= unresolved_names(ms, deps, is_32) + seq![d.0]);
        }
    }
}

/// Every edge that dependency resolution yields is a valid node index.
pub proof fn lemma_resolved_edges_range(
    ms: Seq<LibMeta>,
    deps: Seq<(Seq<char>, Seq<char>)>,
    is_32: bool,
)
    ensures
        forall|k: int|
            0 <= k < resolved_edges(ms, deps, is_32).len() ==> (#[trigger] resolved_edges(
                ms,
                deps,
                is_32,
            )[k]) < ms.len(),
    decreases deps.len(),
{
    if deps.len() == 0 {
    } else {
        lemma_resolved_edges_range(ms, deps.drop_first(), is_32);
        lemma_locate_range(ms, deps[0].1, Some(is_32));
        let whole = resolved_edges(ms, deps, is_32);
        let rest = resolved_edges(ms, deps.drop_first(), is_32);
        let r = locate_spec(ms, deps[0].1, Some(is_32));
        assert forall|k: int| 0 <= k < whole.len() implies (#[trigger] whole[k]) < ms.len() by {
            if r >= 0 {
                if k == 0 {
                    assert(whole[0] == r as usize);
                } else {
                    assert(whole[k] == rest[k - 1]);
                }
            } else {
                assert(whole[k] == rest[k]);
            }
        }
    }
}

/// Splits `s` at every occurrence of `c`.
pub fn split_char(s: &str, c: char) -> (parts: Vec<String>)
    ensures
        views(parts@) == split_seq(s@, c),
    decreases s@.len(),
{
    proof {
        lemma_first_idx(s@, c);
    }
    match find_char(s, c) {
        None => {
            let mut v: Vec<String> = Vec::new();
            v.push(s.to_owned());
            proof {
                assert(views(v@) =~= split_seq(s@, c));
            }
            v
        },
        Some(i) => {
            proof {
                assert(first_idx(s@, c) == i as int);
            }
            let n = s.unicode_len();
            let head = s.substring_char(0, i);
            let tail = s.substring_char(i + 1, n);
            let mut parts = split_char(tail, c);
            parts.insert(0, head.to_owned());
            proof {
                assert(views(parts@) =~= seq![s@.subrange(0, i as int)] + split_seq(
                    s@.subrange(i + 1, s@.len() as int),
                    c,
                ));
            }
            parts
        },
    }
}

/// Keeps the non-empty strings, in order.
fn keep_nonempty(parts: Vec<String>) -> (r: Vec<String>)
    ensures
        views(r@) == drop_empty(views(parts@)),
{
    let n = parts.len();
    let mut out: Vec<String> = Vec::new();
    let mut k: usize = 0;
    while k < n
        invariant
            n == parts@.len(),
            k <= n,
            views(out@) == drop_empty(views(parts@).take(k as int)),
        decreases n - k,
    {
        let ghost prefix = views(parts@).take(k as int);
        let ghost l = parts@[k as int]@;
        proof {
            lemma_drop_empty_push(prefix, l);
            assert(views(parts@).take(k + 1) =~= prefix.push(l));
        }
        if parts[k].as_str().unicode_len() > 0 {
            out.push(parts[k].clone());
            proof {
                assert(views(out@) =~= drop_empty(views(parts@).take(k + 1)));
            }
        } else {
            proof {
                assert(views(out@) =~= drop_empty(views(parts@).take(k + 1)));
            }
        }
        k += 1;
    }
    proof {
        assert(views(parts@).take(n as int) =~= views(parts@));
    }
    out
}

/// Splits a dependency token on its first `>`; a token without `>` uses
/// the same string as name and path.
fn parse_token(t: &str) -> (d: DefinedDependency)
    ensures
        d.name@ == token_name(t@),
        d.path@ == token_path(t@),
{
    proof {
        lemma_first_idx(t@, '>');
    }
    match find_char(t, '>') {
        Some(i) => {
            proof {
                assert(first_idx(t@, '>') == i as int);
            }
            let n = t.unicode_len();
            let name = t.substring_char(0, i).to_owned();
            let path = t.substring_char(i + 1, n).to_owned();
            DefinedDependency::new(name, path)
        },
        None => DefinedDependency::new(t.to_owned(), t.to_owned()),
    }
}

/// Whether `name` is one of the base-platform libraries that are never
/// tracked as dependencies.
fn is_excluded(name: &str) -> (r: bool)
    ensures
        r == is_excluded_name(name@),
{
    crate::strutil::str_eq(name, "libhidlbase.so") || crate::strutil::str_eq(name, "liblog.so")
        || crate::strutil::str_eq(name, "libutils.so") || crate::strutil::str_eq(
        name,
        "libcutils.so",
    ) || crate::strutil::str_eq(name, "libc++.so") || crate::strutil::str_eq(name, "libc.so")
        || crate::strutil::str_eq(name, "libm.so") || crate::strutil::str_eq(name, "libdl.so")
}

/// Parses the dependency portion of a registry line, dropping excluded
/// names.
fn parse_deps(rest: &str) -> (ds: Vec<DefinedDependency>)
    ensures
        dep_views(ds@) == (if rest@.len() == 0 {
            Seq::<(Seq<char>, Seq<char>)>::empty()
        } else {
            keep_tokens(split_seq(rest@, ','))
        }),
        forall|k: int| 0 <= k < ds@.len() ==> !is_excluded_name((#[trigger] ds@[k]).name@),
{
    let mut ds: Vec<DefinedDependency> = Vec::new();
    if rest.unicode_len() == 0 {
        proof {
            assert(dep_views(ds@) =~= Seq::<(Seq<char>, Seq<char>)>::empty());
        }
        return ds;
    }
    let tokens = split_char(rest, ',');
    let n = tokens.len();
    let mut k: usize = 0;
    while k < n
        invariant
            n == tokens@.len(),
            k <= n,
            dep_views(ds@) == keep_tokens(views(tokens@).take(k as int)),
            forall|j: int| 0 <= j < ds@.len() ==> !is_excluded_name((#[trigger] ds@[j]).name@),
        decreases n - k,
    {
        let ghost prefix = views(tokens@).take(k as int);
        let ghost t = tokens@[k as int]@;
        proof {
            lemma_keep_tokens_push(prefix, t);
            assert(views(tokens@).take(k + 1) =~= prefix.push(t));
        }
        let d = parse_token(tokens[k].as_str());
        if !is_excluded(d.name.as_str()) {
            ds.push(d);
            proof {
                assert(dep_views(ds@) =~= keep_tokens(views(tokens@).take(k + 1)));
            }
        } else {
            proof {
                assert(dep_views(ds@) =~= keep_tokens(views(tokens@).take(k + 1)));
            }
        }
        k += 1;
    }
    proof {
        assert(views(tokens@).take(n as int) =~= views(tokens@));
    }
    ds
}

/// The names of the declared dependencies of record `i` that the locator
/// cannot resolve within the record's own bitness: the diagnostics that
/// edge resolution drops without aborting.
pub fn unresolved_for(libs: &Vec<Library>, i: usize) -> (r: Vec<String>)
    requires
        i < libs@.len(),
    ensures
        views(r@) == unresolved_names(
            metas(libs@),
            dep_views(libs@[i as int].defined_deps@),
            libs@[i as int].is_32_bit,
        ),
{
    let ghost ms = metas(libs@);
    let ghost dvs = dep_views(libs@[i as int].defined_deps@);
    let mut r: Vec<String> = Vec::new();
    let dn = libs[i].defined_deps.len();
    let is_32 = libs[i].is_32_bit;
    let mut d: usize = 0;
    while d < dn
        invariant
            i < libs@.len(),
            ms == metas(libs@),
            dvs == dep_views(libs@[i as int].defined_deps@),
            dn == libs@[i as int].defined_deps@.len(),
            is_32 == libs@[i as int].is_32_bit,
            d <= dn,
            views(r@) == unresolved_names(ms, dvs.take(d as int), is_32),
        decreases dn - d,
    {
        let ghost prefix = dvs.take(d as int);
        proof {
            lemma_resolved_edges_push(ms, prefix, dvs[d as int], is_32);
            assert(dvs.take(d + 1) =~= prefix.push(dvs[d as int]));
        }
        let dep_path = libs[i].defined_deps[d].path.as_str();
        proof {
            assert(dep_path@ == dvs[d as int].1);
        }
        match search_library(libs, dep_path, Some(is_32)) {
            Some(_) => {
                proof {
                    assert(views(r@) =~= unresolved_names(ms, dvs.take(d + 1), is_32));
                }
            },
            None => {
                r.push(libs[i].defined_deps[d].name.clone());
                proof {
                    assert(r@[r@.len() - 1]@ == dvs[d as int].0);
                    assert(views(r@) =~= unresolved_names(ms, dvs.take(d + 1), is_32));
                }
            },
        }
        d += 1;
    }
    proof {
        assert(dvs.take(dn as int) =~= dvs);
    }
    r
}

/// A registry line without a `;` separator; parsing aborts on it.  `line`
/// is the index of the offending record among the non-empty lines.
#[derive(Debug)]
pub struct ParseError {
    pub line: usize,
}

/// A library record as phase 1 of the build leaves it: every field is
/// determined by its registry line.
pub open spec fn lib_matches_line(lib: Library, l: Seq<char>) -> bool {
    &&& lib.path@ == line_path(l)
    &&& lib.name@ == crate::strutil::basename(line_path(l))
    &&& lib.is_32_bit == !crate::strutil::has_substr(
        crate::strutil::dirname(line_path(l)),
        crate::types::lib64_marker(),
    )
    &&& dep_views(lib.defined_deps@) == line_deps(l)
}

/// Every path of a well-formed registry contains a `/` (checked up to the
/// first malformed line, where parsing stops).
pub open spec fn paths_ok(data: Seq<char>) -> bool {
    let lines = registry_lines(data);
    forall|k: int|
        0 <= k < first_bad_line(lines) ==> has_char(line_path(#[trigger] lines[k]), '/')
}

impl LibraryHolder {
    /// Builds the graph from the registry text: one node per non-empty
    /// line, in file order, then one resolved edge per declared dependency
    /// the locator can satisfy, resolved within the declaring library's
    /// own bitness.  Fails on the first line without a `;`.
    pub fn new(data: &str) -> (r: Result<LibraryHolder, ParseError>)
        requires
            paths_ok(data@),
        ensures
            match r {
                Ok(h) => {
                    let lines = registry_lines(data@);
                    &&& first_bad_line(lines) == lines.len()
                    &&& h.libs@.len() == lines.len()
                    &&& forall|k: int|
                        0 <= k < lines.len() ==> lib_matches_line(
                            #[trigger] h.libs@[k],
                            lines[k],
                        )
                    &&& forall|k: int|
                        0 <= k < lines.len() ==> (#[trigger] h.libs@[k]).found_deps@
                            == resolved_edges(
                            metas(h.libs@),
                            line_deps(lines[k]),
                            h.libs@[k].is_32_bit,
                        )
                    &&& h.wf()
                },
                Err(e) => {
                    let lines = registry_lines(data@);
                    &&& first_bad_line(lines) < lines.len()
                    &&& e.line == first_bad_line(lines)
                },
            },
    {
        let ghost lines = registry_lines(data@);
        let raw = split_char(data, '\n');
        let line_vec = keep_nonempty(raw);
        proof {
            assert(views(line_vec@) == lines);
            lemma_first_bad_line(lines);
        }
        let n = line_vec.len();

        // Phase 1: one node per line, resolved edges left empty.
        let mut libs: Vec<Library> = Vec::new();
        let mut k: usize = 0;
        while k < n
            invariant
                paths_ok(data@),
                lines == registry_lines(data@),
                views(line_vec@) == lines,
                n == lines.len(),
                k <= n,
                libs@.len() == k,
                forall|j: int| 0 <= j < k ==> line_has_sep(#[trigger] lines[j]),
                forall|j: int|
                    0 <= j < k ==> lib_matches_line(#[trigger] libs@[j], lines[j]),
                forall|j: int| 0 <= j < k ==> (#[trigger] libs@[j]).found_deps@.len() == 0,
                forall|j: int, d: int|
                    0 <= j < k && 0 <= d < libs@[j].defined_deps@.len() ==> !is_excluded_name(
                        (#[trigger] libs@[j].defined_deps@[d]).name@,
                    ),
            decreases n - k,
        {
            let line = line_vec[k].as_str();
            proof {
                lemma_first_idx(line@, ';');
                lemma_has_char(line@, ';');
            }
            match find_char(line, ';') {
                None => {
                    proof {
                        lemma_first_bad_line(lines);
                        assert(!line_has_sep(lines[k as int]));
                        assert(first_bad_line(lines) == k as int);
                    }
                    return Err(ParseError { line: k });
                },
                Some(i) => {
                    proof {
                        assert(first_idx(line@, ';') == i as int);
                        assert(line_has_sep(lines[k as int]));
                        lemma_first_bad_line(lines);
                        assert(first_bad_line(lines) > k as int);
                        assert(has_char(line_path(lines[k as int]), '/'));
                    }
                    let len = line.unicode_len();
                    let path = line.substring_char(0, i).to_owned();
                    let rest = line.substring_char(i + 1, len);
                    let deps = parse_deps(rest);
                    proof {
                        assert(path@ == line_path(lines[k as int]));
                        assert(rest@ == line_rest(lines[k as int]));
                    }
                    let lib = Library::new(path, deps);
                    libs.push(lib);
                },
            }
            k += 1;
        }
        proof {
            lemma_first_bad_line(lines);
            assert(first_bad_line(lines) == lines.len());
        }

        // Phase 2: resolve every declared dependency within the declaring
        // library's own bitness; unresolved dependencies contribute no edge.
        let ghost nodes = libs@;
        let ghost ms = metas(nodes);
        let mut all_found: Vec<Vec<usize>> = Vec::new();
        let mut i: usize = 0;
        while i < n
            invariant
                n == nodes.len(),
                libs@ == nodes,
                ms == metas(nodes),
                i <= n,
                all_found@.len() == i,
                forall|j: int|
                    0 <= j < i ==> (#[trigger] all_found@[j])@ == resolved_edges(
                        ms,
                        dep_views(nodes[j].defined_deps@),
                        nodes[j].is_32_bit,
                    ),
            decreases n - i,
        {
            let ghost dvs = dep_views(nodes[i as int].defined_deps@);
            let mut found: Vec<usize> = Vec::new();
            let dn = libs[i].defined_deps.len();
            let is_32 = libs[i].is_32_bit;
            let mut d: usize = 0;
            while d < dn
                invariant
                    n == nodes.len(),
                    libs@ == nodes,
                    ms == metas(nodes),
                    i < n,
                    dvs == dep_views(nodes[i as int].defined_deps@),
                    dn == nodes[i as int].defined_deps@.len(),
                    is_32 == nodes[i as int].is_32_bit,
                    d <= dn,
                    found@ == resolved_edges(ms, dvs.take(d as int), is_32),
                decreases dn - d,
            {
                let ghost prefix = dvs.take(d as int);
                proof {
                    lemma_resolved_edges_push(ms, prefix, dvs[d as int], is_32);
                    assert(dvs.take(d + 1) =~= prefix.push(dvs[d as int]));
                }
                let dep_path = libs[i].defined_deps[d].path.as_str();
                proof {
                    assert(dep_path@ == dvs[d as int].1);
                }
                match search_library(&libs, dep_path, Some(is_32)) {
                    Some(x) => {
                        found.push(x);
                        proof {
                            assert(found@ =~= resolved_edges(ms, dvs.take(d + 1), is_32));
                        }
                    },
                    None => {
                        proof {
                            assert(found@ =~= resolved_edges(ms, dvs.take(d + 1), is_32));
                        }
                    },
                }
                d += 1;
            }
            proof {
                assert(dvs.take(dn as int) =~= dvs);
            }
            all_found.push(found);
            i += 1;
        }

        // Attach the edges, preserving every other field.
        let ghost found0 = all_found@;
        let mut rebuilt: Vec<Library> = Vec::new();
        while libs.len() > 0
            invariant
                n == nodes.len(),
                found0.len() == n,
                rebuilt@.len() + libs@.len() == n,
                libs@ == nodes.skip(rebuilt@.len() as int),
                all_found@ == found0.skip(rebuilt@.len() as int),
                forall|j: int|
                    0 <= j < rebuilt@.len() ==> {
                        let rb = #[trigger] rebuilt@[j];
                        &&& rb.name == nodes[j].name
                        &&& rb.path == nodes[j].path
                        &&& rb.is_32_bit == nodes[j].is_32_bit
                        &&& rb.defined_deps == nodes[j].defined_deps
                        &&& rb.found_deps == found0[j]
                    },
            decreases libs@.len(),
        {
            let lib = libs.remove(0);
            let f = all_found.remove(0);
            proof {
                assert(lib == nodes[rebuilt@.len() as int]);
                assert(f == found0[rebuilt@.len() as int]);
                assert(libs@ =~= nodes.skip(rebuilt@.len() as int + 1));
                assert(all_found@ =~= found0.skip(rebuilt@.len() as int + 1));
            }
            let Library { name, path, is_32_bit, defined_deps, found_deps: _ } = lib;
            rebuilt.push(Library { name, path, is_32_bit, defined_deps, found_deps: f });
        }
        proof {
            assert(metas(rebuilt@) =~= ms);
            assert forall|k2: int| 0 <= k2 < lines.len() implies lib_matches_line(
                #[trigger] rebuilt@[k2],
                lines[k2],
            ) by {
                assert(rebuilt@[k2].path@ == nodes[k2].path@);
                assert(rebuilt@[k2].defined_deps@ == nodes[k2].defined_deps@);
            }
            assert forall|k2: int| 0 <= k2 < lines.len() implies (#[trigger] rebuilt@[k2]).found_deps@
                == resolved_edges(metas(rebuilt@), line_deps(lines[k2]), rebuilt@[k2].is_32_bit) by {
                assert(rebuilt@[k2].found_deps@ == found0[k2]@);
                assert(dep_views(nodes[k2].defined_deps@) == line_deps(lines[k2]));
            }
            assert forall|k2: int| 0 <= k2 < rebuilt@.len() implies (#[trigger] rebuilt@[k2]).wf_node(
                rebuilt@.len() as nat,
            ) by {
                lemma_resolved_edges_range(
                    ms,
                    dep_views(nodes[k2].defined_deps@),
                    nodes[k2].is_32_bit,
                );
                assert(rebuilt@[k2].found_deps@ == found0[k2]@);
                assert(has_char(rebuilt@[k2].path@, '/'));
            }
        }
        Ok(LibraryHolder { libs: rebuilt })
    }
}

} // verus!
