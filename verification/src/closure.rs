//! The closure engine: resolves each query to a root record and computes
//! the deduplicated set of all records reachable over resolved edges.
//! The walk keeps a visited set, so it terminates and counts every record
//! once even on graphs with shared children or cycles.

use vstd::prelude::*;
use crate::types::{Library, LibraryHolder, metas, views};
use crate::utils::{locate_spec, search_library};

verus! {

/// A resolved edge from record `a` to record `b`.
pub open spec fn edge(libs: Seq<Library>, a: int, b: int) -> bool {
    &&& 0 <= a < libs.len()
    &&& 0 <= b < libs.len()
    &&& exists|k: int| 0 <= k < libs[a].found_deps@.len() && libs[a].found_deps@[k] as int == b
}

/// A non-empty sequence of record indices following resolved edges.
pub open spec fn is_walk(libs: Seq<Library>, w: Seq<int>) -> bool {
    &&& w.len() > 0
    &&& forall|k: int| 0 <= k < w.len() ==> 0 <= #[trigger] w[k] < libs.len()
    &&& forall|k: int| 0 <= k < w.len() - 1 ==> edge(libs, #[trigger] w[k], w[k + 1])
}

/// Record `b` is reachable from record `a` (in zero or more steps).
pub open spec fn reaches(libs: Seq<Library>, a: int, b: int) -> bool {
    exists|w: Seq<int>| is_walk(libs, w) && w.first() == a && w.last() == b
}

/// Record `root` is what the locator answers for one of the queries.
pub open spec fn is_query_root(libs: Seq<Library>, queries: Seq<Seq<char>>, root: int) -> bool {
    exists|q: int| 0 <= q < queries.len() && locate_spec(metas(libs), queries[q], None) == root
}

/// Record `j` belongs to the closure of the queries.
pub open spec fn in_closure(libs: Seq<Library>, queries: Seq<Seq<char>>, j: int) -> bool {
    exists|root: int| is_query_root(libs, queries, root) && reaches(libs, root, j)
}

/// Every record reaches itself.
pub proof fn lemma_reaches_refl(libs: Seq<Library>, a: int)
    requires
        0 <= a < libs.len(),
    ensures
        reaches(libs, a, a),
{
    let w: Seq<int> = seq![a];
    assert(is_walk(libs, w) && w.first() == a && w.last() == a);
}

/// Reachability extends over a single edge.
pub proof fn lemma_reaches_step(libs: Seq<Library>, a: int, b: int, c: int)
    requires
        reaches(libs, a, b),
        edge(libs, b, c),
    ensures
        reaches(libs, a, c),
{
    let w = choose|w: Seq<int>| is_walk(libs, w) && w.first() == a && w.last() == b;
    let w2 = w.push(c);
    assert forall|k: int| 0 <= k < w2.len() - 1 implies edge(libs, #[trigger] w2[k], w2[k + 1]) by {
        if k < w.len() - 1 {
            assert(w2[k] == w[k] && w2[k + 1] == w[k + 1]);
        } else {
            assert(w2[k] == w.last() && w2[k + 1] == c);
        }
    }
    assert(is_walk(libs, w2) && w2.first() == a && w2.last() == c);
}

/// A visited set that contains the start of a walk and is closed under
/// edges contains the walk's end.
proof fn lemma_walk_stays_visited(libs: Seq<Library>, vis: Seq<bool>, w: Seq<int>)
    requires
        vis.len() == libs.len(),
        is_walk(libs, w),
        vis[w.first()],
        forall|a: int, b: int| 0 <= a < libs.len() && vis[a] && edge(libs, a, b) ==> vis[b],
    ensures
        vis[w.last()],
    decreases w.len(),
{
    if w.len() == 1 {
    } else {
        let t = w.drop_first();
        assert(edge(libs, w[0], w[1]));
        assert(vis[w[1]]);
        assert forall|k: int| 0 <= k < t.len() - 1 implies edge(libs, #[trigger] t[k], t[k + 1]) by {
            assert(t[k] == w[k + 1] && t[k + 1] == w[k + 2]);
        }
        assert(is_walk(libs, t));
        assert(t.first() == w[1]);
        lemma_walk_stays_visited(libs, vis, t);
        assert(t.last() == w.last());
    }
}

/// How many entries of `s` are still false.
pub open spec fn count_false(s: Seq<bool>) -> nat
    decreases s.len(),
{
    if s.len() == 0 {
        0
    } else {
        count_false(s.drop_last()) + (if s.last() {
            0nat
        } else {
            1nat
        })
    }
}

proof fn lemma_count_false_update(s: Seq<bool>, i: int)
    requires
        0 <= i < s.len(),
        !s[i],
    ensures
        count_false(s.update(i, true)) + 1 == count_false(s),
    decreases s.len(),
{
    let u = s.update(i, true);
    if i == s.len() - 1 {
        assert(u.drop_last() =~= s.drop_last());
        assert(u.last());
    } else {
        assert(u.drop_last() =~= s.drop_last().update(i, true));
        lemma_count_false_update(s.drop_last(), i);
        assert(u.last() == s.last());
    }
}

impl LibraryHolder {
    /// Resolves each query (with no architecture hint) to a root record
    /// and returns, in ascending index order, every record reachable from
    /// some root over resolved edges.  Queries the locator cannot answer
    /// contribute nothing.  Each reachable record appears exactly once,
    /// however many routes lead to it, and the walk terminates even when
    /// the edges form a cycle.
    #[verifier::rlimit(80)]
    pub fn search(&self, queries: &Vec<String>) -> (r: Vec<usize>)
        requires
            self.wf(),
        ensures
            forall|a: int, b: int| 0 <= a < b < r@.len() ==> r@[a] < r@[b],
            forall|j: int|
                0 <= j < self.libs@.len() ==> (r@.contains(j as usize) <==> in_closure(
                    self.libs@,
                    views(queries@),
                    j,
                )),
            forall|k: int| 0 <= k < r@.len() ==> (#[trigger] r@[k]) < self.libs@.len(),
    {
        let ghost glibs = self.libs@;
        let ghost qv = views(queries@);
        let n = self.libs.len();
        let mut visited: Vec<bool> = vec![false; n];
        let mut stack: Vec<usize> = Vec::new();

        // Resolve the query roots.
        let nq = queries.len();
        let mut qi: usize = 0;
        while qi < nq
            invariant
                self.wf(),
                glibs == self.libs@,
                qv == views(queries@),
                n == glibs.len(),
                nq == queries@.len(),
                qi <= nq,
                visited@.len() == n,
                forall|k: int| 0 <= k < stack@.len() ==> (#[trigger] stack@[k]) < n,
                forall|k: int| 0 <= k < stack@.len() ==> visited@[#[trigger] stack@[k] as int],
                forall|j: int| 0 <= j < n && visited@[j] ==> stack@.contains(j as usize),
                forall|j: int| 0 <= j < n && visited@[j] ==> in_closure(glibs, qv, j),
                forall|q: int|
                    0 <= q < qi && locate_spec(metas(glibs), #[trigger] qv[q], None) >= 0
                        ==> visited@[locate_spec(metas(glibs), qv[q], None)],
            decreases nq - qi,
        {
            match search_library(&self.libs, queries[qi].as_str(), None) {
                Some(root) => {
                    if !visited[root] {
                        let ghost vis0 = visited@;
                        let ghost st0 = stack@;
                        visited.set(root, true);
                        stack.push(root);
                        proof {
                            lemma_reaches_refl(glibs, root as int);
                            assert(locate_spec(metas(glibs), qv[qi as int], None) == root as int);
                            assert(is_query_root(glibs, qv, root as int));
                            assert(in_closure(glibs, qv, root as int));
                            assert forall|j: int| 0 <= j < n && visited@[j] implies stack@.contains(
                                j as usize,
                            ) by {
                                if j == root as int {
                                    assert(stack@[st0.len() as int] == root);
                                } else {
                                    assert(vis0[j]);
                                    let k = choose|k: int|
                                        0 <= k < st0.len() && st0[k] == j as usize;
                                    assert(stack@[k] == j as usize);
                                }
                            }
                            assert forall|q: int|
                                0 <= q < qi + 1 && locate_spec(metas(glibs), #[trigger] qv[q], None)
                                    >= 0 implies visited@[locate_spec(metas(glibs), qv[q], None)] by {
                                crate::utils::lemma_locate_range(metas(glibs), qv[q], None);
                                if q < qi {
                                    assert(vis0[locate_spec(metas(glibs), qv[q], None)]);
                                }
                            }
                        }
                    }
                },
                None => {},
            }
            qi += 1;
        }

        // Expand until no record on the stack has an unvisited dependency.
        while stack.len() > 0
            invariant
                self.wf(),
                glibs == self.libs@,
                qv == views(queries@),
                n == glibs.len(),
                visited@.len() == n,
                forall|k: int| 0 <= k < stack@.len() ==> (#[trigger] stack@[k]) < n,
                forall|k: int| 0 <= k < stack@.len() ==> visited@[#[trigger] stack@[k] as int],
                forall|j: int| 0 <= j < n && visited@[j] ==> in_closure(glibs, qv, j),
                forall|q: int|
                    0 <= q < qv.len() && locate_spec(metas(glibs), #[trigger] qv[q], None) >= 0
                        ==> visited@[locate_spec(metas(glibs), qv[q], None)],
                forall|a: int, b: int|
                    0 <= a < n && visited@[a] && !stack@.contains(a as usize) && edge(glibs, a, b)
                        ==> visited@[b],
            decreases count_false(visited@) + stack@.len(),
        {
            let ghost measure0 = count_false(visited@) + stack@.len();
            let ghost stack_pre = stack@;
            let a = match stack.pop() {
                Some(x) => x,
                None => {
                    proof {
                        assert(false);
                    }
                    0
                },
            };
            proof {
                assert(stack@ == stack_pre.drop_last());
                assert(stack_pre.last() == a);
                assert forall|x: int|
                    0 <= x < n && !stack@.contains(#[trigger] (x as usize)) && x != a as int
                    implies !stack_pre.contains(x as usize) by {
                    if stack_pre.contains(x as usize) {
                        let k = choose|k: int|
                            0 <= k < stack_pre.len() && stack_pre[k] == x as usize;
                        assert(k < stack_pre.len() - 1);
                        assert(stack@[k] == x as usize);
                    }
                }
            }
            let dn = self.libs[a].found_deps.len();
            let mut d: usize = 0;
            while d < dn
                invariant
                    self.wf(),
                    glibs == self.libs@,
                    qv == views(queries@),
                    n == glibs.len(),
                    a < n,
                    dn == glibs[a as int].found_deps@.len(),
                    d <= dn,
                    visited@.len() == n,
                    visited@[a as int],
                    forall|k: int| 0 <= k < stack@.len() ==> (#[trigger] stack@[k]) < n,
                    forall|k: int| 0 <= k < stack@.len() ==> visited@[#[trigger] stack@[k] as int],
                    forall|j: int| 0 <= j < n && visited@[j] ==> in_closure(glibs, qv, j),
                    forall|q: int|
                        0 <= q < qv.len() && locate_spec(metas(glibs), #[trigger] qv[q], None) >= 0
                            ==> visited@[locate_spec(metas(glibs), qv[q], None)],
                    forall|x: int, b: int|
                        0 <= x < n && visited@[x] && !stack@.contains(x as usize) && x != a as int
                            && edge(glibs, x, b) ==> visited@[b],
                    forall|e: int|
                        0 <= e < d ==> visited@[#[trigger] glibs[a as int].found_deps@[e] as int],
                    count_false(visited@) + stack@.len() + 1 <= measure0,
                decreases dn - d,
            {
                let b = self.libs[a].found_deps[d];
                proof {
                    assert(b < n);
                }
                if !visited[b] {
                    proof {
                        lemma_count_false_update(visited@, b as int);
                        assert(in_closure(glibs, qv, a as int));
                        let root = choose|root: int|
                            is_query_root(glibs, qv, root) && reaches(glibs, root, a as int);
                        assert(edge(glibs, a as int, b as int)) by {
                            assert(glibs[a as int].found_deps@[d as int] as int == b as int);
                        }
                        lemma_reaches_step(glibs, root, a as int, b as int);
                        assert(in_closure(glibs, qv, b as int));
                    }
                    let ghost vis0 = visited@;
                    let ghost st0 = stack@;
                    visited.set(b, true);
                    stack.push(b);
                    proof {
                        assert(stack@[st0.len() as int] == b);
                        assert forall|q: int|
                            0 <= q < qv.len() && locate_spec(metas(glibs), #[trigger] qv[q], None)
                                >= 0 implies visited@[locate_spec(metas(glibs), qv[q], None)] by {
                            crate::utils::lemma_locate_range(metas(glibs), qv[q], None);
                            assert(vis0[locate_spec(metas(glibs), qv[q], None)]);
                        }
                        assert forall|k: int| 0 <= k < stack@.len() implies visited@[#[trigger] stack@[k] as int] by {
                            if k < st0.len() {
                                assert(st0[k] == stack@[k]);
                            }
                        }
                        assert forall|x: int, b2: int|
                            0 <= x < n && visited@[x] && !stack@.contains(x as usize) && x
                                != a as int && edge(glibs, x, b2) implies visited@[b2] by {
                            assert(x != b as int);
                            assert(vis0[x]);
                            if st0.contains(x as usize) {
                                let k = choose|k: int| 0 <= k < st0.len() && st0[k] == x as usize;
                                assert(stack@[k] == x as usize);
                            }
                            assert(!st0.contains(x as usize));
                            assert(vis0[b2]);
                        }
                    }
                }
                d += 1;
            }
            proof {
                assert forall|x: int, b2: int|
                    0 <= x < n && visited@[x] && !stack@.contains(x as usize) && edge(
                        glibs,
                        x,
                        b2,
                    ) implies visited@[b2] by {
                    if x == a as int {
                        let k = choose|k: int|
                            0 <= k < glibs[a as int].found_deps@.len() && glibs[
                                a as int
                            ].found_deps@[k] as int == b2;
                        assert(visited@[glibs[a as int].found_deps@[k] as int]);
                    }
                }
            }
        }

        // The stack is empty: the visited set is closed under edges and
        // contains every root, so it is exactly the closure.
        proof {
            assert forall|j: int| 0 <= j < n && in_closure(glibs, qv, j) implies visited@[j] by {
                let root = choose|root: int|
                    is_query_root(glibs, qv, root) && reaches(glibs, root, j);
                let w = choose|w: Seq<int>|
                    is_walk(glibs, w) && w.first() == root && w.last() == j;
                assert(0 <= root < n);
                assert(visited@[root]);
                lemma_walk_stays_visited(glibs, visited@, w);
            }
        }

        // Emit the visited records in ascending index order.
        let mut out: Vec<usize> = Vec::new();
        let mut j: usize = 0;
        while j < n
            invariant
                n == glibs.len(),
                visited@.len() == n,
                j <= n,
                forall|x: int, y: int| 0 <= x < y < out@.len() ==> out@[x] < out@[y],
                forall|k: int| 0 <= k < out@.len() ==> (#[trigger] out@[k]) < j,
                forall|i: int| 0 <= i < j ==> (out@.contains(i as usize) <==> visited@[i]),
            decreases n - j,
        {
            if visited[j] {
                let ghost out0 = out@;
                out.push(j);
                proof {
                    assert forall|i: int| 0 <= i < j + 1 implies (out@.contains(i as usize)
                        <==> visited@[i]) by {
                        if i == j as int {
                            assert(out@[out0.len() as int] == j as usize);
                        } else {
                            if visited@[i] {
                                let k = choose|k: int|
                                    0 <= k < out0.len() && out0[k] == i as usize;
                                assert(out@[k] == i as usize);
                            } else {
                                if out@.contains(i as usize) {
                                    let k = choose|k: int|
                                        0 <= k < out@.len() && out@[k] == i as usize;
                                    assert(k != out@.len() - 1);
                                    assert(out0[k] == i as usize);
                                }
                            }
                        }
                    }
                }
            } else {
                proof {
                    assert forall|i: int| 0 <= i < j + 1 implies (out@.contains(i as usize)
                        <==> visited@[i]) by {
                        if i == j as int {
                            if out@.contains(i as usize) {
                                let k = choose|k: int| 0 <= k < out@.len() && out@[k] == i as usize;
                                assert(out@[k] < j);
                            }
                        }
                    }
                }
            }
            j += 1;
        }
        proof {
            assert forall|jj: int| 0 <= jj < glibs.len() implies (out@.contains(jj as usize)
                <==> in_closure(glibs, qv, jj)) by {
                assert(out@.contains(jj as usize) <==> visited@[jj]);
            }
        }
        out
    }
}

} // verus!
