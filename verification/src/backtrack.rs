//! Pruned backtracking search ("fixed-length search").
//!
//! A depth-first exploration from the start vertex.  Before descending, the
//! search computes for every vertex its unweighted distance to the end
//! vertex; a branch whose remaining budget is smaller than that distance can
//! never finish in time and is cut.  The visited set and the partial path
//! are mutated on the way down and restored on the way back.  The pruning
//! is exact, so the search is complete: it answers `None` only when no
//! simple path of the requested length exists at all.

use vstd::prelude::*;
use crate::graph::Graph;
use crate::order::lex_le;
use crate::paths::{can_extend, is_extension, path_ok, valid_path};
use crate::bfs::{bfs_distances, dist_triangle, lemma_triangle_distance_bound};
use crate::laws::{lemma_complete_path_exists, lemma_valid_path_bounds};

verus! {

/// The visited set marks exactly the vertices on the partial path.
spec fn visited_matches(g: Graph, visited: Seq<bool>, p: Seq<usize>) -> bool {
    &&& visited.len() == g.size()
    &&& (forall|x: int| 0 <= x < g.size() ==> ((#[trigger] visited[x]) <==> p.contains(x as usize)))
}

/// Depth-first descent.  Extends `path` by exactly `remaining` vertices to
/// reach `end` on a simple path, or leaves `path` and `visited` exactly as
/// they were.  The descent is complete: whenever some extension exists it
/// finds one, because the distance pruning only ever cuts branches that no
/// extension passes through.
#[verifier::loop_isolation(false)]
#[verifier::rlimit(60)]
fn dfs(
    g: &Graph,
    end: usize,
    remaining: usize,
    dist: &Vec<usize>,
    visited: &mut Vec<bool>,
    path: &mut Vec<usize>,
) -> (found: bool)
    requires
        g.wf(),
        end < g.size(),
        dist@.len() == g.size(),
        dist@[end as int] == 0,
        dist_triangle(*g, dist@),
        old(path)@.len() >= 1,
        path_ok(*g, old(path)@),
        visited_matches(*g, old(visited)@, old(path)@),
        old(path)@.len() + remaining <= usize::MAX,
    ensures
        !found ==> final(path)@ == old(path)@ && final(visited)@ == old(visited)@,
        found ==> {
            &&& final(path)@.len() == old(path)@.len() + remaining
            &&& path_ok(*g, final(path)@)
            &&& final(path)@.subrange(0, old(path)@.len() as int) == old(path)@
            &&& final(path)@[final(path)@.len() - 1] == end
        },
        remaining == 0 ==> (found <==> old(path)@[old(path)@.len() - 1] == end),
        can_extend(*g, old(path)@, end, remaining) ==> found,
        found ==> forall|ext: Seq<usize>|
            #[trigger] is_extension(*g, old(path)@, end, remaining, ext)
                ==> lex_le(
                final(path)@.subrange(old(path)@.len() as int, final(path)@.len() as int),
                ext,
            ),
    decreases remaining,
{
    let ghost path0 = path@;
    let ghost visited0 = visited@;
    let cur = path[path.len() - 1];
    proof {
        assert(path0[path0.len() - 1] == cur);
        assert(path0.contains(cur));
    }
    if remaining == 0 {
        proof {
            if cur == end {
                assert(path@.subrange(0, path0.len() as int) =~= path0);
            }
            if can_extend(*g, path0, end, 0) {
                let ext = choose|ext: Seq<usize>| #[trigger] is_extension(*g, path0, end, 0, ext);
                assert(path0 + ext =~= path0);
                assert((path0 + ext)[path0.len() + ext.len() - 1] == end);
            }
            assert forall|ext: Seq<usize>|
                #[trigger] is_extension(*g, path0, end, 0, ext) implies
                lex_le(path@.subrange(path0.len() as int, path@.len() as int), ext) by {
                assert(path@.subrange(path0.len() as int, path@.len() as int).len() == 0);
            }
        }
        return cur == end;
    }
    // The end vertex is already placed once it is reached; a branch sitting
    // on it with budget left can never be completed into a simple path.
    if cur == end {
        proof {
            if can_extend(*g, path0, end, remaining) {
                let ext = choose|ext: Seq<usize>| #[trigger] is_extension(*g, path0, end, remaining, ext);
                let w = path0 + ext;
                assert(w[path0.len() - 1] == end);
                assert(w[w.len() - 1] == end);
                assert(false);
            }
        }
        return false;
    }
    // Reachability pruning: too far from the end to arrive in time.  Any
    // extension would contain a walk from here to the end of `remaining`
    // edges, which the distance labelling rules out.
    if dist[cur] > remaining {
        proof {
            if can_extend(*g, path0, end, remaining) {
                let ext = choose|ext: Seq<usize>| #[trigger] is_extension(*g, path0, end, remaining, ext);
                let w = path0 + ext;
                let q = w.subrange(path0.len() - 1, w.len() as int);
                assert(q[0] == cur);
                assert(q[q.len() - 1] == w[w.len() - 1]);
                assert forall|i: int| 0 <= i < q.len() implies
                    ((#[trigger] q[i]) as int) < g.size() by {
                    assert(q[i] == w[path0.len() - 1 + i]);
                }
                assert forall|i: int| 0 <= i < q.len() - 1 implies
                    g.edge(#[trigger] q[i] as int, q[i + 1] as int) by {
                    assert(q[i] == w[path0.len() - 1 + i]);
                    assert(q[i + 1] == w[path0.len() - 1 + i + 1]);
                }
                assert forall|i: int, j: int|
                    0 <= i < q.len() && 0 <= j < q.len() && i != j implies q[i] != q[j] by {
                    assert(q[i] == w[path0.len() - 1 + i]);
                    assert(q[j] == w[path0.len() - 1 + j]);
                }
                assert(path_ok(*g, q));
                lemma_triangle_distance_bound(*g, dist@, end, q);
                assert(false);
            }
        }
        return false;
    }
    let n = g.vertex_count();
    for v in 0..n
        invariant
            path@ == path0,
            visited@ == visited0,
            forall|ext: Seq<usize>|
                #[trigger] is_extension(*g, path0, end, remaining, ext)
                    ==> (ext[0] as int) >= v,
    {
        if g.has_edge(cur, v) && !visited[v] {
            proof {
                assert(!path0.contains(v));
            }
            path.push(v);
            visited[v] = true;
            proof {
                let pushed = path0.push(v);
                assert(path@ == pushed);
                assert forall|i: int| 0 <= i < pushed.len() - 1 implies
                    g.edge(#[trigger] pushed[i] as int, pushed[i + 1] as int) by {
                    if i < path0.len() - 1 {
                        assert(g.edge(path0[i] as int, path0[i + 1] as int));
                    } else {
                        assert(pushed[i] == cur);
                        assert(pushed[i + 1] == v);
                    }
                }
                assert forall|i: int, j: int|
                    0 <= i < pushed.len() && 0 <= j < pushed.len() && i != j implies
                    pushed[i] != pushed[j] by {
                    if i < path0.len() && j < path0.len() {
                    } else if j == path0.len() {
                        assert(pushed[i] == path0[i]);
                        if path0[i] == v {
                            assert(path0.contains(v));
                        }
                    } else {
                        assert(pushed[j] == path0[j]);
                        if path0[j] == v {
                            assert(path0.contains(v));
                        }
                    }
                }
                assert(pushed.no_duplicates());
                assert(path_ok(*g, pushed));
                assert forall|x: int| 0 <= x < g.size() implies
                    ((#[trigger] visited@[x]) <==> pushed.contains(x as usize)) by {
                    if x == v as int {
                        assert(pushed[path0.len() as int] == v);
                        assert(pushed.contains(v));
                    } else {
                        if pushed.contains(x as usize) {
                            let k = choose|k: int|
                                0 <= k < pushed.len() && pushed[k] == x as usize;
                            assert(k < path0.len());
                            assert(path0[k] == x as usize);
                            assert(path0.contains(x as usize));
                        }
                        if path0.contains(x as usize) {
                            let k = choose|k: int|
                                0 <= k < path0.len() && path0[k] == x as usize;
                            assert(pushed[k] == x as usize);
                        }
                    }
                }
                assert(visited_matches(*g, visited@, pushed));
            }
            if dfs(g, end, remaining - 1, dist, visited, path) {
                proof {
                    let pushed = path0.push(v);
                    assert forall|k: int| 0 <= k < path0.len() implies
                        path@.subrange(0, path0.len() as int)[k] == path0[k] by {
                        assert(path@[k] == pushed[k]);
                    }
                    assert(path@.subrange(0, path0.len() as int) =~= path0);
                    // The branch taken first wins the lexicographic order:
                    // any extension starts at `v` or later, and among those
                    // through `v` the recursive result is least.
                    let r_ext = path@.subrange(path0.len() as int, path@.len() as int);
                    let r_tail = path@.subrange(pushed.len() as int, path@.len() as int);
                    assert(path@[path0.len() as int] == pushed[path0.len() as int]);
                    assert(r_ext[0] == v);
                    assert(r_ext.drop_first() =~= r_tail);
                    assert forall|ext: Seq<usize>|
                        #[trigger] is_extension(*g, path0, end, remaining, ext) implies
                        lex_le(r_ext, ext) by {
                        let w = path0 + ext;
                        assert((ext[0] as int) >= v);
                        if ext[0] == v {
                            assert(w[path0.len() - 1] == cur);
                            assert(w[path0.len() as int] == v);
                            let tail = ext.subrange(1, ext.len() as int);
                            assert(pushed + tail =~= w);
                            assert((pushed + tail)[pushed.len() + tail.len() - 1]
                                == w[w.len() - 1]);
                            assert(is_extension(*g, pushed, end, (remaining - 1) as usize, tail));
                            assert(lex_le(r_tail, tail));
                            assert(ext.drop_first() =~= tail);
                            assert(r_ext.len() == remaining);
                        } else {
                            assert((r_ext[0] as int) < (ext[0] as int));
                        }
                    }
                }
                return true;
            }
            visited[v] = false;
            let _ = path.pop();
            proof {
                assert(path@ =~= path0);
                assert(visited@ =~= visited0);
            }
        }
        proof {
            // No extension can start at `v`: either the branch through `v`
            // was never viable, or it was taken and the recursive contract
            // would have forced success.
            assert forall|ext: Seq<usize>|
                #[trigger] is_extension(*g, path0, end, remaining, ext) implies
                (ext[0] as int) >= v + 1 by {
                let w = path0 + ext;
                if ext[0] == v {
                    assert(w[path0.len() - 1] == cur);
                    assert(w[path0.len() as int] == v);
                    assert(g.edge(cur as int, v as int));
                    assert(!path0.contains(v)) by {
                        if path0.contains(v) {
                            let j = choose|j: int| 0 <= j < path0.len() && path0[j] == v;
                            assert(w[j] == v);
                            assert(w[j] != w[path0.len() as int]);
                        }
                    }
                    let tail = ext.subrange(1, ext.len() as int);
                    assert(path0.push(v) + tail =~= w);
                    assert((path0.push(v) + tail)[path0.push(v).len() + tail.len() - 1]
                        == w[w.len() - 1]);
                    assert(is_extension(*g, path0.push(v), end, (remaining - 1) as usize, tail));
                    assert(false);
                }
            }
        }
    }
    proof {
        if can_extend(*g, path0, end, remaining) {
            let ext = choose|ext: Seq<usize>| #[trigger] is_extension(*g, path0, end, remaining, ext);
            let w = path0 + ext;
            assert((ext[0] as int) >= n);
            assert((w[path0.len() as int] as int) < g.size());
            assert(false);
        }
    }
    false
}

/// Finds a simple path of exactly `length` vertices from `start` to `end`
/// by pruned depth-first backtracking.  The search is sound and complete:
/// it answers `Some` exactly when a path of the requested length exists,
/// and every returned path is valid.  In particular, when such a path is
/// provably absent — the length exceeds the vertex count, or a
/// single-vertex path is asked for between distinct endpoints — it reports
/// `None`; the single-vertex boundary case always succeeds; and on a
/// complete graph every admissible request succeeds.
pub fn pruned_backtrack(g: &Graph, start: usize, end: usize, length: usize) -> (r: Option<Vec<usize>>)
    requires
        g.wf(),
        start < g.size(),
        end < g.size(),
        length >= 1,
    ensures
        r matches Some(p) ==> valid_path(*g, p@, start, end, length),
        (exists|q: Seq<usize>| valid_path(*g, q, start, end, length)) <==> r is Some,
        length == 1 && start == end ==> (r matches Some(p) && p@ =~= seq![start]),
        length == 1 && start != end ==> r is None,
        length as int > g.size() ==> r is None,
        g.complete() && start != end && 2 <= length && length as int <= g.size() ==> r is Some,
        r matches Some(p) ==> (forall|q: Seq<usize>|
            valid_path(*g, q, start, end, length) ==> lex_le(p@, q)),
{
    let dist = bfs_distances(g, end);
    let n = g.vertex_count();
    let mut visited: Vec<bool> = Vec::new();
    for i in 0..n
        invariant
            visited@.len() == i,
            forall|k: int| 0 <= k < i ==> !(#[trigger] visited@[k]),
    {
        visited.push(false);
    }
    let mut path: Vec<usize> = Vec::new();
    path.push(start);
    visited[start] = true;
    proof {
        assert forall|x: int| 0 <= x < g.size() implies
            ((#[trigger] visited@[x]) <==> path@.contains(x as usize)) by {
            if path@.contains(x as usize) {
                let k = choose|k: int| 0 <= k < path@.len() && path@[k] == x as usize;
                assert(path@[0] == start);
            }
            if x == start as int {
                assert(path@[0] == start);
                assert(path@.contains(start));
            }
        }
    }
    let ghost p0 = path@;
    let found = dfs(g, end, length - 1, &dist, &mut visited, &mut path);
    if found {
        proof {
            assert(path@[0] == path@.subrange(0, 1)[0]);
            assert(valid_path(*g, path@, start, end, length));
            lemma_valid_path_bounds(*g, path@, start, end, length);
            // The first path found is the lexicographically least one.
            let r_ext = path@.subrange(p0.len() as int, path@.len() as int);
            assert forall|q: Seq<usize>|
                valid_path(*g, q, start, end, length) implies lex_le(path@, q) by {
                let ext_q = q.subrange(1, q.len() as int);
                assert(p0 + ext_q =~= q);
                assert((p0 + ext_q)[p0.len() + ext_q.len() - 1] == q[q.len() - 1]);
                assert(is_extension(*g, p0, end, (length - 1) as usize, ext_q));
                assert(lex_le(r_ext, ext_q));
                assert(path@[0] == start);
                assert(q[0] == start);
                assert(path@.drop_first() =~= r_ext);
                assert(q.drop_first() =~= ext_q);
            }
        }
        Some(path)
    } else {
        proof {
            // Failure refutes every candidate: a valid path of the
            // requested length would hand the descent an extension.
            if exists|q: Seq<usize>| valid_path(*g, q, start, end, length) {
                let q = choose|q: Seq<usize>| valid_path(*g, q, start, end, length);
                let ext = q.subrange(1, q.len() as int);
                assert(path@ + ext =~= q);
                assert((path@ + ext)[path@.len() + ext.len() - 1] == q[q.len() - 1]);
                assert(is_extension(*g, path@, end, (length - 1) as usize, ext));
                assert(false);
            }
            if g.complete() && start != end && 2 <= length && length as int <= g.size() {
                lemma_complete_path_exists(*g, start, end, length);
                assert(false);
            }
        }
        None
    }
}

} // verus!
