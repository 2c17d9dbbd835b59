//! Breadth-first primitives shared by the two searches.
//!
//! `bfs_distances` computes, for every vertex, an unweighted distance to a
//! target vertex; the labelling never overestimates, which makes it a safe
//! pruning bound.  `bfs_path` finds one shortest path between two vertices
//! while avoiding a set of blocked vertices and, for the first hop only, a
//! set of banned neighbours; every path it returns is such an admissible
//! route, it succeeds whenever any admissible route exists, and it never
//! returns a longer route than necessary.

use vstd::prelude::*;
use crate::graph::Graph;
use crate::paths::path_ok;

verus! {

/// A distance labelling compatible with the edge relation: across any edge
/// the labels differ by at most one.  Together with a zero label at the
/// target this bounds every label from below by the true distance, which is
/// what makes the backtracking search's pruning safe.
pub open spec fn dist_triangle(g: Graph, dist: Seq<usize>) -> bool {
    forall|a: int, b: int|
        0 <= a < g.size() && 0 <= b < g.size() && g.edge(a, b)
            ==> (dist[a] as int) <= (dist[b] as int) + 1
}

/// Distances from every vertex to `target`, one entry per vertex.  An entry
/// equal to the vertex count means "not reached"; a simple path between the
/// two vertices then needs more steps than any simple path can have.  The
/// labelling is zero exactly at the target and changes by at most one
/// across any edge, so it never overestimates how close a vertex is to the
/// target.
#[verifier::loop_isolation(false)]
#[verifier::rlimit(60)]
pub fn bfs_distances(g: &Graph, target: usize) -> (dist: Vec<usize>)
    requires
        g.wf(),
        target < g.size(),
    ensures
        dist@.len() == g.size(),
        forall|v: int| 0 <= v < g.size()
            ==> (((#[trigger] dist@[v] as int) == 0) <==> v == target as int),
        forall|v: int| 0 <= v < g.size() ==> (#[trigger] dist@[v] as int) <= g.size(),
        dist_triangle(*g, dist@),
{
    let n = g.vertex_count();
    let mut dist: Vec<usize> = Vec::new();
    for i in 0..n
        invariant
            dist@.len() == i,
            forall|k: int| 0 <= k < i ==> (#[trigger] dist@[k] as int) == n,
    {
        dist.push(n);
    }
    dist[target] = 0;
    let mut frontier: Vec<usize> = Vec::new();
    frontier.push(target);
    proof {
        assert(frontier@[0] == target);
        assert forall|v: int| 0 <= v < n implies
            (((dist@[v] as int) == 0) <==> frontier@.contains(v as usize)) by {
            if (dist@[v] as int) == 0 {
                assert(v == target as int);
            }
            if frontier@.contains(v as usize) {
                let k = choose|k: int| 0 <= k < frontier@.len() && frontier@[k] == v as usize;
                assert(k == 0);
            }
        }
    }
    let mut d: usize = 1;
    while d < n && frontier.len() > 0
        invariant
            1 <= d <= n,
            dist@.len() == n,
            forall|v: int| 0 <= v < n
                ==> (((#[trigger] dist@[v] as int) == 0) <==> v == target as int),
            forall|v: int| 0 <= v < n ==> (#[trigger] dist@[v] as int) <= n,
            forall|v: int| 0 <= v < n && (#[trigger] dist@[v] as int) < n ==> (dist@[v] as int) < d,
            forall|v: int| 0 <= v < n
                ==> (((#[trigger] dist@[v] as int) == d - 1) <==> frontier@.contains(v as usize)),
            forall|k: int| 0 <= k < frontier@.len() ==> (#[trigger] frontier@[k] as int) < n,
            forall|a: int, b: int| #![trigger g.edge(a, b)]
                0 <= a < n && 0 <= b < n && g.edge(a, b) && (dist@[a] as int) < d - 1
                    ==> (dist@[b] as int) <= (dist@[a] as int) + 1,
        decreases n - d,
    {
        let mut next: Vec<usize> = Vec::new();
        for fi in 0..frontier.len()
            invariant
                dist@.len() == n,
                forall|v: int| 0 <= v < n
                    ==> (((#[trigger] dist@[v] as int) == 0) <==> v == target as int),
                forall|v: int| 0 <= v < n ==> (#[trigger] dist@[v] as int) <= n,
                forall|v: int| 0 <= v < n && (#[trigger] dist@[v] as int) < n
                    ==> (dist@[v] as int) <= d,
                forall|v: int| 0 <= v < n
                    ==> (((#[trigger] dist@[v] as int) == d - 1)
                        <==> frontier@.contains(v as usize)),
                forall|a: int, b: int| #![trigger g.edge(a, b)]
                    0 <= a < n && 0 <= b < n && g.edge(a, b) && (dist@[a] as int) < d - 1
                        ==> (dist@[b] as int) <= (dist@[a] as int) + 1,
                forall|v: int| 0 <= v < n
                    ==> (((#[trigger] dist@[v] as int) == d) <==> next@.contains(v as usize)),
                forall|k: int| 0 <= k < next@.len() ==> (#[trigger] next@[k] as int) < n,
                forall|ff: int, x: int|
                    0 <= ff < fi && 0 <= x < n && g.edge(#[trigger] frontier@[ff] as int, x)
                        ==> (#[trigger] dist@[x] as int) <= d,
        {
            let u = frontier[fi];
            for v in 0..n
                invariant
                    u == frontier@[fi as int],
                    (u as int) < n,
                    dist@.len() == n,
                    forall|x: int| 0 <= x < n
                        ==> (((#[trigger] dist@[x] as int) == 0) <==> x == target as int),
                    forall|x: int| 0 <= x < n ==> (#[trigger] dist@[x] as int) <= n,
                    forall|x: int| 0 <= x < n && (#[trigger] dist@[x] as int) < n
                        ==> (dist@[x] as int) <= d,
                    forall|x: int| 0 <= x < n
                        ==> (((#[trigger] dist@[x] as int) == d - 1)
                            <==> frontier@.contains(x as usize)),
                    forall|a: int, b: int| #![trigger g.edge(a, b)]
                        0 <= a < n && 0 <= b < n && g.edge(a, b)
                            && (dist@[a] as int) < d - 1
                            ==> (dist@[b] as int) <= (dist@[a] as int) + 1,
                    forall|x: int| 0 <= x < n
                        ==> (((#[trigger] dist@[x] as int) == d) <==> next@.contains(x as usize)),
                    forall|k: int| 0 <= k < next@.len() ==> (#[trigger] next@[k] as int) < n,
                    forall|ff: int, x: int|
                        0 <= ff < fi && 0 <= x < n && g.edge(#[trigger] frontier@[ff] as int, x)
                            ==> (#[trigger] dist@[x] as int) <= d,
                    forall|x: int| 0 <= x < v && g.edge(u as int, x)
                        ==> (#[trigger] dist@[x] as int) <= d,
            {
                if g.has_edge(u, v) && dist[v] == n {
                    let ghost next0 = next@;
                    dist[v] = d;
                    next.push(v);
                    proof {
                        assert forall|x: int| 0 <= x < n implies
                            (((dist@[x] as int) == d) <==> next@.contains(x as usize)) by {
                            if x == v as int {
                                assert(next@[next@.len() - 1] == v);
                                assert(next@.contains(v));
                            } else {
                                if next@.contains(x as usize) {
                                    let k = choose|k: int|
                                        0 <= k < next@.len() && next@[k] == x as usize;
                                    assert(k < next@.len() - 1);
                                    assert(next0[k] == x as usize);
                                    assert(next0.contains(x as usize));
                                }
                                if next0.contains(x as usize) {
                                    let k = choose|k: int|
                                        0 <= k < next0.len() && next0[k] == x as usize;
                                    assert(next@[k] == x as usize);
                                    assert(next@.contains(x as usize));
                                }
                            }
                        }
                    }
                }
            }
        }
        proof {
            // Every vertex of this round's frontier has been processed, so
            // the edge-compatibility now reaches one level further out.
            assert forall|a: int, b: int|
                0 <= a < n && 0 <= b < n && g.edge(a, b) && (dist@[a] as int) < d implies
                (dist@[b] as int) <= (dist@[a] as int) + 1 by {
                if (dist@[a] as int) == d - 1 {
                    assert(frontier@.contains(a as usize));
                    let k = choose|k: int|
                        0 <= k < frontier@.len() && frontier@[k] == a as usize;
                    assert(g.edge(frontier@[k] as int, b));
                    assert((dist@[b] as int) <= d);
                }
            }
        }
        frontier = next;
        d = d + 1;
    }
    proof {
        assert forall|a: int, b: int|
            0 <= a < n && 0 <= b < n && g.edge(a, b) implies
            (dist@[b] as int) <= (dist@[a] as int) + 1 by {
            if (dist@[a] as int) == d - 1 {
                if frontier.len() == 0 {
                    assert(frontier@.contains(a as usize));
                    let k = choose|k: int|
                        0 <= k < frontier@.len() && frontier@[k] == a as usize;
                    assert(false);
                } else {
                    assert(d >= n);
                    assert((dist@[b] as int) <= n);
                }
            } else if (dist@[a] as int) < d - 1 {
            } else {
                assert((dist@[a] as int) == n);
                assert((dist@[b] as int) <= n);
            }
        }
        assert forall|a: int, b: int|
            0 <= a < g.size() && 0 <= b < g.size() && g.edge(a, b) implies
            (dist@[a] as int) <= (dist@[b] as int) + 1 by {
            g.lemma_edge_symmetric(a, b);
        }
    }
    dist
}

/// A labelling that is zero at `target` and edge-compatible never
/// overestimates: any path over real edges ending at `target` uses at
/// least `dist[q[0]]` edges.
pub proof fn lemma_triangle_distance_bound(g: Graph, dist: Seq<usize>, target: usize, q: Seq<usize>)
    requires
        dist.len() == g.size(),
        (target as int) < g.size(),
        dist[target as int] == 0,
        dist_triangle(g, dist),
        path_ok(g, q),
        q.len() >= 1,
        q[q.len() - 1] == target,
    ensures
        (dist[q[0] as int] as int) <= q.len() - 1,
    decreases q.len(),
{
    if q.len() == 1 {
        assert(q[0] == target);
    } else {
        let tail = q.subrange(1, q.len() as int);
        assert forall|i: int| 0 <= i < tail.len() implies
            ((#[trigger] tail[i]) as int) < g.size() by {
            assert(tail[i] == q[i + 1]);
        }
        assert forall|i: int| 0 <= i < tail.len() - 1 implies
            g.edge(#[trigger] tail[i] as int, tail[i + 1] as int) by {
            assert(tail[i] == q[i + 1]);
            assert(tail[i + 1] == q[i + 2]);
        }
        assert forall|i: int, j: int|
            0 <= i < tail.len() && 0 <= j < tail.len() && i != j implies
            tail[i] != tail[j] by {
            assert(tail[i] == q[i + 1]);
            assert(tail[j] == q[j + 1]);
        }
        assert(path_ok(g, tail));
        assert(g.edge(q[0] as int, q[1] as int));
        lemma_triangle_distance_bound(g, dist, target, tail);
        assert(tail[0] == q[1]);
    }
}

/// The breadth-first invariant tying distances and parents together: every
/// reached vertex is unblocked, only the source has distance zero, a vertex
/// one step out was not a banned first hop, and every other reached vertex
/// has a reached parent one step closer joined to it by a real edge.
#[verifier::opaque]
spec fn bfs_inv(
    g: Graph,
    dist: Seq<usize>,
    parent: Seq<usize>,
    blocked: Seq<bool>,
    banned: Seq<bool>,
    src: usize,
) -> bool {
    let n = g.size();
    &&& dist.len() == n
    &&& parent.len() == n
    &&& blocked.len() == n
    &&& banned.len() == n
    &&& (dist[src as int] as int) == 0
    &&& (forall|v: int| 0 <= v < n ==> (#[trigger] dist[v] as int) <= n)
    &&& (forall|v: int| #![trigger dist[v]]
        0 <= v < n && (dist[v] as int) < n ==> {
            &&& !blocked[v]
            &&& ((dist[v] as int) == 0 <==> v == src as int)
            &&& ((dist[v] as int) == 1 ==> !banned[v])
            &&& ((dist[v] as int) > 0 ==> {
                &&& (parent[v] as int) < n
                &&& (dist[parent[v] as int] as int) < n
                &&& (dist[parent[v] as int] as int) + 1 == dist[v] as int
                &&& g.edge(parent[v] as int, v)
            })
        })
}

/// A candidate route the search is asked to beat: a simple path over real
/// edges from `src` to `dst` that touches no blocked vertex and whose
/// first hop is not banned.
pub open spec fn avoiding_path(
    g: Graph,
    q: Seq<usize>,
    src: usize,
    dst: usize,
    blocked: Seq<bool>,
    banned_first: Seq<bool>,
) -> bool {
    &&& q.len() >= 1
    &&& q[0] == src
    &&& q[q.len() - 1] == dst
    &&& path_ok(g, q)
    &&& (forall|i: int| 0 <= i < q.len() ==> !blocked[#[trigger] q[i] as int])
    &&& (q.len() >= 2 ==> !banned_first[q[1] as int])
}

/// The property the finished labelling satisfies: across any admissible
/// hop — into an unblocked vertex, and not a banned first hop out of
/// `src` — the labels grow by at most one.
spec fn relaxed(
    g: Graph,
    dist: Seq<usize>,
    blocked: Seq<bool>,
    banned: Seq<bool>,
    src: usize,
) -> bool {
    forall|u: int, w: int| #![trigger g.edge(u, w)]
        0 <= u < g.size() && 0 <= w < g.size() && g.edge(u, w)
            && (dist[u] as int) < g.size() && !blocked[w]
            && (u == src as int ==> !banned[w])
            ==> (dist[w] as int) <= (dist[u] as int) + 1
}

/// A labelling that is zero at `src` and relaxed across every admissible
/// hop bounds every admissible route from above: the route's last vertex
/// carries a label of at most the route's edge count.
proof fn lemma_relaxed_route_bound(
    g: Graph,
    dist: Seq<usize>,
    blocked: Seq<bool>,
    banned: Seq<bool>,
    src: usize,
    q: Seq<usize>,
)
    requires
        dist.len() == g.size(),
        blocked.len() == g.size(),
        banned.len() == g.size(),
        (src as int) < g.size(),
        (dist[src as int] as int) == 0,
        relaxed(g, dist, blocked, banned, src),
        q.len() >= 1,
        q[0] == src,
        path_ok(g, q),
        forall|i: int| 0 <= i < q.len() ==> !blocked[#[trigger] q[i] as int],
        q.len() >= 2 ==> !banned[q[1] as int],
    ensures
        (dist[q[q.len() - 1] as int] as int) <= q.len() - 1,
    decreases q.len(),
{
    crate::laws::lemma_distinct_bounded(q, g.size());
    if q.len() == 1 {
    } else {
        let front = q.drop_last();
        assert(front[0] == q[0]);
        assert forall|i: int| 0 <= i < front.len() implies
            ((#[trigger] front[i]) as int) < g.size() && !blocked[front[i] as int] by {
            assert(front[i] == q[i]);
        }
        assert forall|i: int| 0 <= i < front.len() - 1 implies
            g.edge(#[trigger] front[i] as int, front[i + 1] as int) by {
            assert(front[i] == q[i]);
            assert(front[i + 1] == q[i + 1]);
        }
        assert forall|i: int, j: int|
            0 <= i < front.len() && 0 <= j < front.len() && i != j implies
            front[i] != front[j] by {
            assert(front[i] == q[i]);
            assert(front[j] == q[j]);
        }
        assert(path_ok(g, front));
        if front.len() >= 2 {
            assert(front[1] == q[1]);
        }
        lemma_relaxed_route_bound(g, dist, blocked, banned, src, front);
        let u = q[q.len() - 2] as int;
        let w = q[q.len() - 1] as int;
        assert(front[front.len() - 1] == q[q.len() - 2]);
        assert((dist[u] as int) <= q.len() - 2);
        assert(g.edge(u, w));
        if u == src as int {
            // the source occurs only at the front of a simple path
            assert(q[q.len() - 2] == q[0]);
            assert(q.len() - 2 == 0);
            assert(w == q[1] as int);
        }
        assert((dist[w] as int) <= (dist[u] as int) + 1);
    }
}

/// Processes one frontier vertex `u` at round `d`: every admissible
/// neighbour not yet labelled receives label `d` with parent `u` and joins
/// the next frontier; every label already present is left untouched.
#[verifier::rlimit(100)]
fn relax_from(
    g: &Graph,
    src: usize,
    u: usize,
    d: usize,
    blocked: &Vec<bool>,
    banned_first: &Vec<bool>,
    dist: &mut Vec<usize>,
    parent: &mut Vec<usize>,
    next: &mut Vec<usize>,
)
    requires
        g.wf(),
        (src as int) < g.size(),
        (u as int) < g.size(),
        1 <= d < g.size(),
        (old(dist)@[u as int] as int) == d - 1,
        bfs_inv(*g, old(dist)@, old(parent)@, blocked@, banned_first@, src),
        forall|x: int| 0 <= x < g.size() && (#[trigger] old(dist)@[x] as int) < g.size()
            ==> (old(dist)@[x] as int) <= d,
        forall|x: int| 0 <= x < g.size()
            ==> (((#[trigger] old(dist)@[x] as int) == d) <==> old(next)@.contains(x as usize)),
        forall|k: int| 0 <= k < old(next)@.len() ==> (#[trigger] old(next)@[k] as int) < g.size(),
    ensures
        bfs_inv(*g, final(dist)@, final(parent)@, blocked@, banned_first@, src),
        forall|x: int| 0 <= x < g.size() && (#[trigger] old(dist)@[x] as int) < g.size()
            ==> final(dist)@[x] == old(dist)@[x],
        forall|x: int| #![trigger final(dist)@[x]]
            0 <= x < g.size() && final(dist)@[x] != old(dist)@[x]
                ==> (final(dist)@[x] as int) == d,
        forall|x: int| 0 <= x < g.size() && (#[trigger] final(dist)@[x] as int) < g.size()
            ==> (final(dist)@[x] as int) <= d,
        forall|x: int| 0 <= x < g.size()
            ==> (((#[trigger] final(dist)@[x] as int) == d) <==> final(next)@.contains(x as usize)),
        forall|k: int| 0 <= k < final(next)@.len() ==> (#[trigger] final(next)@[k] as int) < g.size(),
        forall|x: int|
            0 <= x < g.size() && g.edge(u as int, x) && !blocked@[x]
                && !(d == 1 && banned_first@[x])
                ==> (#[trigger] final(dist)@[x] as int) <= d,
{
    let n = g.vertex_count();
    proof {
        assert(dist@.len() == n && parent@.len() == n && blocked@.len() == n
            && banned_first@.len() == n && (dist@[src as int] as int) == 0) by {
            reveal(bfs_inv);
        }
    }
    let ghost dist0 = dist@;
    for v in 0..n
        invariant
            g.wf(),
            n == g.size(),
            (src as int) < n,
            (u as int) < n,
            1 <= d < n,
            blocked@.len() == n,
            banned_first@.len() == n,
            dist@.len() == n,
            parent@.len() == n,
            dist0.len() == n,
            (dist0[u as int] as int) == d - 1,
            (dist0[src as int] as int) == 0,
            bfs_inv(*g, dist@, parent@, blocked@, banned_first@, src),
            forall|x: int| 0 <= x < n && (#[trigger] dist0[x] as int) < n
                ==> dist@[x] == dist0[x],
            forall|x: int| #![trigger dist@[x]]
                0 <= x < n && dist@[x] != dist0[x] ==> (dist@[x] as int) == d,
            forall|x: int| 0 <= x < n && (#[trigger] dist@[x] as int) < n
                ==> (dist@[x] as int) <= d,
            forall|x: int| 0 <= x < n
                ==> (((#[trigger] dist@[x] as int) == d) <==> next@.contains(x as usize)),
            forall|k: int| 0 <= k < next@.len() ==> (#[trigger] next@[k] as int) < n,
            forall|x: int|
                0 <= x < v && g.edge(u as int, x) && !blocked@[x]
                    && !(d == 1 && banned_first@[x])
                    ==> (#[trigger] dist@[x] as int) <= d,
    {
        proof {
            reveal(bfs_inv);
        }
        let banned_hop = d == 1 && banned_first[v];
        if g.has_edge(u, v) && dist[v] == n && !blocked[v] && !banned_hop {
            let ghost next0 = next@;
            dist[v] = d;
            parent[v] = u;
            next.push(v);
            proof {
                assert forall|x: int| 0 <= x < n implies
                    (((dist@[x] as int) == d) <==> next@.contains(x as usize)) by {
                    if x == v as int {
                        assert(next@[next@.len() - 1] == v);
                        assert(next@.contains(v));
                    } else {
                        if next@.contains(x as usize) {
                            let k = choose|k: int|
                                0 <= k < next@.len() && next@[k] == x as usize;
                            assert(k < next@.len() - 1);
                            assert(next0[k] == x as usize);
                            assert(next0.contains(x as usize));
                        }
                        if next0.contains(x as usize) {
                            let k = choose|k: int|
                                0 <= k < next0.len() && next0[k] == x as usize;
                            assert(next@[k] == x as usize);
                            assert(next@.contains(x as usize));
                        }
                    }
                }
            }
        }
    }
}

/// Breadth-first labelling from `src` under the blocks and first-hop bans:
/// distances and parent links for every reached vertex, relaxed across
/// every admissible hop.
#[verifier::rlimit(100)]
fn bfs_labels(
    g: &Graph,
    src: usize,
    blocked: &Vec<bool>,
    banned_first: &Vec<bool>,
) -> (r: (Vec<usize>, Vec<usize>))
    requires
        g.wf(),
        src < g.size(),
        blocked@.len() == g.size(),
        banned_first@.len() == g.size(),
        !blocked@[src as int],
    ensures
        bfs_inv(*g, r.0@, r.1@, blocked@, banned_first@, src),
        relaxed(*g, r.0@, blocked@, banned_first@, src),
{
    let n = g.vertex_count();
    let mut dist: Vec<usize> = Vec::new();
    let mut parent: Vec<usize> = Vec::new();
    for i in 0..n
        invariant
            dist@.len() == i,
            parent@.len() == i,
            forall|k: int| 0 <= k < i ==> (#[trigger] dist@[k] as int) == n,
    {
        dist.push(n);
        parent.push(0);
    }
    dist[src] = 0;
    let mut frontier: Vec<usize> = Vec::new();
    frontier.push(src);
    proof {
        reveal(bfs_inv);
        assert(frontier@[0] == src);
        assert forall|v: int| 0 <= v < n && (dist@[v] as int) == 0 implies
            frontier@.contains(v as usize) by {
            assert(v == src as int);
        }
        assert(bfs_inv(*g, dist@, parent@, blocked@, banned_first@, src));
    }
    let mut d: usize = 1;
    while d < n && frontier.len() > 0
        invariant
            g.wf(),
            n == g.size(),
            (src as int) < n,
            1 <= d <= n,
            bfs_inv(*g, dist@, parent@, blocked@, banned_first@, src),
            forall|v: int| 0 <= v < n && (#[trigger] dist@[v] as int) < n
                ==> (dist@[v] as int) < d,
            forall|v: int| 0 <= v < n && (#[trigger] dist@[v] as int) == d - 1
                ==> frontier@.contains(v as usize),
            forall|k: int| 0 <= k < frontier@.len() ==> {
                &&& (#[trigger] frontier@[k] as int) < n
                &&& (dist@[frontier@[k] as int] as int) == d - 1
            },
            forall|u: int, w: int| #![trigger g.edge(u, w)]
                0 <= u < n && 0 <= w < n && g.edge(u, w) && (dist@[u] as int) < d - 1
                    && !blocked@[w] && (u == src as int ==> !banned_first@[w])
                    ==> (dist@[w] as int) <= (dist@[u] as int) + 1,
        decreases n - d,
    {
        let mut next: Vec<usize> = Vec::new();
        for fi in 0..frontier.len()
            invariant
                g.wf(),
                n == g.size(),
                (src as int) < n,
                1 <= d < n,
                bfs_inv(*g, dist@, parent@, blocked@, banned_first@, src),
                forall|v: int| 0 <= v < n && (#[trigger] dist@[v] as int) < n
                    ==> (dist@[v] as int) <= d,
                forall|v: int| 0 <= v < n && (#[trigger] dist@[v] as int) == d - 1
                    ==> frontier@.contains(v as usize),
                forall|k: int| 0 <= k < frontier@.len() ==> {
                    &&& (#[trigger] frontier@[k] as int) < n
                    &&& (dist@[frontier@[k] as int] as int) == d - 1
                },
                forall|v: int| 0 <= v < n
                    ==> (((#[trigger] dist@[v] as int) == d) <==> next@.contains(v as usize)),
                forall|k: int| 0 <= k < next@.len() ==> (#[trigger] next@[k] as int) < n,
                forall|u: int, w: int| #![trigger g.edge(u, w)]
                    0 <= u < n && 0 <= w < n && g.edge(u, w) && (dist@[u] as int) < d - 1
                        && !blocked@[w] && (u == src as int ==> !banned_first@[w])
                        ==> (dist@[w] as int) <= (dist@[u] as int) + 1,
                forall|ff: int, x: int|
                    0 <= ff < fi && 0 <= x < n && g.edge(#[trigger] frontier@[ff] as int, x)
                        && !blocked@[x] && !(d == 1 && banned_first@[x])
                        ==> (#[trigger] dist@[x] as int) <= d,
        {
            let u = frontier[fi];
            let ghost dpre = dist@;
            relax_from(g, src, u, d, blocked, banned_first, &mut dist, &mut parent, &mut next);
            proof {
                // Labels only ever appear, never change, so the round's
                // bookkeeping survives processing one more frontier vertex.
                assert forall|x: int| 0 <= x < n && (#[trigger] dist@[x] as int) == d - 1 implies
                    frontier@.contains(x as usize) by {
                    assert(dist@[x] == dpre[x]);
                }
                assert forall|k: int| 0 <= k < frontier@.len() implies
                    (#[trigger] frontier@[k] as int) < n
                        && (dist@[frontier@[k] as int] as int) == d - 1 by {
                    assert((dpre[frontier@[k] as int] as int) == d - 1);
                    assert(dist@[frontier@[k] as int] == dpre[frontier@[k] as int]);
                }
                assert forall|a: int, b: int|
                    0 <= a < n && 0 <= b < n && #[trigger] g.edge(a, b)
                        && (dist@[a] as int) < d - 1
                        && !blocked@[b] && (a == src as int ==> !banned_first@[b]) implies
                    (dist@[b] as int) <= (dist@[a] as int) + 1 by {
                    assert(dist@[a] == dpre[a]);
                    assert((dpre[b] as int) <= (dpre[a] as int) + 1);
                    assert(dist@[b] == dpre[b]);
                }
                assert forall|ff: int, x: int|
                    0 <= ff < fi + 1 && 0 <= x < n
                        && g.edge(#[trigger] frontier@[ff] as int, x)
                        && !blocked@[x] && !(d == 1 && banned_first@[x]) implies
                    (#[trigger] dist@[x] as int) <= d by {
                    if ff < fi {
                        if dist@[x] == dpre[x] {
                            assert((dpre[x] as int) <= d);
                        } else {
                            assert((dist@[x] as int) == d);
                        }
                    } else {
                        assert(frontier@[ff] == u);
                    }
                }
            }
        }
        proof {
            // Every vertex of this round's frontier has been processed, so
            // the relaxation now reaches one level further out.
            reveal(bfs_inv);
            assert forall|u: int, w: int|
                0 <= u < n && 0 <= w < n && #[trigger] g.edge(u, w) && (dist@[u] as int) < d
                    && !blocked@[w] && (u == src as int ==> !banned_first@[w]) implies
                (dist@[w] as int) <= (dist@[u] as int) + 1 by {
                if (dist@[u] as int) == d - 1 {
                    assert(frontier@.contains(u as usize));
                    let k = choose|k: int|
                        0 <= k < frontier@.len() && frontier@[k] == u as usize;
                    assert(g.edge(frontier@[k] as int, w));
                    if u == src as int {
                        assert(d == 1);
                    }
                    assert((dist@[w] as int) <= d);
                }
            }
        }
        frontier = next;
        d = d + 1;
    }
    proof {
        // At exit the relaxation holds outright: the last frontier either
        // is empty or sits at the largest label a vertex can carry.
        reveal(bfs_inv);
        assert forall|u: int, w: int|
            0 <= u < n && 0 <= w < n && #[trigger] g.edge(u, w) && (dist@[u] as int) < n
                && !blocked@[w] && (u == src as int ==> !banned_first@[w]) implies
            (dist@[w] as int) <= (dist@[u] as int) + 1 by {
            if (dist@[u] as int) == d - 1 {
                if frontier.len() == 0 {
                    assert(frontier@.contains(u as usize));
                    let k = choose|k: int|
                        0 <= k < frontier@.len() && frontier@[k] == u as usize;
                    assert(false);
                } else {
                    assert(d >= n);
                    assert((dist@[w] as int) <= n);
                }
            } else if (dist@[u] as int) < d - 1 {
            } else {
                assert((dist@[u] as int) < d);
                assert(false);
            }
        }
    }
    (dist, parent)
}

/// Walks the parent links back from `dst` and reverses the walk into a
/// path.  Distances drop by one per step, so the walk ends at `src` and
/// never repeats a vertex; the result is an admissible route of exactly
/// `dist[dst] + 1` vertices.
#[verifier::rlimit(100)]
fn walk_parents(
    g: &Graph,
    src: usize,
    dst: usize,
    blocked: &Vec<bool>,
    banned_first: &Vec<bool>,
    dist: &Vec<usize>,
    parent: &Vec<usize>,
) -> (p: Vec<usize>)
    requires
        g.wf(),
        src < g.size(),
        dst < g.size(),
        bfs_inv(*g, dist@, parent@, blocked@, banned_first@, src),
        (dist@[dst as int] as int) < g.size(),
    ensures
        avoiding_path(*g, p@, src, dst, blocked@, banned_first@),
        p@.len() == (dist@[dst as int] as int) + 1,
{
    let n = g.vertex_count();
    proof {
        reveal(bfs_inv);
        assert(dist@.len() == n);
        assert(parent@.len() == n);
    }
    let ghost d0 = dist@[dst as int] as int;
    let mut rev: Vec<usize> = Vec::new();
    rev.push(dst);
    let mut cur = dst;
    while dist[cur] > 0
        invariant
            g.wf(),
            n == g.size(),
            (src as int) < n,
            (dst as int) < n,
            d0 == dist@[dst as int] as int,
            dist@.len() == n,
            parent@.len() == n,
            bfs_inv(*g, dist@, parent@, blocked@, banned_first@, src),
            cur < n,
            (dist@[cur as int] as int) < n,
            rev@.len() >= 1,
            rev@[0] == dst,
            rev@[rev@.len() - 1] == cur,
            forall|j: int| 0 <= j < rev@.len() ==> {
                &&& (#[trigger] rev@[j] as int) < n
                &&& (dist@[rev@[j] as int] as int) == d0 - j
                &&& !blocked@[rev@[j] as int]
            },
            forall|j: int| 0 <= j < rev@.len() - 1
                ==> g.edge(#[trigger] rev@[j + 1] as int, rev@[j] as int),
        decreases dist@[cur as int],
    {
        proof {
            reveal(bfs_inv);
        }
        let p = parent[cur];
        rev.push(p);
        cur = p;
    }
    let m = rev.len();
    let mut path: Vec<usize> = Vec::new();
    for i in 0..m
        invariant
            m == rev@.len(),
            path@.len() == i,
            forall|k: int| 0 <= k < i ==> #[trigger] path@[k] == rev@[m - 1 - k],
    {
        path.push(rev[m - 1 - i]);
    }
    proof {
        reveal(bfs_inv);
        assert((dist@[cur as int] as int) == 0);
        assert(cur == src);
        assert(d0 - (rev@.len() - 1) == 0);
        assert(path@.len() == m);
        assert(path@[0] == rev@[m - 1]);
        assert(path@[path@.len() - 1] == rev@[0]);
        assert forall|i: int| 0 <= i < path@.len() - 1 implies
            g.edge(#[trigger] path@[i] as int, path@[i + 1] as int) by {
            assert(path@[i] == rev@[m - 1 - i]);
            assert(path@[i + 1] == rev@[m - 1 - (i + 1)]);
            assert(g.edge(rev@[(m - 2 - i) + 1] as int, rev@[m - 2 - i] as int));
        }
        assert forall|i: int, j: int|
            0 <= i < path@.len() && 0 <= j < path@.len() && i != j implies
            path@[i] != path@[j] by {
            assert((dist@[path@[i] as int] as int) == d0 - (m - 1 - i));
            assert((dist@[path@[j] as int] as int) == d0 - (m - 1 - j));
        }
        assert(path@.no_duplicates());
        if m >= 2 {
            assert(path@[1] == rev@[m - 2]);
            assert((dist@[path@[1] as int] as int) == 1);
            assert(!banned_first@[path@[1] as int]);
        }
        assert(avoiding_path(*g, path@, src, dst, blocked@, banned_first@));
    }
    path
}

/// One shortest path from `src` to `dst` that stays off the blocked
/// vertices and whose first hop avoids the banned neighbours of `src`.
/// Any returned path is such a route itself; whenever any such route
/// exists the search finds one, and never one longer than necessary; when
/// `src == dst`, the single-vertex path is always found.
#[verifier::rlimit(100)]
pub fn bfs_path(
    g: &Graph,
    src: usize,
    dst: usize,
    blocked: &Vec<bool>,
    banned_first: &Vec<bool>,
) -> (r: Option<Vec<usize>>)
    requires
        g.wf(),
        src < g.size(),
        dst < g.size(),
        blocked@.len() == g.size(),
        banned_first@.len() == g.size(),
        !blocked@[src as int],
    ensures
        r matches Some(p) ==> avoiding_path(*g, p@, src, dst, blocked@, banned_first@),
        (exists|q: Seq<usize>| avoiding_path(*g, q, src, dst, blocked@, banned_first@))
            ==> r is Some,
        r matches Some(p) ==> (forall|q: Seq<usize>|
            avoiding_path(*g, q, src, dst, blocked@, banned_first@) ==> p@.len() <= q.len()),
        src == dst ==> (r matches Some(p) && p@ =~= seq![src]),
{
    let n = g.vertex_count();
    let (dist, parent) = bfs_labels(g, src, blocked, banned_first);
    proof {
        reveal(bfs_inv);
        assert(dist@.len() == n);
        assert(parent@.len() == n);
        assert((dist@[src as int] as int) == 0);
    }
    if dist[dst] == n {
        proof {
            if exists|q: Seq<usize>|
                avoiding_path(*g, q, src, dst, blocked@, banned_first@) {
                let q = choose|q: Seq<usize>|
                    avoiding_path(*g, q, src, dst, blocked@, banned_first@);
                lemma_relaxed_route_bound(*g, dist@, blocked@, banned_first@, src, q);
                crate::laws::lemma_distinct_bounded(q, g.size());
                assert(false);
            }
        }
        return None;
    }
    let path = walk_parents(g, src, dst, blocked, banned_first, &dist, &parent);
    proof {
        assert forall|q: Seq<usize>|
            avoiding_path(*g, q, src, dst, blocked@, banned_first@) implies
            path@.len() <= q.len() by {
            lemma_relaxed_route_bound(*g, dist@, blocked@, banned_first@, src, q);
        }
        if src == dst {
            assert(path@.len() == 1);
            assert(path@ =~= seq![src]);
        }
    }
    Some(path)
}

/// The spur searches of the deviation algorithm need only the soundness
/// half of `bfs_path`: whatever comes back is an admissible route.  This
/// adapter hides the completeness and minimality clauses, which only the
/// seed search relies on.
pub(crate) fn bfs_spur_path(
    g: &Graph,
    src: usize,
    dst: usize,
    blocked: &Vec<bool>,
    banned_first: &Vec<bool>,
) -> (r: Option<Vec<usize>>)
    requires
        g.wf(),
        src < g.size(),
        dst < g.size(),
        blocked@.len() == g.size(),
        banned_first@.len() == g.size(),
        !blocked@[src as int],
    ensures
        r matches Some(p) ==> avoiding_path(*g, p@, src, dst, blocked@, banned_first@),
{
    bfs_path(g, src, dst, blocked, banned_first)
}

} // verus!
