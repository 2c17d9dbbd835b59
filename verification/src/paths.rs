//! Path validity: the four invariants a returned path must satisfy, as a
//! specification, and an executable verifier for them.

use vstd::prelude::*;
use crate::graph::Graph;

verus! {

/// A structurally sound walk: every entry is a vertex of `g`, consecutive
/// entries are joined by real edges, and no vertex repeats.
pub open spec fn path_ok(g: Graph, p: Seq<usize>) -> bool {
    &&& (forall|i: int| 0 <= i < p.len() ==> (#[trigger] p[i] as int) < g.size())
    &&& (forall|i: int| 0 <= i < p.len() - 1 ==> g.edge(#[trigger] p[i] as int, p[i + 1] as int))
    &&& p.no_duplicates()
}

/// A simple path of exactly `length` vertices from `start` to `end`.
pub open spec fn valid_path(g: Graph, p: Seq<usize>, start: usize, end: usize, length: usize) -> bool {
    &&& p.len() == length
    &&& length >= 1
    &&& p[0] == start
    &&& p[p.len() - 1] == end
    &&& path_ok(g, p)
}

/// One way to finish a partial path: `ext` supplies exactly `remaining`
/// further vertices so that the whole walk is a simple path over real
/// edges ending at `end`.
pub open spec fn is_extension(g: Graph, p: Seq<usize>, end: usize, remaining: usize, ext: Seq<usize>) -> bool {
    &&& ext.len() == remaining
    &&& p.len() + ext.len() >= 1
    &&& path_ok(g, p + ext)
    &&& (p + ext)[p.len() + ext.len() - 1] == end
}

/// Whether the partial path can be finished at `end` in exactly
/// `remaining` further steps.
pub open spec fn can_extend(g: Graph, p: Seq<usize>, end: usize, remaining: usize) -> bool {
    exists|ext: Seq<usize>| is_extension(g, p, end, remaining, ext)
}

/// The four checks a returned path is held to: exact length, the two
/// endpoints, a real edge between each pair of consecutive entries, and
/// pairwise distinct entries.  On a multi-vertex path the edge checks
/// already confine every entry to the graph's vertices; a single-vertex
/// path is judged by its endpoints alone.
pub open spec fn path_checks(g: Graph, p: Seq<usize>, start: usize, end: usize, length: usize) -> bool {
    &&& p.len() == length
    &&& length >= 1
    &&& p[0] == start
    &&& p[p.len() - 1] == end
    &&& (forall|i: int| 0 <= i < p.len() - 1 ==> g.edge(#[trigger] p[i] as int, p[i + 1] as int))
    &&& p.no_duplicates()
}

/// Every valid path passes the four checks.
pub proof fn lemma_valid_path_passes_checks(
    g: Graph,
    p: Seq<usize>,
    start: usize,
    end: usize,
    length: usize,
)
    requires
        valid_path(g, p, start, end, length),
    ensures
        path_checks(g, p, start, end, length),
{
}

/// On two or more vertices the four checks already force a valid path:
/// each entry borders a checked edge, so all entries are vertices of the
/// graph.  Only the single-vertex case is looser, where the checks accept
/// any entry.
pub proof fn lemma_checks_imply_valid_path(
    g: Graph,
    p: Seq<usize>,
    start: usize,
    end: usize,
    length: usize,
)
    requires
        path_checks(g, p, start, end, length),
        length >= 2,
    ensures
        valid_path(g, p, start, end, length),
{
    assert forall|i: int| 0 <= i < p.len() implies ((#[trigger] p[i]) as int) < g.size() by {
        if i < p.len() - 1 {
            assert(g.edge(p[i] as int, p[i + 1] as int));
            g.lemma_edge_in_range(p[i] as int, p[i + 1] as int);
        } else {
            assert(g.edge(p[i - 1] as int, p[i] as int));
            g.lemma_edge_in_range(p[i - 1] as int, p[i] as int);
        }
    }
}

/// Checks a candidate path against the four invariants: exact length, the
/// two endpoints, real edges between consecutive entries, and pairwise
/// distinct entries.
#[verifier::loop_isolation(false)]
pub fn verify_path(g: &Graph, p: &Vec<usize>, start: usize, end: usize, length: usize) -> (r: bool)
    requires
        g.wf(),
    ensures
        r == path_checks(*g, p@, start, end, length),
{
    if p.len() != length || length == 0 {
        return false;
    }
    if p[0] != start {
        return false;
    }
    if p[p.len() - 1] != end {
        return false;
    }
    for i in 0..p.len() - 1
        invariant
            forall|k: int| 0 <= k < i ==> g.edge(#[trigger] p@[k] as int, p@[k + 1] as int),
    {
        if !g.has_edge(p[i], p[i + 1]) {
            return false;
        }
    }
    for i in 0..p.len()
        invariant
            forall|k1: int, k2: int| 0 <= k1 < i && k1 < k2 < p@.len() ==> p@[k1] != p@[k2],
    {
        for j in (i + 1)..p.len()
            invariant
                forall|k1: int, k2: int| 0 <= k1 < i && k1 < k2 < p@.len() ==> p@[k1] != p@[k2],
                forall|k2: int| i < k2 < j ==> p@[i as int] != p@[k2],
        {
            if p[i] == p[j] {
                return false;
            }
        }
    }
    true
}

} // verus!
