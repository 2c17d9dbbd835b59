//! Deviation search (a Yen-style variant).
//!
//! Candidate simple paths from `start` to `end` are kept in a pending pool
//! and examined in nondecreasing order of their length.  The pool is seeded
//! with one shortest path; each examined path spawns deviations: for every
//! spur vertex along it, a new shortest spur path to `end` is sought that
//! avoids the vertices of the root prefix and, for its first hop, the
//! continuations already taken by examined paths sharing that prefix.  The
//! first candidate of exactly the target length wins; a candidate longer
//! than the target, an empty pool, or the work cap ends the search.

use vstd::prelude::*;
use vstd::seq_lib::lemma_no_dup_in_concat;
use crate::graph::Graph;
use crate::paths::{path_ok, valid_path};
use crate::bfs::{avoiding_path, bfs_path, bfs_spur_path};
use crate::laws::lemma_valid_path_bounds;

verus! {

/// Cap on the number of candidates examined in one search: on dense graphs
/// the enumeration of ever-longer candidates is cut here and the search
/// reports "not found".
pub const WORK_CAP: usize = 1000;

/// The inputs on which the deviation search owes a success: a valid path
/// of the target length exists, and no strictly shorter one does.  The
/// search examines candidates in nondecreasing length order starting from
/// one shortest path, so its very first candidate settles such a request —
/// before the work cap can come into play.
#[verifier::opaque]
pub open spec fn success_owed(g: Graph, start: usize, end: usize, length: usize) -> bool {
    &&& (exists|q: Seq<usize>| valid_path(g, q, start, end, length))
    &&& (forall|q: Seq<usize>, m: usize| #![trigger valid_path(g, q, start, end, m)]
        1 <= m < length ==> !valid_path(g, q, start, end, m))
}

/// A well-formed candidate: a simple path over real edges from `start` to
/// `end`, of any length.
spec fn cand_ok(g: Graph, p: Seq<usize>, start: usize, end: usize) -> bool {
    &&& p.len() >= 1
    &&& p[0] == start
    &&& p[p.len() - 1] == end
    &&& path_ok(g, p)
}

/// Index of a shortest candidate in a non-empty pool.
#[verifier::loop_isolation(false)]
fn min_index(pending: &Vec<Vec<usize>>) -> (mi: usize)
    requires
        pending@.len() >= 1,
    ensures
        (mi as int) < pending@.len(),
        forall|k: int| 0 <= k < pending@.len()
            ==> (#[trigger] pending@[k])@.len() >= pending@[mi as int]@.len(),
{
    let mut mi: usize = 0;
    for k in 1..pending.len()
        invariant
            (mi as int) < k,
            forall|j: int| 0 <= j < k
                ==> (#[trigger] pending@[j])@.len() >= pending@[mi as int]@.len(),
    {
        if pending[k].len() < pending[mi].len() {
            mi = k;
        }
    }
    mi
}

/// Whether the first `k` entries of `a` and `b` coincide.
#[verifier::loop_isolation(false)]
fn prefix_eq(a: &Vec<usize>, b: &Vec<usize>, k: usize) -> (r: bool)
    requires
        a@.len() >= k,
        b@.len() >= k,
    ensures
        r <==> (forall|j: int| 0 <= j < k ==> a@[j] == b@[j]),
{
    for j in 0..k
        invariant
            forall|i: int| 0 <= i < j ==> a@[i] == b@[i],
    {
        if a[j] != b[j] {
            return false;
        }
    }
    true
}

/// Whether two candidate paths are entry-for-entry equal.
#[verifier::loop_isolation(false)]
fn same_path(a: &Vec<usize>, b: &Vec<usize>) -> (r: bool)
    ensures
        r <==> a@ == b@,
{
    if a.len() != b.len() {
        return false;
    }
    for j in 0..a.len()
        invariant
            a@.len() == b@.len(),
            forall|i: int| 0 <= i < j ==> a@[i] == b@[i],
    {
        if a[j] != b[j] {
            return false;
        }
    }
    proof {
        assert(a@ =~= b@);
    }
    true
}

/// Whether the pool already holds this exact candidate.
#[verifier::loop_isolation(false)]
fn contains_path(pending: &Vec<Vec<usize>>, cand: &Vec<usize>) -> (r: bool)
    ensures
        r <==> (exists|k: int| 0 <= k < pending@.len() && (#[trigger] pending@[k])@ == cand@),
{
    for k in 0..pending.len()
        invariant
            forall|j: int| 0 <= j < k ==> (#[trigger] pending@[j])@ != cand@,
    {
        if same_path(&pending[k], cand) {
            return true;
        }
    }
    false
}

/// A row of `n` entries, all false.
#[verifier::loop_isolation(false)]
fn clear_marks(n: usize) -> (row: Vec<bool>)
    ensures
        row@.len() == n,
        forall|j: int| 0 <= j < n ==> !row@[j],
{
    let mut row: Vec<bool> = Vec::new();
    for i in 0..n
        invariant
            row@.len() == i,
            forall|j: int| 0 <= j < i ==> !row@[j],
    {
        row.push(false);
    }
    row
}

/// An owed single-vertex request forces the endpoints to coincide.
proof fn lemma_owed_single_vertex(g: Graph, start: usize, end: usize)
    requires
        success_owed(g, start, end, 1),
    ensures
        start == end,
{
    reveal(success_owed);
    let q = choose|q: Seq<usize>| valid_path(g, q, start, end, 1);
    assert(q[0] == start);
    assert(q[q.len() - 1] == end);
}

/// An owed request hands the unrestricted seed search a route of exactly
/// the target length.
proof fn lemma_owed_gives_route(
    g: Graph,
    start: usize,
    end: usize,
    length: usize,
    blocked: Seq<bool>,
    banned: Seq<bool>,
)
    requires
        success_owed(g, start, end, length),
        blocked.len() == g.size(),
        banned.len() == g.size(),
        forall|i: int| 0 <= i < blocked.len() ==> !(#[trigger] blocked[i]),
        forall|i: int| 0 <= i < banned.len() ==> !(#[trigger] banned[i]),
    ensures
        exists|q: Seq<usize>| avoiding_path(g, q, start, end, blocked, banned),
        exists|q: Seq<usize>|
            #[trigger] avoiding_path(g, q, start, end, blocked, banned) && q.len() == length,
{
    reveal(success_owed);
    let q = choose|q: Seq<usize>| valid_path(g, q, start, end, length);
    assert forall|i: int| 0 <= i < q.len() implies !blocked[#[trigger] q[i] as int] by {
        assert((q[i] as int) < g.size());
    }
    if q.len() >= 2 {
        assert((q[1] as int) < g.size());
        assert(!banned[q[1] as int]);
    }
    assert(avoiding_path(g, q, start, end, blocked, banned) && q.len() == length);
}

/// On an owed request the unrestricted shortest seed has exactly the
/// target length: it is itself a valid path of its own length, no shorter
/// valid path exists, and it is no longer than the owed path.
proof fn lemma_owed_seed_length(
    g: Graph,
    start: usize,
    end: usize,
    length: usize,
    seed: Seq<usize>,
    sl: usize,
    blocked: Seq<bool>,
    banned: Seq<bool>,
)
    requires
        success_owed(g, start, end, length),
        blocked.len() == g.size(),
        banned.len() == g.size(),
        forall|i: int| 0 <= i < blocked.len() ==> !(#[trigger] blocked[i]),
        forall|i: int| 0 <= i < banned.len() ==> !(#[trigger] banned[i]),
        avoiding_path(g, seed, start, end, blocked, banned),
        seed.len() == sl,
        forall|q: Seq<usize>|
            avoiding_path(g, q, start, end, blocked, banned) ==> sl <= q.len(),
    ensures
        sl == length,
{
    reveal(success_owed);
    assert(valid_path(g, seed, start, end, sl));
    if sl < length {
        assert(!valid_path(g, seed, start, end, sl));
    }
    lemma_owed_gives_route(g, start, end, length, blocked, banned);
    let q = choose|q: Seq<usize>|
        #[trigger] avoiding_path(g, q, start, end, blocked, banned) && q.len() == length;
    assert(sl <= q.len());
}

/// Finds a simple path of exactly `length` vertices from `start` to `end`
/// by deviation search.  Every success is a valid path; when such a path is
/// provably absent — the length exceeds the vertex count, or a single-vertex
/// path is asked for between distinct endpoints — the search reports
/// `None`; the single-vertex boundary case always succeeds; and whenever a
/// path of the target length exists with none shorter, success is owed and
/// delivered.  Between those poles the work cap may legitimately cut the
/// enumeration short.
#[verifier::loop_isolation(false)]
#[verifier::rlimit(100)]
pub fn deviation_search(g: &Graph, start: usize, end: usize, length: usize) -> (r: Option<Vec<usize>>)
    requires
        g.wf(),
        start < g.size(),
        end < g.size(),
        length >= 1,
    ensures
        r matches Some(p) ==> valid_path(*g, p@, start, end, length),
        length == 1 && start == end ==> (r matches Some(p) && p@ =~= seq![start]),
        length == 1 && start != end ==> r is None,
        length as int > g.size() ==> r is None,
        success_owed(*g, start, end, length) ==> r is Some,
{
    let n = g.vertex_count();
    if length == 1 {
        // A single-vertex path is settled by inspection: it exists exactly
        // when the two endpoints coincide.
        if start == end {
            let mut p: Vec<usize> = Vec::new();
            p.push(start);
            return Some(p);
        } else {
            proof {
                if success_owed(*g, start, end, length) {
                    lemma_owed_single_vertex(*g, start, end);
                }
            }
            return None;
        }
    }
    // Seed the pool with one unrestricted shortest path.
    let no_block = clear_marks(n);
    let no_ban = clear_marks(n);
    let seed = match bfs_path(g, start, end, &no_block, &no_ban) {
        None => {
            proof {
                // An owed success would have handed the seed search a route.
                if success_owed(*g, start, end, length) {
                    lemma_owed_gives_route(*g, start, end, length, no_block@, no_ban@);
                }
            }
            return None;
        },
        Some(p0) => p0,
    };
    let seed_len = seed.len();
    proof {
        if success_owed(*g, start, end, length) {
            lemma_owed_seed_length(
                *g, start, end, length, seed@, seed_len, no_block@, no_ban@,
            );
        }
    }
    let mut pending: Vec<Vec<usize>> = Vec::new();
    pending.push(seed);
    let mut accepted: Vec<Vec<usize>> = Vec::new();
    for _round in 0..WORK_CAP
        invariant
            forall|k: int| 0 <= k < pending@.len()
                ==> cand_ok(*g, (#[trigger] pending@[k])@, start, end),
            forall|k: int| 0 <= k < accepted@.len()
                ==> cand_ok(*g, (#[trigger] accepted@[k])@, start, end),
            success_owed(*g, start, end, length)
                ==> (_round == 0 && pending@.len() == 1 && pending@[0]@.len() == length),
    {
        if pending.len() == 0 {
            return None;
        }
        let mi = min_index(&pending);
        let ghost pool0 = pending@;
        let popped = pending.remove(mi);
        proof {
            pool0.remove_ensures(mi as int);
        }
        if popped.len() == length {
            proof {
                lemma_valid_path_bounds(*g, popped@, start, end, length);
            }
            return Some(popped);
        }
        if popped.len() > length {
            // The pool is examined in nondecreasing length order: nothing
            // shorter is left.
            return None;
        }
        proof {
            // On an owed request the single pending candidate had the
            // target length, so one of the returns above has already fired.
            if success_owed(*g, start, end, length) {
                assert((mi as int) == 0);
                assert(popped@ == pool0[0]@);
                assert(popped@.len() == length);
                assert(false);
            }
        }
        accepted.push(popped);
        let ai = accepted.len() - 1;
        let plen = accepted[ai].len();
        let ghost pseq = accepted@[ai as int]@;
        for i in 0..plen - 1
            invariant
                ai == accepted@.len() - 1,
                pseq == accepted@[ai as int]@,
                plen == pseq.len(),
                cand_ok(*g, pseq, start, end),
                forall|k: int| 0 <= k < pending@.len()
                    ==> cand_ok(*g, (#[trigger] pending@[k])@, start, end),
                forall|k: int| 0 <= k < accepted@.len()
                    ==> cand_ok(*g, (#[trigger] accepted@[k])@, start, end),
        {
            // Block the vertices of the root prefix, spur vertex excluded.
            let mut blocked = clear_marks(n);
            for j in 0..i
                invariant
                    blocked@.len() == n,
                    forall|jj: int| 0 <= jj < j ==> blocked@[#[trigger] pseq[jj] as int],
                    forall|x: int| 0 <= x < n && #[trigger] blocked@[x]
                        ==> exists|jj: int| 0 <= jj < j && pseq[jj] == x as usize,
            {
                let pj = accepted[ai][j];
                blocked[pj] = true;
            }
            let spur = accepted[ai][i];
            proof {
                if blocked@[spur as int] {
                    let jj = choose|jj: int| 0 <= jj < i && pseq[jj] == spur;
                    assert(pseq[jj] == pseq[i as int]);
                }
            }
            // Ban the first hops already taken by examined paths that share
            // this root, so identical candidates are not regenerated.
            let mut banned = clear_marks(n);
            for qi in 0..accepted.len()
                invariant
                    banned@.len() == n,
                    ai == accepted@.len() - 1,
                    forall|k: int| 0 <= k < accepted@.len()
                        ==> cand_ok(*g, (#[trigger] accepted@[k])@, start, end),
            {
                if accepted[qi].len() > i + 1 && prefix_eq(&accepted[qi], &accepted[ai], i + 1) {
                    let t = accepted[qi][i + 1];
                    banned[t] = true;
                }
            }
            match bfs_spur_path(g, spur, end, &blocked, &banned) {
                None => {},
                Some(sp) => {
                    // Splice the root prefix onto the spur path.
                    let mut cand: Vec<usize> = Vec::new();
                    for j in 0..i
                        invariant
                            cand@.len() == j,
                            forall|k: int| 0 <= k < j ==> #[trigger] cand@[k] == pseq[k],
                    {
                        cand.push(accepted[ai][j]);
                    }
                    for j in 0..sp.len()
                        invariant
                            cand@.len() == i + j,
                            forall|k: int| 0 <= k < i ==> #[trigger] cand@[k] == pseq[k],
                            forall|k: int| 0 <= k < j ==> #[trigger] cand@[i + k] == sp@[k],
                    {
                        cand.push(sp[j]);
                    }
                    proof {
                        let root = pseq.subrange(0, i as int);
                        assert forall|k: int| 0 <= k < cand@.len() implies
                            cand@[k] == (root + sp@)[k] by {
                            if k < i {
                                assert(cand@[k] == pseq[k]);
                            } else {
                                assert(cand@[i + (k - i)] == sp@[k - i]);
                            }
                        }
                        assert(cand@ =~= root + sp@);
                        assert(sp@[0] == spur);
                        assert forall|k1: int, k2: int|
                            0 <= k1 < root.len() && 0 <= k2 < sp@.len() implies
                            root[k1] != sp@[k2] by {
                            assert(blocked@[pseq[k1] as int]);
                            assert(!blocked@[sp@[k2] as int]);
                        }
                        lemma_no_dup_in_concat(root, sp@);
                        assert forall|k: int| 0 <= k < cand@.len() - 1 implies
                            g.edge(#[trigger] cand@[k] as int, cand@[k + 1] as int) by {
                            if k < i - 1 {
                                assert(cand@[k] == pseq[k]);
                                assert(cand@[k + 1] == pseq[k + 1]);
                                assert(g.edge(pseq[k] as int, pseq[k + 1] as int));
                            } else if k == i - 1 {
                                assert(cand@[k] == pseq[k]);
                                assert(cand@[k + 1] == sp@[0]);
                                assert(g.edge(pseq[i - 1] as int, pseq[i as int] as int));
                            } else {
                                assert(cand@[k] == sp@[k - i]);
                                assert(cand@[k + 1] == sp@[k - i + 1]);
                                assert(g.edge(sp@[k - i] as int, sp@[k - i + 1] as int));
                            }
                        }
                        if i == 0 {
                            assert(cand@[0] == sp@[0]);
                            assert(pseq[0] == start);
                        } else {
                            assert(cand@[0] == pseq[0]);
                        }
                        assert(cand@[cand@.len() - 1] == sp@[sp@.len() - 1]);
                        assert(cand_ok(*g, cand@, start, end));
                    }
                    if !contains_path(&pending, &cand) {
                        pending.push(cand);
                    }
                },
            }
        }
    }
    None
}

} // verus!
