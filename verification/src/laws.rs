//! General facts about fixed-length simple paths.
//!
//! These are the statements that relate the two search strategies to the
//! graph: when a path of the requested length is provably absent, any
//! search whose successes are valid paths must report "not found".

use vstd::prelude::*;
use crate::graph::Graph;
use crate::order::lex_le;
use crate::paths::{is_extension, path_ok, valid_path};

verus! {

/// A sequence of pairwise-distinct vertex indices drawn from `0..n` cannot
/// be longer than `n`.
pub proof fn lemma_distinct_bounded(p: Seq<usize>, n: int)
    requires
        n >= 0,
        forall|i: int| 0 <= i < p.len() ==> (#[trigger] p[i] as int) < n,
        p.no_duplicates(),
    ensures
        p.len() <= n,
    decreases n,
{
    if p.len() == 0 {
    } else if n <= 0 {
        assert((p[0] as int) < n);
    } else if exists|k: int| 0 <= k < p.len() && (#[trigger] p[k] as int) == n - 1 {
        let k = choose|k: int| 0 <= k < p.len() && (#[trigger] p[k] as int) == n - 1;
        let q = p.remove(k);
        p.remove_ensures(k);
        assert forall|i: int| 0 <= i < q.len() implies (#[trigger] q[i] as int) < n - 1 by {
            if i < k {
                assert(q[i] == p[i]);
                assert(p[i] != p[k]);
            } else {
                assert(q[i] == p[i + 1]);
                assert(p[i + 1] != p[k]);
            }
        }
        assert forall|i: int, j: int|
            0 <= i < q.len() && 0 <= j < q.len() && i != j implies q[i] != q[j] by {
            let pi: int = if i < k { i } else { i + 1 };
            let pj: int = if j < k { j } else { j + 1 };
            assert(q[i] == p[pi]);
            assert(q[j] == p[pj]);
        }
        assert(q.no_duplicates());
        assert(q.len() == p.len() - 1);
        lemma_distinct_bounded(q, n - 1);
        assert(p.len() <= n);
    } else {
        assert forall|i: int| 0 <= i < p.len() implies (#[trigger] p[i] as int) < n - 1 by {
            assert(!((p[i] as int) == n - 1));
        }
        lemma_distinct_bounded(p, n - 1);
    }
}

/// A sequence of pairwise-distinct vertex indices drawn from `0..n` that is
/// shorter than `n` must leave some vertex out.
pub proof fn lemma_short_seq_misses_a_vertex(q: Seq<usize>, n: int)
    requires
        n <= usize::MAX,
        forall|i: int| 0 <= i < q.len() ==> (#[trigger] q[i] as int) < n,
        q.no_duplicates(),
        q.len() < n,
    ensures
        exists|x: usize| (x as int) < n && !q.contains(x),
    decreases n,
{
    if exists|k: int| 0 <= k < q.len() && (#[trigger] q[k] as int) == n - 1 {
        let k = choose|k: int| 0 <= k < q.len() && (#[trigger] q[k] as int) == n - 1;
        let p = q.remove(k);
        q.remove_ensures(k);
        assert forall|i: int| 0 <= i < p.len() implies (#[trigger] p[i] as int) < n - 1 by {
            if i < k {
                assert(p[i] == q[i]);
                assert(q[i] != q[k]);
            } else {
                assert(p[i] == q[i + 1]);
                assert(q[i + 1] != q[k]);
            }
        }
        assert forall|i: int, j: int|
            0 <= i < p.len() && 0 <= j < p.len() && i != j implies p[i] != p[j] by {
            let qi: int = if i < k { i } else { i + 1 };
            let qj: int = if j < k { j } else { j + 1 };
            assert(p[i] == q[qi]);
            assert(p[j] == q[qj]);
        }
        assert(p.no_duplicates());
        lemma_short_seq_misses_a_vertex(p, n - 1);
        let x = choose|x: usize| (x as int) < n - 1 && !p.contains(x);
        assert(!q.contains(x)) by {
            if q.contains(x) {
                let j = choose|j: int| 0 <= j < q.len() && q[j] == x;
                assert(j != k);
                if j < k {
                    assert(p[j] == x);
                    assert(p.contains(x));
                } else {
                    assert(p[j - 1] == q[j]);
                    assert(p.contains(x));
                }
            }
        }
    } else {
        assert((((n - 1) as usize) as int) == n - 1);
        assert(!q.contains((n - 1) as usize)) by {
            if q.contains((n - 1) as usize) {
                let j = choose|j: int| 0 <= j < q.len() && q[j] == (n - 1) as usize;
                assert((q[j] as int) == n - 1);
            }
        }
    }
}

/// A valid path pins its inputs down: its length cannot exceed the vertex
/// count, and a single-vertex path forces the two endpoints to coincide.
pub proof fn lemma_valid_path_bounds(g: Graph, p: Seq<usize>, start: usize, end: usize, length: usize)
    requires
        valid_path(g, p, start, end, length),
    ensures
        length as int <= g.size(),
        length == 1 ==> start == end,
{
    lemma_distinct_bounded(p, g.size());
}

/// On a complete graph a simple path that avoids `end` and leaves room can
/// always be finished at `end`: the fresh intermediate vertices are picked
/// one at a time.
pub proof fn lemma_complete_extension(g: Graph, p: Seq<usize>, end: usize, remaining: usize)
    requires
        g.complete(),
        path_ok(g, p),
        p.len() >= 1,
        !p.contains(end),
        (end as int) < g.size(),
        remaining >= 1,
        p.len() + remaining <= g.size(),
    ensures
        exists|ext: Seq<usize>| is_extension(g, p, end, remaining, ext),
    decreases remaining,
{
    assert(p[p.len() - 1] != end);
    if remaining == 1 {
        let ext = seq![end];
        let w = p + ext;
        assert(w[w.len() - 1] == end);
        assert forall|i: int| 0 <= i < w.len() implies ((#[trigger] w[i]) as int) < g.size() by {
            if i < p.len() {
                assert(w[i] == p[i]);
            }
        }
        assert forall|i: int| 0 <= i < w.len() - 1 implies
            g.edge(#[trigger] w[i] as int, w[i + 1] as int) by {
            if i < p.len() - 1 {
                assert(w[i] == p[i]);
                assert(w[i + 1] == p[i + 1]);
            } else {
                assert(w[i] == p[p.len() - 1]);
                assert(w[i + 1] == end);
            }
        }
        assert forall|i: int, j: int|
            0 <= i < w.len() && 0 <= j < w.len() && i != j implies w[i] != w[j] by {
            if j == p.len() {
                if i < p.len() && w[i] == end {
                    assert(p.contains(end));
                }
            } else if i == p.len() {
                if w[j] == end {
                    assert(p.contains(end));
                }
            }
        }
        assert(path_ok(g, w));
        assert(is_extension(g, p, end, 1, ext));
    } else {
        let q = p.push(end);
        assert forall|i: int, j: int|
            0 <= i < q.len() && 0 <= j < q.len() && i != j implies q[i] != q[j] by {
            if j == p.len() {
                if q[i] == end {
                    assert(p.contains(end));
                }
            } else if i == p.len() {
                if q[j] == end {
                    assert(p.contains(end));
                }
            }
        }
        assert(q.no_duplicates());
        assert forall|i: int| 0 <= i < q.len() implies ((#[trigger] q[i]) as int) < g.size() by {
            if i < p.len() {
                assert(q[i] == p[i]);
            }
        }
        g.lemma_size_in_range();
        lemma_short_seq_misses_a_vertex(q, g.size());
        let x = choose|x: usize| (x as int) < g.size() && !q.contains(x);
        assert(x != end) by {
            if x == end {
                assert(q[p.len() as int] == end);
                assert(q.contains(x));
            }
        }
        assert(!p.contains(x)) by {
            if p.contains(x) {
                let j = choose|j: int| 0 <= j < p.len() && p[j] == x;
                assert(q[j] == x);
                assert(q.contains(x));
            }
        }
        let stepped = p.push(x);
        assert forall|i: int| 0 <= i < stepped.len() implies
            ((#[trigger] stepped[i]) as int) < g.size() by {
            if i < p.len() {
                assert(stepped[i] == p[i]);
            }
        }
        assert forall|i: int| 0 <= i < stepped.len() - 1 implies
            g.edge(#[trigger] stepped[i] as int, stepped[i + 1] as int) by {
            if i < p.len() - 1 {
                assert(stepped[i] == p[i]);
                assert(stepped[i + 1] == p[i + 1]);
            } else {
                assert(stepped[i] == p[p.len() - 1]);
                assert(stepped[i + 1] == x);
            }
        }
        assert forall|i: int, j: int|
            0 <= i < stepped.len() && 0 <= j < stepped.len() && i != j implies
            stepped[i] != stepped[j] by {
            if j == p.len() {
                if i < p.len() && stepped[i] == x {
                    assert(p.contains(x));
                }
            } else if i == p.len() {
                if stepped[j] == x {
                    assert(p.contains(x));
                }
            }
        }
        assert(path_ok(g, stepped));
        assert(!stepped.contains(end)) by {
            if stepped.contains(end) {
                let j = choose|j: int| 0 <= j < stepped.len() && stepped[j] == end;
                if j < p.len() {
                    assert(p[j] == end);
                    assert(p.contains(end));
                }
            }
        }
        lemma_complete_extension(g, stepped, end, (remaining - 1) as usize);
        let ext2 = choose|e: Seq<usize>|
            #[trigger] is_extension(g, stepped, end, (remaining - 1) as usize, e);
        let ext = seq![x] + ext2;
        assert(p + ext =~= stepped + ext2);
        assert((p + ext)[p.len() + ext.len() - 1]
            == (stepped + ext2)[stepped.len() + ext2.len() - 1]);
        assert(is_extension(g, p, end, remaining, ext));
    }
}

/// On a complete graph every admissible request has a solution: for
/// distinct endpoints and any length from two up to the vertex count, some
/// valid path exists.
pub proof fn lemma_complete_path_exists(g: Graph, start: usize, end: usize, length: usize)
    requires
        g.complete(),
        (start as int) < g.size(),
        (end as int) < g.size(),
        start != end,
        2 <= length,
        length as int <= g.size(),
    ensures
        exists|q: Seq<usize>| valid_path(g, q, start, end, length),
{
    let p = seq![start];
    assert(!p.contains(end)) by {
        if p.contains(end) {
            let j = choose|j: int| 0 <= j < p.len() && p[j] == end;
            assert(p[0] == start);
        }
    }
    assert(path_ok(g, p));
    lemma_complete_extension(g, p, end, (length - 1) as usize);
    let ext = choose|ext: Seq<usize>| #[trigger] is_extension(g, p, end, (length - 1) as usize, ext);
    let q = p + ext;
    assert(q[0] == start);
    assert(valid_path(g, q, start, end, length));
}

/// When connectivity makes a simple path of the requested length provably
/// absent — the length exceeds the vertex count, or a single-vertex path is
/// asked for between two different endpoints — any search that only ever
/// returns valid paths must answer "not found".
pub proof fn lemma_absent_implies_none(
    g: Graph,
    r: Option<Seq<usize>>,
    start: usize,
    end: usize,
    length: usize,
)
    requires
        r matches Some(p) ==> valid_path(g, p, start, end, length),
        length as int > g.size() || (length == 1 && start != end),
    ensures
        r is None,
{
    match r {
        Some(p) => lemma_valid_path_bounds(g, p, start, end, length),
        None => (),
    }
}

/// The two strategies can disagree, but only one way round: the deviation
/// search may give up under its work cap where backtracking succeeds,
/// while any success of the deviation search exhibits a valid path, which
/// the complete backtracking search is then bound to match.
pub proof fn lemma_divergence_is_one_sided(
    g: Graph,
    rd: Option<Seq<usize>>,
    rb: Option<Seq<usize>>,
    start: usize,
    end: usize,
    length: usize,
)
    requires
        rd matches Some(p) ==> valid_path(g, p, start, end, length),
        (exists|q: Seq<usize>| valid_path(g, q, start, end, length)) <==> rb is Some,
    ensures
        rd is Some ==> rb is Some,
{
    match rd {
        Some(p) => assert(valid_path(g, p, start, end, length)),
        None => (),
    }
}

/// Lexicographic order is antisymmetric on sequences of equal length.
pub proof fn lemma_lex_le_antisymmetric(a: Seq<usize>, b: Seq<usize>)
    requires
        a.len() == b.len(),
        lex_le(a, b),
        lex_le(b, a),
    ensures
        a == b,
    decreases a.len(),
{
    if a.len() == 0 {
        assert(a =~= b);
    } else {
        assert(a[0] == b[0]);
        lemma_lex_le_antisymmetric(a.drop_first(), b.drop_first());
        assert forall|i: int| 0 <= i < a.len() implies a[i] == b[i] by {
            if i > 0 {
                assert(a.drop_first()[i - 1] == b.drop_first()[i - 1]);
            }
        }
        assert(a =~= b);
    }
}

/// Determinism of the backtracking search: its contract pins the result
/// completely — success is forced exactly when a valid path exists, and the
/// returned path is the lexicographically least one — so two results drawn
/// from that contract on the same inputs are path-equal.
pub proof fn lemma_backtrack_deterministic(
    g: Graph,
    start: usize,
    end: usize,
    length: usize,
    r1: Option<Seq<usize>>,
    r2: Option<Seq<usize>>,
)
    requires
        r1 matches Some(p) ==> valid_path(g, p, start, end, length),
        r2 matches Some(p) ==> valid_path(g, p, start, end, length),
        (exists|q: Seq<usize>| valid_path(g, q, start, end, length)) <==> r1 is Some,
        (exists|q: Seq<usize>| valid_path(g, q, start, end, length)) <==> r2 is Some,
        r1 matches Some(p) ==> (forall|q: Seq<usize>|
            valid_path(g, q, start, end, length) ==> lex_le(p, q)),
        r2 matches Some(p) ==> (forall|q: Seq<usize>|
            valid_path(g, q, start, end, length) ==> lex_le(p, q)),
    ensures
        r1 == r2,
{
    match (r1, r2) {
        (Some(p1), Some(p2)) => {
            assert(lex_le(p1, p2));
            assert(lex_le(p2, p1));
            lemma_lex_le_antisymmetric(p1, p2);
        },
        (None, None) => (),
        (Some(p1), None) => {
            assert(valid_path(g, p1, start, end, length));
            assert(false);
        },
        (None, Some(p2)) => {
            assert(valid_path(g, p2, start, end, length));
            assert(false);
        },
    }
}

} // verus!
