//! The graph abstraction the two searches operate over.
//!
//! A `Graph` is a fixed set of vertices `0..n` together with a symmetric edge
//! relation, stored as an adjacency matrix.  It is created once with a fixed
//! size and then filled at random and cleared repeatedly; searches only read
//! it through `has_edge`.

use vstd::prelude::*;
use crate::rng::rand_below;

verus! {

/// Edge densities are given in millionths: `DENSITY_SCALE` stands for
/// probability one, `0` for probability zero.
pub const DENSITY_SCALE: u64 = 1_000_000;

/// An undirected graph on the vertices `0..n`, with an adjacency-matrix
/// edge relation that is symmetric by construction.
pub struct Graph {
    n: usize,
    adj: Vec<Vec<bool>>,
}

/// Symmetric lookup into a lower-triangular matrix of per-pair decisions:
/// `dec[u][v]` is the decision for the unordered pair `{u, v}` with `v < u`,
/// and the diagonal is always absent.
spec fn tri_cell(dec: Seq<Vec<bool>>, u: int, v: int) -> bool {
    if v < u {
        dec[u]@[v]
    } else if u < v {
        dec[v]@[u]
    } else {
        false
    }
}

/// A row of `n` entries, all false.
fn false_row(n: usize) -> (row: Vec<bool>)
    ensures
        row@.len() == n,
        forall|j: int| 0 <= j < n ==> !row@[j],
{
    let mut row: Vec<bool> = Vec::new();
    for i in 0..n
        invariant
            row@.len() == i,
            forall|j: int| 0 <= j < i ==> !row@[j],
    {
        row.push(false);
    }
    row
}

/// An `n` by `n` matrix of `false` entries.
fn false_matrix(n: usize) -> (m: Vec<Vec<bool>>)
    ensures
        m@.len() == n,
        forall|i: int| 0 <= i < n ==> (#[trigger] m@[i])@.len() == n,
        forall|i: int, j: int| 0 <= i < n && 0 <= j < n ==> !(#[trigger] m@[i]@[j]),
{
    let mut m: Vec<Vec<bool>> = Vec::new();
    for i in 0..n
        invariant
            m@.len() == i,
            forall|k: int| 0 <= k < i ==> (#[trigger] m@[k])@.len() == n,
            forall|k: int, j: int| 0 <= k < i && 0 <= j < n ==> !(#[trigger] m@[k]@[j]),
    {
        m.push(false_row(n));
    }
    m
}

impl Graph {
    /// The number of vertices.
    pub closed spec fn size(self) -> int {
        self.n as int
    }

    /// Well-formedness: the matrix is square of side `n` and symmetric.
    pub closed spec fn wf(self) -> bool {
        &&& self.adj.len() == self.n
        &&& (forall|i: int| 0 <= i < self.n ==> (#[trigger] self.adj[i])@.len() == self.n)
        &&& (forall|u: int, v: int|
            0 <= u < self.n && 0 <= v < self.n ==> self.adj[u]@[v] == self.adj[v]@[u])
    }

    /// The edge relation: true exactly on in-range, adjacent pairs.
    pub closed spec fn edge(self, u: int, v: int) -> bool {
        &&& 0 <= u < self.n
        &&& 0 <= v < self.n
        &&& self.adj[u]@[v]
    }

    /// Every two distinct vertices are joined by an edge.
    pub open spec fn complete(self) -> bool {
        forall|u: int, v: int|
            0 <= u < self.size() && 0 <= v < self.size() && u != v ==> self.edge(u, v)
    }

    /// An edge joins vertices of the graph only.
    pub proof fn lemma_edge_in_range(self, u: int, v: int)
        requires
            self.edge(u, v),
        ensures
            0 <= u < self.size(),
            0 <= v < self.size(),
    {
    }

    /// The vertex count is a machine-sized quantity.
    pub proof fn lemma_size_in_range(self)
        ensures
            0 <= self.size() <= usize::MAX,
    {
    }

    /// On a well-formed graph the edge relation is symmetric.
    pub proof fn lemma_edge_symmetric(self, u: int, v: int)
        requires
            self.wf(),
        ensures
            self.edge(u, v) == self.edge(v, u),
    {
    }

    pub fn vertex_count(&self) -> (n: usize)
        ensures
            n == self.size(),
    {
        self.n
    }

    /// A graph with `n` vertices and no edges.
    pub fn new(n: usize) -> (g: Graph)
        ensures
            g.wf(),
            g.size() == n,
            forall|u: int, v: int| !g.edge(u, v),
    {
        Graph { n, adj: false_matrix(n) }
    }

    /// Whether `u` and `v` are joined by an edge; false for out-of-range
    /// indices.
    pub fn has_edge(&self, u: usize, v: usize) -> (r: bool)
        requires
            self.wf(),
        ensures
            r == self.edge(u as int, v as int),
            r == self.edge(v as int, u as int),
    {
        if u < self.n && v < self.n {
            self.adj[u][v]
        } else {
            false
        }
    }

    /// Removes every edge; the vertex count is unchanged.
    pub fn clear(&mut self)
        requires
            old(self).wf(),
        ensures
            final(self).wf(),
            final(self).size() == old(self).size(),
            forall|u: int, v: int| !final(self).edge(u, v),
    {
        let n = self.n;
        self.adj = false_matrix(n);
    }

    /// Redraws the whole edge set: every unordered pair `{u, v}` with
    /// `u != v` becomes an edge independently with probability
    /// `density_ppm / DENSITY_SCALE`, using the caller-supplied source of
    /// randomness.  Density zero leaves no edges; full density yields the
    /// complete graph; no self-loop is ever created and the result is
    /// symmetric.
    #[verifier::loop_isolation(false)]
    pub fn fill_undirected(&mut self, density_ppm: u64, rng: &mut rand::rngs::StdRng)
        requires
            old(self).wf(),
            density_ppm <= DENSITY_SCALE,
        ensures
            final(self).wf(),
            final(self).size() == old(self).size(),
            forall|u: int, v: int| final(self).edge(u, v) ==> u != v,
            forall|u: int, v: int| final(self).edge(u, v) == final(self).edge(v, u),
            density_ppm == 0 ==> (forall|u: int, v: int| !final(self).edge(u, v)),
            density_ppm == DENSITY_SCALE ==> final(self).complete(),
    {
        let n = self.n;
        // One independent decision per unordered pair, kept lower-triangular.
        let mut dec: Vec<Vec<bool>> = Vec::new();
        for u in 0..n
            invariant
                dec@.len() == u,
                forall|i: int| 0 <= i < u ==> (#[trigger] dec@[i])@.len() == i,
                density_ppm == 0 ==> (forall|i: int, j: int|
                    0 <= i < u && 0 <= j < i ==> !(#[trigger] dec@[i]@[j])),
                density_ppm == DENSITY_SCALE ==> (forall|i: int, j: int|
                    0 <= i < u && 0 <= j < i ==> #[trigger] dec@[i]@[j]),
        {
            let mut row: Vec<bool> = Vec::new();
            for v in 0..u
                invariant
                    row@.len() == v,
                    density_ppm == 0 ==> (forall|j: int| 0 <= j < v ==> !row@[j]),
                    density_ppm == DENSITY_SCALE ==> (forall|j: int| 0 <= j < v ==> row@[j]),
            {
                let r = rand_below(rng, DENSITY_SCALE);
                row.push(r < density_ppm);
            }
            dec.push(row);
        }
        // Mirror the decisions into a full symmetric matrix.
        let mut adj: Vec<Vec<bool>> = Vec::new();
        for u in 0..n
            invariant
                adj@.len() == u,
                forall|i: int| 0 <= i < u ==> (#[trigger] adj@[i])@.len() == n,
                forall|i: int, j: int|
                    0 <= i < u && 0 <= j < n ==> #[trigger] adj@[i]@[j] == tri_cell(dec@, i, j),
        {
            let mut row: Vec<bool> = Vec::new();
            for v in 0..n
                invariant
                    row@.len() == v,
                    forall|j: int| 0 <= j < v ==> #[trigger] row@[j] == tri_cell(dec@, u as int, j),
            {
                let cell = if v < u {
                    dec[u][v]
                } else if u < v {
                    dec[v][u]
                } else {
                    false
                };
                row.push(cell);
            }
            adj.push(row);
        }
        self.adj = adj;
    }
}

} // verus!
