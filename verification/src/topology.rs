//! Sparse topology of the oscillator network.
//!
//! A validated connectivity matrix is symmetric with a zero diagonal, so its
//! edges are exactly the nonzero entries of the strict upper triangle. The
//! assembler walks that triangle in row-major order and yields one edge per
//! nonzero entry, together with its weight; the incidence matrix marks each
//! edge's endpoints with `+1` and `-1` in its column.

use crate::config::{network_valid, NetworkParam};
use crate::scalar::Dyadic;
use vstd::prelude::*;

verus! {

/// The rows of a weight matrix as a sequence of sequences.
pub open spec fn mat_view(c: Seq<Vec<Dyadic>>) -> Seq<Seq<Dyadic>> {
    c.map_values(|row: Vec<Dyadic>| row@)
}

/// The edges of the strict upper triangle of `c` from position `(i, j)` on,
/// in row-major scan order: one edge per nonzero entry.
pub open spec fn edges_from(c: Seq<Seq<Dyadic>>, n: int, i: int, j: int) -> Seq<(usize, usize)>
    decreases n - i, n - j,
{
    if i < 0 || j <= i || n <= i || n < j {
        Seq::empty()
    } else if j == n {
        edges_from(c, n, i + 1, i + 2)
    } else if c[i][j].mant != 0 {
        seq![(i as usize, j as usize)] + edges_from(c, n, i, j + 1)
    } else {
        edges_from(c, n, i, j + 1)
    }
}

/// All edges of an `n`-node connectivity matrix.
pub open spec fn edge_seq(c: Seq<Seq<Dyadic>>, n: int) -> Seq<(usize, usize)> {
    edges_from(c, n, 0, 1)
}

/// A connectivity matrix without any nonzero entry has no edges.
pub proof fn lemma_zero_connectivity_no_edges(c: Seq<Seq<Dyadic>>, n: int, i: int, j: int)
    requires
        forall|r: int, s: int| 0 <= r < n && 0 <= s < n ==> (#[trigger] c[r][s]).mant == 0,
    ensures
        edges_from(c, n, i, j) == Seq::<(usize, usize)>::empty(),
    decreases n - i, n - j,
{
    if i < 0 || j <= i || n <= i || n < j {
    } else if j == n {
        lemma_zero_connectivity_no_edges(c, n, i + 1, i + 2);
    } else {
        lemma_zero_connectivity_no_edges(c, n, i, j + 1);
    }
}

/// Collects the edges and their weights from a validated connectivity
/// matrix, in row-major scan order over the strict upper triangle.
#[verifier::loop_isolation(false)]
pub fn collect_edges(p: &NetworkParam) -> (r: (Vec<(usize, usize)>, Vec<Dyadic>))
    requires
        network_valid(*p),
    ensures
        r.0@ == edge_seq(mat_view(p.connectivity@), p.state_dim as int),
        r.1@.len() == r.0@.len(),
        forall|e: int|
            0 <= e < r.0@.len() ==> (#[trigger] r.0@[e]).0 < r.0@[e].1 && r.0@[e].1 < p.state_dim,
        forall|e: int|
            0 <= e < r.0@.len() ==> r.1@[e] == p.connectivity@[(#[trigger] r.0@[e]).0 as int]@[r.0@[
            e].1 as int],
{
    let ghost c = mat_view(p.connectivity@);
    let n = p.state_dim;
    let mut edges: Vec<(usize, usize)> = Vec::new();
    let mut weights: Vec<Dyadic> = Vec::new();
    proof {
        assert(edge_seq(c, n as int) =~= edges@ + edges_from(c, n as int, 0, 1));
    }
    let mut i: usize = 0;
    while i < n
        invariant
            i <= n,
            edge_seq(c, n as int) == edges@ + edges_from(c, n as int, i as int, i as int + 1),
            weights@.len() == edges@.len(),
            forall|e: int|
                0 <= e < edges@.len() ==> (#[trigger] edges@[e]).0 < edges@[e].1 && edges@[e].1
                    < n,
            forall|e: int|
                0 <= e < edges@.len() ==> weights@[e] == p.connectivity@[(
                #[trigger] edges@[e]).0 as int]@[edges@[e].1 as int],
        decreases n - i,
    {
        let mut j: usize = i + 1;
        while j < n
            invariant
                i < n,
                i < j <= n,
                edge_seq(c, n as int) == edges@ + edges_from(c, n as int, i as int, j as int),
                weights@.len() == edges@.len(),
                forall|e: int|
                    0 <= e < edges@.len() ==> (#[trigger] edges@[e]).0 < edges@[e].1 && edges@[e].1
                        < n,
                forall|e: int|
                    0 <= e < edges@.len() ==> weights@[e] == p.connectivity@[(
                    #[trigger] edges@[e]).0 as int]@[edges@[e].1 as int],
            decreases n - j,
        {
            let w = self_entry(p, i, j);
            if w.mant != 0 {
                proof {
                    assert(edges_from(c, n as int, i as int, j as int) =~= seq![
                        (i as usize, j as usize),
                    ] + edges_from(c, n as int, i as int, j as int + 1));
                    assert((edges@ + edges_from(c, n as int, i as int, j as int)) =~= (edges@.push(
                        (i, j),
                    ) + edges_from(c, n as int, i as int, j as int + 1)));
                }
                edges.push((i, j));
                weights.push(w);
            }
            j = j + 1;
        }
        proof {
            assert(edges_from(c, n as int, i as int, n as int) =~= edges_from(
                c,
                n as int,
                i as int + 1,
                i as int + 2,
            ));
        }
        i = i + 1;
    }
    proof {
        assert(edges_from(c, n as int, n as int, n as int + 1) =~= Seq::<(usize, usize)>::empty());
        assert(edge_seq(c, n as int) =~= edges@);
    }
    (edges, weights)
}

/// Reads one connectivity entry of a validated network.
fn self_entry(p: &NetworkParam, i: usize, j: usize) -> (w: Dyadic)
    requires
        network_valid(*p),
        i < p.state_dim,
        j < p.state_dim,
    ensures
        w == mat_view(p.connectivity@)[i as int][j as int],
        w == p.connectivity@[i as int]@[j as int],
{
    p.connectivity[i][j]
}

/// The incidence entry of node `row` in the column of edge `e`.
pub open spec fn incidence_entry(edge: (usize, usize), row: int) -> int {
    if row == edge.0 {
        1
    } else if row == edge.1 {
        -1
    } else {
        0
    }
}

} // verus!
