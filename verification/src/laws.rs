//! What holds of the embeddings as functions of a graph: equal results on
//! every call, equal results on graphs that differ by the numbering of
//! their vertices only, and a bound on the rounds of colour refinement.

use vstd::prelude::*;
use crate::adjacency::AdjacencyMatrix;
use crate::id_gnn_fast::lemma_walk_fingerprint_invariant;
use crate::matrix::permuted;
use crate::permutation::is_permutation;
use crate::wl::{lemma_refinement_monotone_bounded, lemma_wl_fingerprint_invariant, Refinement};

verus! {

/// Two results of the walk-count embedding with 32-bit counts for one graph
/// are equal.
pub proof fn lemma_embed_deterministic(n: usize, a: AdjacencyMatrix, x: [u8; 32], y: [u8; 32])
    requires
        call_ensures(crate::id_gnn_fast::embed, (n, &a), x),
        call_ensures(crate::id_gnn_fast::embed, (n, &a), y),
    ensures
        x == y,
{
    assert(x =~= y);
}

/// Two results of the walk-count embedding with 64-bit counts for one graph
/// are equal.
pub proof fn lemma_embed_large_deterministic(
    n: usize,
    a: AdjacencyMatrix,
    x: [u8; 32],
    y: [u8; 32],
)
    requires
        call_ensures(crate::id_gnn_fast::embed_large, (n, &a), x),
        call_ensures(crate::id_gnn_fast::embed_large, (n, &a), y),
    ensures
        x == y,
{
    assert(x =~= y);
}

/// Two results of the colour-refinement embedding for one graph are equal.
pub proof fn lemma_wl_embed_deterministic(n: usize, a: AdjacencyMatrix, x: [u8; 32], y: [u8; 32])
    requires
        call_ensures(crate::wl::embed, (n, &a), x),
        call_ensures(crate::wl::embed, (n, &a), y),
    ensures
        x == y,
{
    assert(x =~= y);
}

/// The walk-count embedding with 32-bit counts returns the same for a graph
/// and for the graph with its vertices renumbered by `p`.
pub proof fn lemma_embed_invariant(
    n: usize,
    a: AdjacencyMatrix,
    b: AdjacencyMatrix,
    p: Seq<int>,
    x: [u8; 32],
    y: [u8; 32],
)
    requires
        is_permutation(p, n as nat),
        b@ == permuted(a@, p),
        call_ensures(crate::id_gnn_fast::embed, (n, &a), x),
        call_ensures(crate::id_gnn_fast::embed, (n, &b), y),
    ensures
        x == y,
{
    lemma_walk_fingerprint_invariant(a@, p, n as nat, 4);
    assert(x =~= y);
}

/// The walk-count embedding with 64-bit counts returns the same for a graph
/// and for the graph with its vertices renumbered by `p`.
pub proof fn lemma_embed_large_invariant(
    n: usize,
    a: AdjacencyMatrix,
    b: AdjacencyMatrix,
    p: Seq<int>,
    x: [u8; 32],
    y: [u8; 32],
)
    requires
        is_permutation(p, n as nat),
        b@ == permuted(a@, p),
        call_ensures(crate::id_gnn_fast::embed_large, (n, &a), x),
        call_ensures(crate::id_gnn_fast::embed_large, (n, &b), y),
    ensures
        x == y,
{
    lemma_walk_fingerprint_invariant(a@, p, n as nat, 8);
    assert(x =~= y);
}

/// The colour-refinement embedding returns the same for a graph and for the
/// graph with its vertices renumbered by `p`.
pub proof fn lemma_wl_embed_invariant(
    n: usize,
    a: AdjacencyMatrix,
    b: AdjacencyMatrix,
    p: Seq<int>,
    x: [u8; 32],
    y: [u8; 32],
)
    requires
        is_permutation(p, n as nat),
        b@ == permuted(a@, p),
        call_ensures(crate::wl::embed, (n, &a), x),
        call_ensures(crate::wl::embed, (n, &b), y),
    ensures
        x == y,
{
    lemma_wl_fingerprint_invariant(a@, p, n as nat);
    assert(x =~= y);
}

/// Colour refinement of a graph on `n >= 1` vertices computes at most `n`
/// rounds and ends with between 1 and `n` colours.
pub proof fn lemma_refinement_rounds_bounded(n: usize, a: AdjacencyMatrix, end: Refinement)
    requires
        n >= 1,
        call_ensures(crate::wl::refine_until_stable, (n, &a), end),
    ensures
        1 <= end.rounds <= n,
        1 <= end.num_colours <= n,
{
    lemma_refinement_monotone_bounded(a@, n as nat);
}

} // verus!
