//! The walk-count embedding: every vertex is described by the numbers of
//! closed walks of each length through it, and the graph by the multiset of
//! these descriptions.

use vstd::prelude::*;
use crate::adjacency::{copy_rows, ints32, ints64, multiply_u32, multiply_u64, widen_rows, AdjacencyMatrix};
use crate::canonical::canonical_hash;
use crate::matrix::{
    is_binary, is_square, lemma_power_bounded, lemma_power_permuted, lemma_power_square,
    lemma_upow_monotonic, permuted, power, upow,
};
use crate::permutation::{is_permutation, reindex};
use crate::record::{keys_of, lemma_multiset_digest_reindex, multiset_digest};

verus! {

/// The largest number of vertices for which 32-bit walk counts are known to
/// suffice whatever the graph.
pub const MAX_VERTICES: usize = 10;

/// The largest number of vertices for which 64-bit walk counts are known to
/// suffice whatever the graph.
pub const MAX_VERTICES_LARGE: usize = 16;

/// The number of walk lengths that are recorded for a graph on `n` vertices:
/// the lengths `2, 3, .., walk_steps(n) + 1`.
pub open spec fn walk_steps(n: nat) -> nat {
    if n <= 2 {
        1
    } else {
        (n - 1) as nat
    }
}

/// The walk profile of vertex `v`: the numbers of closed walks through `v`
/// of length 2, 3, and so on, in this order.
pub open spec fn profile(a: Seq<Seq<int>>, v: int, n: nat) -> Seq<int> {
    Seq::new(walk_steps(n), |s: int| power(a, (s + 2) as nat, n)[v][v])
}

/// The walk profiles of all vertices, by vertex.
pub open spec fn profiles(a: Seq<Seq<int>>, n: nat) -> Seq<Seq<int>> {
    Seq::new(n, |v: int| profile(a, v, n))
}

/// The walk-count fingerprint of the graph with matrix `a` on `n` vertices,
/// its walk counts written with `width` bytes each.
pub open spec fn walk_fingerprint(a: Seq<Seq<int>>, n: nat, width: nat) -> Seq<u8> {
    multiset_digest(profiles(a, n), width)
}

/// No entry of a power of `a` that the embedding computes exceeds `limit`.
pub open spec fn walks_fit(a: Seq<Seq<int>>, n: nat, limit: int) -> bool {
    forall|t: nat, i: int, j: int|
        2 <= t <= walk_steps(n) + 1 && 0 <= i < n && 0 <= j < n ==> #[trigger] power(a, t, n)[i][j]
            <= limit
}

/// The list that holds, for each vertex `v` below `n`, the entries at
/// position `v` of the lists in `input`, in their order.
pub open spec fn transposed(input: Seq<Seq<int>>, n: nat) -> Seq<Seq<int>> {
    Seq::new(n, |v: int| Seq::new(input.len(), |d: int| input[d][v]))
}

/// Renumbering the vertices of a graph leaves its walk-count fingerprint
/// unchanged.
pub proof fn lemma_walk_fingerprint_invariant(a: Seq<Seq<int>>, p: Seq<int>, n: nat, width: nat)
    requires
        is_permutation(p, n),
    ensures
        walk_fingerprint(permuted(a, p), n, width) == walk_fingerprint(a, n, width),
{
    let b = permuted(a, p);
    assert forall|v: int| 0 <= v < n implies #[trigger] profiles(b, n)[v] == reindex(
        profiles(a, n),
        p,
    )[v] by {
        assert forall|s: int| 0 <= s < walk_steps(n) implies profile(b, v, n)[s] == profile(
            a,
            p[v],
            n,
        )[s] by {
            lemma_power_permuted(a, p, (s + 2) as nat, n);
        }
        assert(profile(b, v, n) =~= profile(a, p[v], n));
    }
    assert(profiles(b, n) =~= reindex(profiles(a, n), p));
    lemma_multiset_digest_reindex(profiles(a, n), p, width);
}

/// On at most ten vertices the walk counts of a 0/1 matrix fit in 32 bits.
pub proof fn lemma_walks_fit_u32(a: Seq<Seq<int>>, n: nat)
    requires
        is_square(a, n),
        is_binary(a),
        n <= MAX_VERTICES,
    ensures
        walks_fit(a, n, u32::MAX as int),
{
    assert forall|t: nat, i: int, j: int|
        2 <= t <= walk_steps(n) + 1 && 0 <= i < n && 0 <= j < n implies #[trigger] power(a, t, n)[i][j]
        <= u32::MAX by {
        lemma_power_bounded(a, t, n, i, j);
        lemma_upow_monotonic(n, (t - 1) as nat, 10, 9);
        assert(upow(10, 9) == 1000000000) by {
            reveal_with_fuel(upow, 10);
        }
    }
}

/// On at most sixteen vertices the walk counts of a 0/1 matrix fit in 64
/// bits.
pub proof fn lemma_walks_fit_u64(a: Seq<Seq<int>>, n: nat)
    requires
        is_square(a, n),
        is_binary(a),
        n <= MAX_VERTICES_LARGE,
    ensures
        walks_fit(a, n, u64::MAX as int),
{
    assert forall|t: nat, i: int, j: int|
        2 <= t <= walk_steps(n) + 1 && 0 <= i < n && 0 <= j < n implies #[trigger] power(a, t, n)[i][j]
        <= u64::MAX by {
        lemma_power_bounded(a, t, n, i, j);
        lemma_upow_monotonic(n, (t - 1) as nat, 16, 15);
        assert(upow(16, 15) == 1152921504606846976) by {
            reveal_with_fuel(upow, 16);
        }
    }
}

/// Hashes a list of walk profiles as a multiset.
pub fn multiset_hash(set: Vec<Vec<u32>>) -> (out: [u8; 32])
    ensures
        out@ == multiset_digest(ints32(set@), 4),
{
    proof {
        assert(keys_of(set@) =~= ints32(set@));
    }
    canonical_hash(&set)
}

/// Hashes a list of 64-bit walk profiles as a multiset.
pub fn multiset_hash_large(set: Vec<Vec<u64>>) -> (out: [u8; 32])
    ensures
        out@ == multiset_digest(ints64(set@), 8),
{
    proof {
        assert(keys_of(set@) =~= ints64(set@));
    }
    canonical_hash(&set)
}

/// The fingerprint of a graph on `n` vertices from the diagonals of the
/// powers of its matrix: entry `v` of each diagonal goes to the profile of
/// vertex `v`, and the profiles are hashed as a multiset.
pub fn hash(n: usize, input: Vec<Vec<u32>>) -> (out: [u8; 32])
    requires
        forall|d: int| 0 <= d < input.len() ==> n <= (#[trigger] input[d]).len(),
    ensures
        out@ == multiset_digest(transposed(ints32(input@), n as nat), 4),
{
    let mut zeta_0s: Vec<Vec<u32>> = Vec::new();
    let mut v: usize = 0;
    while v < n
        invariant
            v <= n,
            zeta_0s.len() == v,
            forall|d: int| 0 <= d < input.len() ==> n <= (#[trigger] input[d]).len(),
            forall|u: int| 0 <= u < v ==> (#[trigger] zeta_0s[u]).len() == input.len(),
            forall|u: int, d: int|
                0 <= u < v && 0 <= d < input.len() ==> #[trigger] zeta_0s[u][d] == input[d][u],
        decreases n - v,
    {
        let mut zeta_0: Vec<u32> = Vec::new();
        let mut d: usize = 0;
        while d < input.len()
            invariant
                v < n,
                d <= input.len(),
                zeta_0.len() == d,
                forall|e: int| 0 <= e < input.len() ==> n <= (#[trigger] input[e]).len(),
                forall|e: int| 0 <= e < d ==> zeta_0[e] == input[e][v as int],
            decreases input.len() - d,
        {
            zeta_0.push(input[d][v]);
            d += 1;
        }
        zeta_0s.push(zeta_0);
        v += 1;
    }
    proof {
        let want = transposed(ints32(input@), n as nat);
        assert forall|u: int| 0 <= u < n implies #[trigger] ints32(zeta_0s@)[u] =~= want[u] by {
            assert(zeta_0s[u].len() == input.len());
        }
        assert(ints32(zeta_0s@) =~= want);
    }
    multiset_hash(zeta_0s)
}

/// As `hash`, for 64-bit walk counts.
pub fn hash_large(n: usize, input: Vec<Vec<u64>>) -> (out: [u8; 32])
    requires
        forall|d: int| 0 <= d < input.len() ==> n <= (#[trigger] input[d]).len(),
    ensures
        out@ == multiset_digest(transposed(ints64(input@), n as nat), 8),
{
    let mut zeta_0s: Vec<Vec<u64>> = Vec::new();
    let mut v: usize = 0;
    while v < n
        invariant
            v <= n,
            zeta_0s.len() == v,
            forall|d: int| 0 <= d < input.len() ==> n <= (#[trigger] input[d]).len(),
            forall|u: int| 0 <= u < v ==> (#[trigger] zeta_0s[u]).len() == input.len(),
            forall|u: int, d: int|
                0 <= u < v && 0 <= d < input.len() ==> #[trigger] zeta_0s[u][d] == input[d][u],
        decreases n - v,
    {
        let mut zeta_0: Vec<u64> = Vec::new();
        let mut d: usize = 0;
        while d < input.len()
            invariant
                v < n,
                d <= input.len(),
                zeta_0.len() == d,
                forall|e: int| 0 <= e < input.len() ==> n <= (#[trigger] input[e]).len(),
                forall|e: int| 0 <= e < d ==> zeta_0[e] == input[e][v as int],
            decreases input.len() - d,
        {
            zeta_0.push(input[d][v]);
            d += 1;
        }
        zeta_0s.push(zeta_0);
        v += 1;
    }
    proof {
        let want = transposed(ints64(input@), n as nat);
        assert forall|u: int| 0 <= u < n implies #[trigger] ints64(zeta_0s@)[u] =~= want[u] by {
            assert(zeta_0s[u].len() == input.len());
        }
        assert(ints64(zeta_0s@) =~= want);
    }
    multiset_hash_large(zeta_0s)
}

/// The diagonal of a square matrix of 32-bit numbers.
fn diagonal_u32(m: &Vec<Vec<u32>>) -> (out: Vec<u32>)
    requires
        is_square(ints32(m@), m.len() as nat),
    ensures
        out.len() == m.len(),
        forall|v: int| 0 <= v < m.len() ==> out[v] == ints32(m@)[v][v],
{
    let mut out: Vec<u32> = Vec::new();
    let mut v: usize = 0;
    while v < m.len()
        invariant
            is_square(ints32(m@), m.len() as nat),
            v <= m.len(),
            out.len() == v,
            forall|u: int| 0 <= u < v ==> out[u] == ints32(m@)[u][u],
        decreases m.len() - v,
    {
        proof {
            assert(ints32(m@)[v as int].len() == m.len());
        }
        out.push(m[v][v]);
        v += 1;
    }
    out
}

/// The diagonal of a square matrix of 64-bit numbers.
fn diagonal_u64(m: &Vec<Vec<u64>>) -> (out: Vec<u64>)
    requires
        is_square(ints64(m@), m.len() as nat),
    ensures
        out.len() == m.len(),
        forall|v: int| 0 <= v < m.len() ==> out[v] == ints64(m@)[v][v],
{
    let mut out: Vec<u64> = Vec::new();
    let mut v: usize = 0;
    while v < m.len()
        invariant
            is_square(ints64(m@), m.len() as nat),
            v <= m.len(),
            out.len() == v,
            forall|u: int| 0 <= u < v ==> out[u] == ints64(m@)[u][u],
        decreases m.len() - v,
    {
        proof {
            assert(ints64(m@)[v as int].len() == m.len());
        }
        out.push(m[v][v]);
        v += 1;
    }
    out
}

/// The walk-count fingerprint of the graph with matrix `a` on `n` vertices,
/// computed with 32-bit walk counts.
///
/// The walk counts must fit in 32 bits; for a 0/1 matrix on at most
/// `MAX_VERTICES` vertices they do (`lemma_walks_fit_u32`).
pub fn embed(n: usize, a: &AdjacencyMatrix) -> (out: [u8; 32])
    requires
        a.wf(),
        a@.len() == n,
        walks_fit(a@, n as nat, u32::MAX as int),
    ensures
        out@ == walk_fingerprint(a@, n as nat, 4),
{
    let steps: usize = if n <= 2 {
        1
    } else {
        n - 1
    };
    let rows = a.rows();
    let mut result: Vec<Vec<u32>> = Vec::new();
    let mut an = copy_rows(rows);
    let mut s: usize = 0;
    while s < steps
        invariant
            a.wf(),
            a@.len() == n,
            ints32(rows@) == a@,
            rows.len() == n,
            walks_fit(a@, n as nat, u32::MAX as int),
            steps == walk_steps(n as nat),
            s <= steps,
            an.len() == n,
            ints32(an@) == power(a@, (s + 1) as nat, n as nat),
            result.len() == s,
            forall|r: int| 0 <= r < s ==> (#[trigger] result[r]).len() == n,
            forall|r: int, v: int|
                0 <= r < s && 0 <= v < n ==> #[trigger] result[r][v] == power(
                    a@,
                    (r + 2) as nat,
                    n as nat,
                )[v][v],
        decreases steps - s,
    {
        proof {
            lemma_power_square(a@, (s + 1) as nat, n as nat);
            let next = power(a@, (s + 2) as nat, n as nat);
            assert forall|i: int, j: int| 0 <= i < n && 0 <= j < n implies #[trigger] crate::matrix::dot(
                ints32(an@),
                ints32(rows@),
                i,
                j,
                n as nat,
            ) <= u32::MAX by {
                assert(next[i][j] == crate::matrix::dot(ints32(an@), a@, i, j, n as nat));
            }
        }
        an = multiply_u32(&an, rows);
        proof {
            lemma_power_square(a@, (s + 2) as nat, n as nat);
            assert(ints32(an@).len() == n);
        }
        let diag = diagonal_u32(&an);
        result.push(diag);
        s += 1;
    }
    proof {
        let got = transposed(ints32(result@), n as nat);
        let want = profiles(a@, n as nat);
        assert forall|v: int| 0 <= v < n implies #[trigger] got[v] =~= want[v] by {
            assert forall|d: int| 0 <= d < steps implies got[v][d] == want[v][d] by {
                assert(result[d][v] == power(a@, (d + 2) as nat, n as nat)[v][v]);
            }
        }
        assert(got =~= want);
    }
    hash(n, result)
}

/// The walk-count fingerprint of the graph with matrix `a` on `n` vertices,
/// computed with 64-bit walk counts, for graphs whose walk counts outgrow 32
/// bits.
///
/// The walk counts must fit in 64 bits; for a 0/1 matrix on at most
/// `MAX_VERTICES_LARGE` vertices they do (`lemma_walks_fit_u64`).
pub fn embed_large(n: usize, a: &AdjacencyMatrix) -> (out: [u8; 32])
    requires
        a.wf(),
        a@.len() == n,
        walks_fit(a@, n as nat, u64::MAX as int),
    ensures
        out@ == walk_fingerprint(a@, n as nat, 8),
{
    let steps: usize = if n <= 2 {
        1
    } else {
        n - 1
    };
    let rows = widen_rows(a.rows());
    let mut result: Vec<Vec<u64>> = Vec::new();
    let mut an = widen_rows(a.rows());
    let mut s: usize = 0;
    while s < steps
        invariant
            a.wf(),
            a@.len() == n,
            ints64(rows@) == a@,
            rows.len() == n,
            walks_fit(a@, n as nat, u64::MAX as int),
            steps == walk_steps(n as nat),
            s <= steps,
            an.len() == n,
            ints64(an@) == power(a@, (s + 1) as nat, n as nat),
            result.len() == s,
            forall|r: int| 0 <= r < s ==> (#[trigger] result[r]).len() == n,
            forall|r: int, v: int|
                0 <= r < s && 0 <= v < n ==> #[trigger] result[r][v] == power(
                    a@,
                    (r + 2) as nat,
                    n as nat,
                )[v][v],
        decreases steps - s,
    {
        proof {
            lemma_power_square(a@, (s + 1) as nat, n as nat);
            let next = power(a@, (s + 2) as nat, n as nat);
            assert forall|i: int, j: int| 0 <= i < n && 0 <= j < n implies #[trigger] crate::matrix::dot(
                ints64(an@),
                ints64(rows@),
                i,
                j,
                n as nat,
            ) <= u64::MAX by {
                assert(next[i][j] == crate::matrix::dot(ints64(an@), a@, i, j, n as nat));
            }
        }
        an = multiply_u64(&an, &rows);
        proof {
            lemma_power_square(a@, (s + 2) as nat, n as nat);
            assert(ints64(an@).len() == n);
        }
        let diag = diagonal_u64(&an);
        result.push(diag);
        s += 1;
    }
    proof {
        let got = transposed(ints64(result@), n as nat);
        let want = profiles(a@, n as nat);
        assert forall|v: int| 0 <= v < n implies #[trigger] got[v] =~= want[v] by {
            assert forall|d: int| 0 <= d < steps implies got[v][d] == want[v][d] by {
                assert(result[d][v] == power(a@, (d + 2) as nat, n as nat)[v][v]);
            }
        }
        assert(got =~= want);
    }
    hash_large(n, result)
}

/// The walk-count fingerprint with 32-bit walk counts, for every matrix that
/// is known to be within their reach: a 0/1 matrix on `n` vertices, `n` at
/// most `MAX_VERTICES`. For any other matrix the result is `None`.
pub fn try_embed(n: usize, a: &AdjacencyMatrix) -> (out: Option<[u8; 32]>)
    requires
        a.wf(),
    ensures
        out is Some <==> a@.len() == n && n <= MAX_VERTICES && is_binary(a@),
        out matches Some(fp) ==> fp@ == walk_fingerprint(a@, n as nat, 4),
{
    if a.dim() == n && n <= MAX_VERTICES && a.is_binary() {
        proof {
            lemma_walks_fit_u32(a@, n as nat);
        }
        Some(embed(n, a))
    } else {
        None
    }
}

/// The walk-count fingerprint with 64-bit walk counts, for every matrix that
/// is known to be within their reach: a 0/1 matrix on `n` vertices, `n` at
/// most `MAX_VERTICES_LARGE`. For any other matrix the result is `None`.
pub fn try_embed_large(n: usize, a: &AdjacencyMatrix) -> (out: Option<[u8; 32]>)
    requires
        a.wf(),
    ensures
        out is Some <==> a@.len() == n && n <= MAX_VERTICES_LARGE && is_binary(a@),
        out matches Some(fp) ==> fp@ == walk_fingerprint(a@, n as nat, 8),
{
    if a.dim() == n && n <= MAX_VERTICES_LARGE && a.is_binary() {
        proof {
            lemma_walks_fit_u64(a@, n as nat);
        }
        Some(embed_large(n, a))
    } else {
        None
    }
}

} // verus!
