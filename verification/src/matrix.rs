//! Square integer matrices: products, powers, and how both behave when the
//! vertices of a graph are renumbered.

use vstd::prelude::*;
use crate::permutation::{is_permutation, lemma_reindex_multiset, lemma_sum_multiset, reindex, sum};

verus! {

/// `m` has `n` rows of `n` entries each.
pub open spec fn is_square(m: Seq<Seq<int>>, n: nat) -> bool {
    &&& m.len() == n
    &&& forall|i: int| 0 <= i < n ==> (#[trigger] m[i]).len() == n
}

/// Every entry of `m` is 0 or 1.
pub open spec fn is_binary(m: Seq<Seq<int>>) -> bool {
    forall|i: int, j: int|
        0 <= i < m.len() && 0 <= j < m[i].len() ==> 0 <= #[trigger] m[i][j] <= 1
}

/// Entry `(i, j)` of `m` equals entry `(j, i)`, for all vertices `i` and `j`.
pub open spec fn is_symmetric(m: Seq<Seq<int>>) -> bool {
    forall|i: int, j: int|
        0 <= i < m.len() && 0 <= j < m.len() ==> #[trigger] m[i][j] == #[trigger] m[j][i]
}

/// The products `a[i][t] * b[t][j]` for `t` in `0..n`.
pub open spec fn terms(a: Seq<Seq<int>>, b: Seq<Seq<int>>, i: int, j: int, n: nat) -> Seq<int> {
    Seq::new(n, |t: int| a[i][t] * b[t][j])
}

/// Entry `(i, j)` of the product of the `n`-by-`n` matrices `a` and `b`.
pub open spec fn dot(a: Seq<Seq<int>>, b: Seq<Seq<int>>, i: int, j: int, n: nat) -> int {
    sum(terms(a, b, i, j, n))
}

/// The product of the `n`-by-`n` matrices `a` and `b`.
pub open spec fn product(a: Seq<Seq<int>>, b: Seq<Seq<int>>, n: nat) -> Seq<Seq<int>> {
    Seq::new(n, |i: int| Seq::new(n, |j: int| dot(a, b, i, j, n)))
}

/// The `t`-th power of the `n`-by-`n` matrix `a`, for `t >= 1`.
pub open spec fn power(a: Seq<Seq<int>>, t: nat, n: nat) -> Seq<Seq<int>>
    decreases t,
{
    if t <= 1 {
        a
    } else {
        product(power(a, (t - 1) as nat, n), a, n)
    }
}

/// The matrix of the same graph with its vertices renumbered: vertex `i` of
/// the result is vertex `p[i]` of `a`.
pub open spec fn permuted(a: Seq<Seq<int>>, p: Seq<int>) -> Seq<Seq<int>> {
    Seq::new(p.len(), |i: int| Seq::new(p.len(), |j: int| a[p[i]][p[j]]))
}

/// `b` to the power `e`.
pub open spec fn upow(b: nat, e: nat) -> nat
    decreases e,
{
    if e == 0 {
        1
    } else {
        b * upow(b, (e - 1) as nat)
    }
}

/// A power of a square matrix is square.
pub proof fn lemma_power_square(a: Seq<Seq<int>>, t: nat, n: nat)
    requires
        is_square(a, n),
    ensures
        is_square(power(a, t, n), n),
    decreases t,
{
    if t > 1 {
        lemma_power_square(a, (t - 1) as nat, n);
    }
}

/// Renumbering the vertices commutes with the matrix product.
pub proof fn lemma_product_permuted(a: Seq<Seq<int>>, b: Seq<Seq<int>>, p: Seq<int>, n: nat)
    requires
        is_permutation(p, n),
    ensures
        product(permuted(a, p), permuted(b, p), n) == permuted(product(a, b, n), p),
{
    let lhs = product(permuted(a, p), permuted(b, p), n);
    let rhs = permuted(product(a, b, n), p);
    assert forall|i: int, j: int| 0 <= i < n && 0 <= j < n implies lhs[i][j] == rhs[i][j] by {
        let x = terms(permuted(a, p), permuted(b, p), i, j, n);
        let y = terms(a, b, p[i], p[j], n);
        assert(x =~= reindex(y, p));
        lemma_reindex_multiset(y, p);
        lemma_sum_multiset(x, y);
    }
    assert forall|i: int| 0 <= i < n implies lhs[i] =~= rhs[i] by {}
    assert(lhs =~= rhs);
}

/// Renumbering the vertices commutes with taking powers.
pub proof fn lemma_power_permuted(a: Seq<Seq<int>>, p: Seq<int>, t: nat, n: nat)
    requires
        is_permutation(p, n),
    ensures
        power(permuted(a, p), t, n) == permuted(power(a, t, n), p),
    decreases t,
{
    if t > 1 {
        lemma_power_permuted(a, p, (t - 1) as nat, n);
        lemma_product_permuted(power(a, (t - 1) as nat, n), a, p, n);
    }
}

/// A sum of entries between 0 and `bound` lies between 0 and their number
/// times `bound`.
pub proof fn lemma_sum_bounded(s: Seq<int>, bound: nat)
    requires
        forall|i: int| 0 <= i < s.len() ==> 0 <= #[trigger] s[i] <= bound,
    ensures
        0 <= sum(s) <= s.len() * bound,
    decreases s.len(),
{
    if s.len() > 0 {
        lemma_sum_bounded(s.drop_last(), bound);
        assert((s.len() - 1) * bound + bound == s.len() * bound) by (nonlinear_arith);
    }
}

/// In the `t`-th power of a 0/1 matrix on `n` vertices no entry exceeds
/// `n` to the power `t - 1`: there are no more walks than that.
pub proof fn lemma_power_bounded(a: Seq<Seq<int>>, t: nat, n: nat, i: int, j: int)
    requires
        is_square(a, n),
        is_binary(a),
        t >= 1,
        0 <= i < n,
        0 <= j < n,
    ensures
        0 <= power(a, t, n)[i][j] <= upow(n, (t - 1) as nat),
    decreases t,
{
    if t > 1 {
        let prev = power(a, (t - 1) as nat, n);
        let bound = upow(n, (t - 2) as nat);
        let s = terms(prev, a, i, j, n);
        assert forall|k: int| 0 <= k < s.len() implies 0 <= #[trigger] s[k] <= bound by {
            lemma_power_bounded(a, (t - 1) as nat, n, i, k);
            let x = prev[i][k];
            let y = a[k][j];
            assert(0 <= y <= 1);
            assert(0 <= x * y <= x) by (nonlinear_arith)
                requires
                    0 <= x,
                    0 <= y <= 1,
            ;
        }
        lemma_sum_bounded(s, bound);
    }
}

/// Powers grow with the base and with the exponent.
pub proof fn lemma_upow_monotonic(b: nat, e: nat, c: nat, f: nat)
    requires
        b <= c,
        e <= f,
        1 <= c,
    ensures
        upow(b, e) <= upow(c, f),
    decreases f,
{
    if f == 0 {
    } else if e == 0 {
        lemma_upow_monotonic(b, 0, c, (f - 1) as nat);
        let x = upow(c, (f - 1) as nat);
        assert(x <= c * x) by (nonlinear_arith)
            requires
                1 <= c,
                0 <= x,
        ;
    } else {
        lemma_upow_monotonic(b, (e - 1) as nat, c, (f - 1) as nat);
        let x = upow(b, (e - 1) as nat);
        let y = upow(c, (f - 1) as nat);
        assert(b * x <= c * y) by (nonlinear_arith)
            requires
                b <= c,
                x <= y,
                0 <= b,
                0 <= x,
        ;
    }
}

} // verus!
