//! Adjacency matrices as the embeddings take them, and the matrix product
//! that the walk counts are computed with.

use vstd::prelude::*;
use crate::matrix::{dot, is_binary, is_square, permuted, product};
use crate::permutation::is_permutation;

verus! {

/// The entries of a matrix of 32-bit numbers, as integers.
pub open spec fn ints32(rows: Seq<Vec<u32>>) -> Seq<Seq<int>> {
    Seq::new(rows.len(), |i: int| Seq::new(rows[i]@.len(), |j: int| rows[i]@[j] as int))
}

/// The entries of a matrix of 64-bit numbers, as integers.
pub open spec fn ints64(rows: Seq<Vec<u64>>) -> Seq<Seq<int>> {
    Seq::new(rows.len(), |i: int| Seq::new(rows[i]@.len(), |j: int| rows[i]@[j] as int))
}

/// A list of vertices, as integers.
pub open spec fn vertex_list(p: Seq<usize>) -> Seq<int> {
    Seq::new(p.len(), |i: int| p[i] as int)
}

/// The adjacency matrix of a graph on the vertices `0..n`: entry `(i, j)` is
/// 1 where `i` and `j` are joined. Its view is the matrix of its entries.
#[derive(Clone, Debug)]
pub struct AdjacencyMatrix {
    rows: Vec<Vec<u32>>,
}

impl View for AdjacencyMatrix {
    type V = Seq<Seq<int>>;

    closed spec fn view(&self) -> Seq<Seq<int>> {
        ints32(self.rows@)
    }
}

impl AdjacencyMatrix {
    /// The matrix is square.
    pub open spec fn wf(&self) -> bool {
        is_square(self@, self@.len())
    }

    /// The matrix of the graph on `n` vertices without edges.
    pub fn zeros(n: usize) -> (m: AdjacencyMatrix)
        ensures
            m.wf(),
            m@.len() == n,
            forall|i: int, j: int| 0 <= i < n && 0 <= j < n ==> m@[i][j] == 0,
    {
        let mut rows: Vec<Vec<u32>> = Vec::new();
        let mut i: usize = 0;
        while i < n
            invariant
                i <= n,
                rows.len() == i,
                forall|r: int| 0 <= r < i ==> (#[trigger] rows[r]).len() == n,
                forall|r: int, c: int| 0 <= r < i && 0 <= c < n ==> #[trigger] rows[r][c] == 0,
            decreases n - i,
        {
            let mut row: Vec<u32> = Vec::new();
            let mut j: usize = 0;
            while j < n
                invariant
                    j <= n,
                    row.len() == j,
                    forall|c: int| 0 <= c < j ==> row[c] == 0,
                decreases n - j,
            {
                row.push(0);
                j += 1;
            }
            rows.push(row);
            i += 1;
        }
        AdjacencyMatrix { rows }
    }

    /// Takes the matrix from its rows. The rows must form a square.
    pub fn from_rows(rows: Vec<Vec<u32>>) -> (m: Option<AdjacencyMatrix>)
        ensures
            m is Some <==> is_square(ints32(rows@), rows.len() as nat),
            m matches Some(a) ==> a@ == ints32(rows@) && a.wf(),
    {
        let n = rows.len();
        let mut i: usize = 0;
        while i < n
            invariant
                n == rows.len(),
                i <= n,
                forall|r: int| 0 <= r < i ==> (#[trigger] rows[r]).len() == n,
            decreases n - i,
        {
            if rows[i].len() != n {
                proof {
                    assert(ints32(rows@)[i as int].len() != n);
                }
                return None;
            }
            i += 1;
        }
        proof {
            assert forall|r: int| 0 <= r < n implies (#[trigger] ints32(rows@)[r]).len() == n by {
                assert(rows[r].len() == n);
            }
        }
        Some(AdjacencyMatrix { rows })
    }

    /// The number of vertices.
    pub fn dim(&self) -> (n: usize)
        ensures
            n == self@.len(),
    {
        self.rows.len()
    }

    /// The rows of the matrix.
    pub fn rows(&self) -> (rows: &Vec<Vec<u32>>)
        ensures
            ints32(rows@) == self@,
    {
        &self.rows
    }

    /// Entry `(i, j)`.
    pub fn get(&self, i: usize, j: usize) -> (x: u32)
        requires
            self.wf(),
            i < self@.len(),
            j < self@.len(),
        ensures
            x == self@[i as int][j as int],
    {
        proof {
            assert(self@[i as int].len() == self@.len());
        }
        self.rows[i][j]
    }

    /// Sets entry `(i, j)` to `value`.
    pub fn set(&mut self, i: usize, j: usize, value: u32)
        requires
            old(self).wf(),
            i < old(self)@.len(),
            j < old(self)@.len(),
        ensures
            final(self).wf(),
            final(self)@ == old(self)@.update(i as int, old(self)@[i as int].update(j as int, value as int)),
    {
        proof {
            assert(self@[i as int].len() == self@.len());
        }
        let mut row: Vec<u32> = Vec::new();
        let n = self.rows.len();
        let mut c: usize = 0;
        while c < n
            invariant
                n == self.rows.len(),
                i < n,
                self.rows[i as int].len() == n,
                c <= n,
                row.len() == c,
                forall|t: int| 0 <= t < c ==> row[t] == if t == j { value } else { self.rows[i as int][t] },
            decreases n - c,
        {
            let x = if c == j { value } else { self.rows[i][c] };
            row.push(x);
            c += 1;
        }
        self.rows.set(i, row);
        proof {
            let want = old(self)@.update(i as int, old(self)@[i as int].update(j as int, value as int));
            assert forall|r: int| 0 <= r < n implies #[trigger] self@[r] =~= want[r] by {
                if r != i {
                    assert(self.rows[r] == old(self).rows[r]);
                    assert(old(self)@[r] == want[r]);
                }
            }
            assert(self@ =~= want);
            assert forall|r: int| 0 <= r < n implies (#[trigger] self@[r]).len() == n by {
                assert(old(self)@[r].len() == n);
            }
        }
    }

    /// Joins the vertices `u` and `v` by an edge.
    pub fn add_edge(&mut self, u: usize, v: usize)
        requires
            old(self).wf(),
            u < old(self)@.len(),
            v < old(self)@.len(),
        ensures
            final(self).wf(),
            final(self)@.len() == old(self)@.len(),
            forall|i: int, j: int|
                0 <= i < old(self)@.len() && 0 <= j < old(self)@.len() ==> final(self)@[i][j] == if (i
                    == u && j == v) || (i == v && j == u) {
                    1
                } else {
                    old(self)@[i][j]
                },
    {
        let ghost n = self@.len();
        proof {
            assert forall|r: int| 0 <= r < n implies (#[trigger] self@[r]).len() == n by {}
        }
        self.set(u, v, 1);
        self.set(v, u, 1);
    }

    /// The matrix of the same graph with its vertices renumbered: vertex `i`
    /// of the result is vertex `p[i]` of this graph. The result is `None`
    /// unless `p` lists every vertex exactly once.
    pub fn relabelled(&self, p: &Vec<usize>) -> (out: Option<AdjacencyMatrix>)
        requires
            self.wf(),
        ensures
            out is Some <==> is_permutation(vertex_list(p@), self@.len()),
            out matches Some(m) ==> m.wf() && m@ == permuted(self@, vertex_list(p@)),
    {
        let n = self.rows.len();
        let ghost q = vertex_list(p@);
        if p.len() != n {
            return None;
        }
        let mut i: usize = 0;
        while i < n
            invariant
                n == self.rows.len(),
                p.len() == n,
                q == vertex_list(p@),
                i <= n,
                forall|s: int| 0 <= s < i ==> 0 <= #[trigger] q[s] < n,
                forall|s: int, t: int| 0 <= s < t < i ==> #[trigger] q[s] != #[trigger] q[t],
            decreases n - i,
        {
            if p[i] >= n {
                proof {
                    assert(q[i as int] >= n);
                }
                return None;
            }
            let mut j: usize = 0;
            while j < i
                invariant
                    p.len() == n,
                    q == vertex_list(p@),
                    i < n,
                    j <= i,
                    forall|s: int| 0 <= s < j ==> #[trigger] q[s] != q[i as int],
                decreases i - j,
            {
                if p[j] == p[i] {
                    proof {
                        assert(q[j as int] == q[i as int]);
                    }
                    return None;
                }
                j += 1;
            }
            i += 1;
        }
        let mut rows: Vec<Vec<u32>> = Vec::new();
        let mut r: usize = 0;
        while r < n
            invariant
                self.wf(),
                n == self.rows.len(),
                p.len() == n,
                q == vertex_list(p@),
                forall|s: int| 0 <= s < n ==> 0 <= #[trigger] q[s] < n,
                r <= n,
                rows.len() == r,
                forall|x: int| 0 <= x < r ==> (#[trigger] rows[x]).len() == n,
                forall|x: int, y: int|
                    0 <= x < r && 0 <= y < n ==> #[trigger] rows[x][y] == self@[q[x]][q[y]],
            decreases n - r,
        {
            let mut row: Vec<u32> = Vec::new();
            let mut c: usize = 0;
            proof {
                assert(0 <= q[r as int] < n);
            }
            while c < n
                invariant
                    self.wf(),
                    n == self.rows.len(),
                    p.len() == n,
                    q == vertex_list(p@),
                    forall|s: int| 0 <= s < n ==> 0 <= #[trigger] q[s] < n,
                    r < n,
                    c <= n,
                    row.len() == c,
                    forall|y: int| 0 <= y < c ==> row[y] == self@[q[r as int]][q[y]],
                decreases n - c,
            {
                proof {
                    assert(0 <= q[c as int] < n);
                    assert(0 <= q[r as int] < n);
                }
                row.push(self.get(p[r], p[c]));
                c += 1;
            }
            rows.push(row);
            r += 1;
        }
        let out = AdjacencyMatrix { rows };
        proof {
            let want = permuted(self@, q);
            assert forall|x: int| 0 <= x < n implies #[trigger] out@[x] =~= want[x] by {
                assert(out.rows[x].len() == n);
            }
            assert(out@ =~= want);
        }
        Some(out)
    }

    /// Whether every entry is 0 or 1.
    pub fn is_binary(&self) -> (b: bool)
        requires
            self.wf(),
        ensures
            b == is_binary(self@),
    {
        let n = self.rows.len();
        let mut i: usize = 0;
        while i < n
            invariant
                self.wf(),
                n == self.rows.len(),
                i <= n,
                forall|r: int, c: int| 0 <= r < i && 0 <= c < n ==> 0 <= #[trigger] self@[r][c] <= 1,
            decreases n - i,
        {
            let mut j: usize = 0;
            proof {
                assert(self@[i as int].len() == n);
            }
            while j < n
                invariant
                    self.wf(),
                    n == self.rows.len(),
                    i < n,
                    j <= n,
                    self.rows[i as int].len() == n,
                    forall|r: int, c: int|
                        0 <= r < i && 0 <= c < n ==> 0 <= #[trigger] self@[r][c] <= 1,
                    forall|c: int| 0 <= c < j ==> 0 <= #[trigger] self@[i as int][c] <= 1,
                decreases n - j,
            {
                if self.rows[i][j] > 1 {
                    proof {
                        assert(self@[i as int][j as int] > 1);
                    }
                    return false;
                }
                j += 1;
            }
            i += 1;
        }
        proof {
            assert forall|r: int, c: int|
                0 <= r < self@.len() && 0 <= c < self@[r].len() implies 0 <= #[trigger] self@[r][c]
                <= 1 by {
                assert(self@[r].len() == n);
            }
        }
        true
    }
}

/// Multiplies two square matrices of 32-bit numbers with `nalgebra`.
///
/// Trusted: the result is claimed to be the matrix product, entry `(i, j)`
/// being the sum over `t` of `a[i][t] * b[t][j]`. `nalgebra` adds the
/// products of unsigned numbers up one by one, so nothing overflows on the
/// way where every entry of the product fits, which is what is required.
#[verifier::external_body]
pub(crate) fn multiply_u32(a: &Vec<Vec<u32>>, b: &Vec<Vec<u32>>) -> (c: Vec<Vec<u32>>)
    requires
        is_square(ints32(a@), a.len() as nat),
        is_square(ints32(b@), a.len() as nat),
        forall|i: int, j: int|
            0 <= i < a.len() && 0 <= j < a.len() ==> #[trigger] dot(
                ints32(a@),
                ints32(b@),
                i,
                j,
                a.len() as nat,
            ) <= u32::MAX,
    ensures
        ints32(c@) == product(ints32(a@), ints32(b@), a.len() as nat),
{
    let n = a.len();
    let mut x = nalgebra::DMatrix::from_fn(n, n, |i, j| a[i][j]);
    let y = nalgebra::DMatrix::from_fn(n, n, |i, j| b[i][j]);
    x *= &y;
    (0..n).map(|i| (0..n).map(|j| x[(i, j)]).collect()).collect()
}

/// Multiplies two square matrices of 64-bit numbers with `nalgebra`.
///
/// Trusted: as for `multiply_u32`, with 64-bit entries.
#[verifier::external_body]
pub(crate) fn multiply_u64(a: &Vec<Vec<u64>>, b: &Vec<Vec<u64>>) -> (c: Vec<Vec<u64>>)
    requires
        is_square(ints64(a@), a.len() as nat),
        is_square(ints64(b@), a.len() as nat),
        forall|i: int, j: int|
            0 <= i < a.len() && 0 <= j < a.len() ==> #[trigger] dot(
                ints64(a@),
                ints64(b@),
                i,
                j,
                a.len() as nat,
            ) <= u64::MAX,
    ensures
        ints64(c@) == product(ints64(a@), ints64(b@), a.len() as nat),
{
    let n = a.len();
    let mut x = nalgebra::DMatrix::from_fn(n, n, |i, j| a[i][j]);
    let y = nalgebra::DMatrix::from_fn(n, n, |i, j| b[i][j]);
    x *= &y;
    (0..n).map(|i| (0..n).map(|j| x[(i, j)]).collect()).collect()
}

/// A copy of the rows of a square matrix.
pub fn copy_rows(rows: &Vec<Vec<u32>>) -> (out: Vec<Vec<u32>>)
    ensures
        ints32(out@) == ints32(rows@),
{
    let mut out: Vec<Vec<u32>> = Vec::new();
    let mut i: usize = 0;
    while i < rows.len()
        invariant
            i <= rows.len(),
            out.len() == i,
            forall|r: int| 0 <= r < i ==> (#[trigger] out[r])@ == rows[r]@,
        decreases rows.len() - i,
    {
        let mut row: Vec<u32> = Vec::new();
        let mut j: usize = 0;
        while j < rows[i].len()
            invariant
                i < rows.len(),
                j <= rows[i as int].len(),
                row.len() == j,
                forall|c: int| 0 <= c < j ==> row[c] == rows[i as int][c],
            decreases rows[i as int].len() - j,
        {
            row.push(rows[i][j]);
            j += 1;
        }
        proof {
            assert(row@ =~= rows[i as int]@);
        }
        out.push(row);
        i += 1;
    }
    proof {
        assert forall|r: int| 0 <= r < out.len() implies #[trigger] ints32(out@)[r] =~= ints32(
            rows@,
        )[r] by {
            assert(out[r]@ == rows[r]@);
        }
        assert(ints32(out@) =~= ints32(rows@));
    }
    out
}

/// The rows of a matrix with each entry widened to 64 bits.
pub fn widen_rows(rows: &Vec<Vec<u32>>) -> (out: Vec<Vec<u64>>)
    ensures
        ints64(out@) == ints32(rows@),
{
    let mut out: Vec<Vec<u64>> = Vec::new();
    let mut i: usize = 0;
    while i < rows.len()
        invariant
            i <= rows.len(),
            out.len() == i,
            forall|r: int| 0 <= r < i ==> (#[trigger] out[r]).len() == rows[r].len(),
            forall|r: int, c: int|
                0 <= r < i && 0 <= c < rows[r].len() ==> #[trigger] out[r][c] == rows[r][c],
        decreases rows.len() - i,
    {
        let mut row: Vec<u64> = Vec::new();
        let mut j: usize = 0;
        while j < rows[i].len()
            invariant
                i < rows.len(),
                j <= rows[i as int].len(),
                row.len() == j,
                forall|c: int| 0 <= c < j ==> row[c] == rows[i as int][c],
            decreases rows[i as int].len() - j,
        {
            row.push(rows[i][j] as u64);
            j += 1;
        }
        out.push(row);
        i += 1;
    }
    proof {
        assert forall|r: int| 0 <= r < out.len() implies #[trigger] ints64(out@)[r] =~= ints32(
            rows@,
        )[r] by {
            assert(out[r].len() == rows[r].len());
        }
        assert(ints64(out@) =~= ints32(rows@));
    }
    out
}

} // verus!
