//! Reading graphs as `showg` lists them: for each graph an empty line, a
//! heading, and one line for each vertex with its neighbours, such as
//! `  0 : 2 3;`.

use vstd::prelude::*;
use crate::adjacency::AdjacencyMatrix;
use crate::matrix::{is_binary, is_symmetric};
use crate::text::{decimal, write_bytes, write_decimal};

verus! {

/// The pieces of `s` between its spaces: one more than there are spaces,
/// some of them empty where spaces touch or stand at an end.
pub open spec fn split_spaces(s: Seq<u8>) -> Seq<Seq<u8>>
    decreases s.len(),
{
    if s.len() == 0 {
        seq![Seq::<u8>::empty()]
    } else {
        let before = split_spaces(s.drop_last());
        if s.last() == 32u8 {
            before.push(Seq::<u8>::empty())
        } else {
            before.drop_last().push(before.last().push(s.last()))
        }
    }
}

/// The number that the decimal digits `d` spell.
pub open spec fn digits_value(d: Seq<u8>) -> nat
    decreases d.len(),
{
    if d.len() == 0 {
        0
    } else {
        digits_value(d.drop_last()) * 10 + (d.last() - 48) as nat
    }
}

/// Every byte of `d` is a decimal digit.
pub open spec fn all_digits(d: Seq<u8>) -> bool {
    forall|i: int| 0 <= i < d.len() ==> 48 <= #[trigger] d[i] <= 57
}

/// The digits of a piece of text: the text itself, or what follows a leading
/// plus sign.
pub open spec fn unsigned_part(tok: Seq<u8>) -> Seq<u8> {
    if tok.len() > 0 && tok[0] == 43u8 {
        tok.drop_first()
    } else {
        tok
    }
}

/// The number that a piece of text spells, if it spells one: at least one
/// decimal digit, perhaps after a plus sign, with a value that fits.
pub open spec fn number(tok: Seq<u8>) -> Option<usize> {
    let d = unsigned_part(tok);
    if d.len() > 0 && all_digits(d) && digits_value(d) <= usize::MAX {
        Some(digits_value(d) as usize)
    } else {
        None
    }
}

/// Those of the pieces that spell numbers, as numbers, in their order.
pub open spec fn numbers_among(tokens: Seq<Seq<u8>>) -> Seq<usize>
    decreases tokens.len(),
{
    if tokens.len() == 0 {
        Seq::empty()
    } else {
        let before = numbers_among(tokens.drop_last());
        match number(tokens.last()) {
            Some(x) => before.push(x),
            None => before,
        }
    }
}

/// What stands between the two leading spaces and the closing semicolon of
/// a vertex line, if the line has both.
pub open spec fn row_body(line: Seq<u8>) -> Option<Seq<u8>> {
    if line.len() >= 3 && line[0] == 32u8 && line[1] == 32u8 && line.last() == 59u8 {
        Some(line.subrange(2, line.len() - 1))
    } else {
        None
    }
}

/// The vertex and the neighbours that a vertex line names: after the two
/// spaces the vertex, a colon as the next piece, then the neighbours, and
/// the semicolon. Pieces after the colon that spell no number are passed
/// over.
pub open spec fn row(line: Seq<u8>) -> Option<(usize, Seq<usize>)> {
    match row_body(line) {
        None => None,
        Some(body) => {
            let tokens = split_spaces(body);
            if tokens.len() >= 2 && number(tokens[0]) is Some && tokens[1] == seq![58u8] {
                Some((number(tokens[0])->Some_0, numbers_among(tokens.skip(2))))
            } else {
                None
            }
        },
    }
}

/// The bytes of each line.
pub open spec fn line_views(lines: Seq<Vec<u8>>) -> Seq<Seq<u8>> {
    lines.map_values(|l: Vec<u8>| l@)
}

/// The lines are those of one graph on `n` vertices: an empty line, a
/// heading, and `n` vertex lines that name vertices below `n` only.
pub open spec fn is_record(n: nat, lines: Seq<Seq<u8>>) -> bool {
    &&& lines.len() == n + 2
    &&& lines[0].len() == 0
    &&& forall|r: int|
        0 <= r < n ==> {
            &&& #[trigger] row(lines[r + 2]) is Some
            &&& row(lines[r + 2])->Some_0.0 < n
            &&& forall|k: int|
                0 <= k < row(lines[r + 2])->Some_0.1.len() ==> #[trigger] row(
                    lines[r + 2],
                )->Some_0.1[k] < n
        }
}

/// Vertex line `r` of the record joins `i` and `j`.
pub open spec fn row_joins(lines: Seq<Seq<u8>>, r: int, i: int, j: int) -> bool {
    let (v, others) = row(lines[r + 2])->Some_0;
    (v == i && others.contains(j as usize)) || (v == j && others.contains(i as usize))
}

/// One of the first `m` vertex lines of the record joins `i` and `j`.
pub open spec fn joined(lines: Seq<Seq<u8>>, m: int, i: int, j: int) -> bool {
    exists|r: int| 0 <= r < m && #[trigger] row_joins(lines, r, i, j)
}

/// The name of the file that holds the graphs on `n` vertices:
/// `graphs`, after a `c` where only connected graphs are asked for, the
/// number, and `.txt`.
pub open spec fn file_name(n: nat, connected: bool) -> Seq<u8> {
    (if connected {
        seq![99u8]
    } else {
        Seq::<u8>::empty()
    }) + seq![103u8, 114, 97, 112, 104, 115] + decimal(n) + seq![46u8, 116, 120, 116]
}

/// The name of the file that holds the graphs on `n` vertices, as ASCII
/// text.
pub fn graph_file_name(n: usize, connected: bool) -> (out: Vec<u8>)
    ensures
        out@ == file_name(n as nat, connected),
{
    let mut out: Vec<u8> = Vec::new();
    if connected {
        out.push(99u8);
    }
    let stem = vec![103u8, 114, 97, 112, 104, 115];
    let extension = vec![46u8, 116, 120, 116];
    write_bytes(&stem, &mut out);
    write_decimal(n, &mut out);
    write_bytes(&extension, &mut out);
    proof {
        assert(stem@ =~= seq![103u8, 114, 97, 112, 104, 115]);
        assert(extension@ =~= seq![46u8, 116, 120, 116]);
        assert(out@ =~= file_name(n as nat, connected));
    }
    out
}

/// The digits of a longer text spell no smaller number than those of its
/// beginning.
proof fn lemma_digits_value_grows(d: Seq<u8>, k: int)
    requires
        all_digits(d),
        0 <= k <= d.len(),
    ensures
        digits_value(d.take(k)) <= digits_value(d),
    decreases d.len() - k,
{
    if k == d.len() {
        assert(d.take(k) =~= d);
    } else {
        lemma_digits_value_grows(d, k + 1);
        assert(d.take(k + 1).drop_last() =~= d.take(k));
        assert(48 <= d[k] <= 57);
    }
}

/// The number that `tok` spells, if it spells one.
pub fn parse_number(tok: &Vec<u8>) -> (out: Option<usize>)
    ensures
        out == number(tok@),
{
    let start: usize = if tok.len() > 0 && tok[0] == 43u8 {
        1
    } else {
        0
    };
    let ghost d = unsigned_part(tok@);
    proof {
        assert(d =~= tok@.skip(start as int));
    }
    if start == tok.len() {
        return None;
    }
    let mut value: usize = 0;
    let mut i: usize = start;
    proof {
        assert(d.take(0) =~= Seq::<u8>::empty());
    }
    while i < tok.len()
        invariant
            start <= i <= tok.len(),
            d == tok@.skip(start as int),
            d == unsigned_part(tok@),
            all_digits(d.take(i - start)),
            value == digits_value(d.take(i - start)),
        decreases tok.len() - i,
    {
        let b = tok[i];
        let ghost k = i - start;
        proof {
            assert(d[k] == b);
            assert(d.take(k + 1).drop_last() =~= d.take(k));
            assert(d.take(k + 1).last() == b);
        }
        if b < 48 || b > 57 {
            proof {
                assert(!(48 <= d[k] <= 57));
                assert(!all_digits(d));
            }
            return None;
        }
        proof {
            assert forall|t: int| 0 <= t < k + 1 implies 48 <= #[trigger] d.take(k + 1)[t]
                <= 57 by {
                if t < k {
                    assert(d.take(k)[t] == d.take(k + 1)[t]);
                }
            }
            if all_digits(d) {
                lemma_digits_value_grows(d, k + 1);
            }
            assert(digits_value(d.take(k + 1)) == digits_value(d.take(k)) * 10 + (b - 48));
            assert(d.len() > 0);
        }
        let digit: usize = (b - 48) as usize;
        let scaled = match value.checked_mul(10) {
            Some(x) => x,
            None => {
                return None;
            },
        };
        value = match scaled.checked_add(digit) {
            Some(x) => x,
            None => {
                return None;
            },
        };
        i += 1;
    }
    proof {
        assert(d.take(i - start) =~= d);
    }
    Some(value)
}

/// The pieces of `line[lo..hi]` between its spaces.
fn split_range(line: &Vec<u8>, lo: usize, hi: usize) -> (tokens: Vec<Vec<u8>>)
    requires
        lo <= hi <= line.len(),
    ensures
        line_views(tokens@) == split_spaces(line@.subrange(lo as int, hi as int)),
{
    let ghost body = line@.subrange(lo as int, hi as int);
    let mut tokens: Vec<Vec<u8>> = Vec::new();
    let mut current: Vec<u8> = Vec::new();
    let mut i: usize = lo;
    proof {
        assert(body.take(0) =~= Seq::<u8>::empty());
        assert(line_views(tokens@).push(current@) =~= split_spaces(body.take(0)));
    }
    while i < hi
        invariant
            lo <= i <= hi,
            hi <= line.len(),
            body == line@.subrange(lo as int, hi as int),
            line_views(tokens@).push(current@) == split_spaces(body.take(i - lo)),
        decreases hi - i,
    {
        let b = line[i];
        let ghost k = i - lo;
        let ghost before = split_spaces(body.take(k));
        proof {
            assert(body.take(k + 1).drop_last() =~= body.take(k));
            assert(body.take(k + 1).last() == b);
        }
        if b == 32u8 {
            tokens.push(current);
            current = Vec::new();
            proof {
                assert(line_views(tokens@) =~= before);
            }
        } else {
            current.push(b);
            proof {
                assert(line_views(tokens@).push(current@) =~= before.drop_last().push(
                    before.last().push(b),
                ));
            }
        }
        i += 1;
    }
    proof {
        assert(body.take(hi - lo) =~= body);
    }
    tokens.push(current);
    proof {
        assert(line_views(tokens@) =~= split_spaces(body));
    }
    tokens
}

/// Whether `tok` is a colon and nothing else.
fn is_colon(tok: &Vec<u8>) -> (b: bool)
    ensures
        b == (tok@ == seq![58u8]),
{
    if tok.len() == 1 && tok[0] == 58u8 {
        proof {
            assert(tok@ =~= seq![58u8]);
        }
        true
    } else {
        proof {
            if tok@ == seq![58u8] {
                assert(tok@.len() == 1);
                assert(tok@[0] == 58u8);
            }
        }
        false
    }
}

/// The vertex and the neighbours that a vertex line names, if it is one.
pub fn parse_row(line: &Vec<u8>) -> (out: Option<(usize, Vec<usize>)>)
    ensures
        out is Some <==> row(line@) is Some,
        out matches Some((v, others)) ==> v == row(line@)->Some_0.0 && others@ == row(
            line@,
        )->Some_0.1,
{
    let len = line.len();
    if len < 3 || line[0] != 32u8 || line[1] != 32u8 || line[len - 1] != 59u8 {
        return None;
    }
    let tokens = split_range(line, 2, len - 1);
    let ghost toks = line_views(tokens@);
    if tokens.len() < 2 {
        return None;
    }
    proof {
        assert(toks[0] == tokens[0]@);
        assert(toks[1] == tokens[1]@);
    }
    let v = match parse_number(&tokens[0]) {
        Some(v) => v,
        None => {
            return None;
        },
    };
    if !is_colon(&tokens[1]) {
        return None;
    }
    let ghost rest = toks.skip(2);
    let mut others: Vec<usize> = Vec::new();
    let mut k: usize = 2;
    proof {
        assert(rest.take(0) =~= Seq::<Seq<u8>>::empty());
    }
    while k < tokens.len()
        invariant
            2 <= k <= tokens.len(),
            toks == line_views(tokens@),
            rest == toks.skip(2),
            others@ == numbers_among(rest.take(k - 2)),
        decreases tokens.len() - k,
    {
        proof {
            assert(rest.take(k - 1).drop_last() =~= rest.take(k - 2));
            assert(rest.take(k - 1).last() == tokens[k as int]@);
        }
        match parse_number(&tokens[k]) {
            Some(x) => {
                others.push(x);
            },
            None => {},
        }
        k += 1;
    }
    proof {
        assert(rest.take(tokens.len() - 2) =~= rest);
    }
    Some((v, others))
}

/// The adjacency matrix of the graph on `n` vertices that the lines of one
/// record describe: vertices are joined where a vertex line names one as
/// the neighbour of the other.
pub fn parse_graph(n: usize, lines: &Vec<Vec<u8>>) -> (out: Option<AdjacencyMatrix>)
    ensures
        out is Some <==> is_record(n as nat, line_views(lines@)),
        out matches Some(m) ==> {
            &&& m.wf()
            &&& m@.len() == n
            &&& is_binary(m@)
            &&& is_symmetric(m@)
            &&& forall|i: int, j: int|
                0 <= i < n && 0 <= j < n ==> #[trigger] m@[i][j] == if joined(
                    line_views(lines@),
                    n as int,
                    i,
                    j,
                ) {
                    1int
                } else {
                    0int
                }
        },
{
    let ghost all = line_views(lines@);
    proof {
        assert(all.len() == lines.len());
    }
    if n > usize::MAX - 2 || lines.len() != n + 2 {
        return None;
    }
    proof {
        assert(all[0] == lines[0]@);
    }
    if lines[0].len() != 0 {
        return None;
    }
    let mut result = AdjacencyMatrix::zeros(n);
    let mut r: usize = 0;
    while r < n
        invariant
            all == line_views(lines@),
            lines.len() == n + 2,
            r <= n,
            result.wf(),
            result@.len() == n,
            forall|q: int|
                0 <= q < r ==> {
                    &&& #[trigger] row(all[q + 2]) is Some
                    &&& row(all[q + 2])->Some_0.0 < n
                    &&& forall|k: int|
                        0 <= k < row(all[q + 2])->Some_0.1.len() ==> #[trigger] row(
                            all[q + 2],
                        )->Some_0.1[k] < n
                },
            forall|i: int, j: int|
                0 <= i < n && 0 <= j < n ==> #[trigger] result@[i][j] == if joined(
                    all,
                    r as int,
                    i,
                    j,
                ) {
                    1int
                } else {
                    0int
                },
        decreases n - r,
    {
        proof {
            assert(all[r + 2] == lines[r + 2]@);
        }
        let (v, others) = match parse_row(&lines[r + 2]) {
            Some(pair) => pair,
            None => {
                return None;
            },
        };
        if v >= n {
            return None;
        }
        let ghost start = result@;
        let mut k: usize = 0;
        while k < others.len()
            invariant
                all == line_views(lines@),
                lines.len() == n + 2,
                r < n,
                v < n,
                k <= others.len(),
                start.len() == n,
                forall|i: int| 0 <= i < n ==> (#[trigger] start[i]).len() == n,
                row(all[r + 2]) == Some((v, others@)),
                result.wf(),
                result@.len() == n,
                forall|t: int| 0 <= t < k ==> others[t] < n,
                forall|i: int, j: int|
                    0 <= i < n && 0 <= j < n ==> #[trigger] result@[i][j] == if start[i][j] == 1 || (
                    v == i && others@.take(k as int).contains(j as usize)) || (v == j
                        && others@.take(k as int).contains(i as usize)) {
                        1int
                    } else {
                        start[i][j]
                    },
            decreases others.len() - k,
        {
            let other = others[k];
            if other >= n {
                proof {
                    assert(row(all[r + 2])->Some_0.1[k as int] >= n);
                }
                return None;
            }
            let ghost before = result@;
            result.add_edge(other, v);
            proof {
                broadcast use vstd::seq_lib::group_seq_properties;

                let now = others@.take(k + 1);
                let was = others@.take(k as int);
                assert(now =~= was.push(other));
                assert forall|x: usize| now.contains(x) <==> was.contains(x) || x == other by {}
                assert forall|i: int, j: int| 0 <= i < n && 0 <= j < n implies #[trigger] result@[i][j]
                    == if start[i][j] == 1 || (v == i && now.contains(j as usize)) || (v == j
                    && now.contains(i as usize)) {
                    1int
                } else {
                    start[i][j]
                } by {
                    assert(result@[i][j] == if (i == other && j == v) || (i == v && j == other) {
                        1int
                    } else {
                        before[i][j]
                    });
                }
            }
            k += 1;
        }
        proof {
            assert(others@.take(k as int) =~= others@);
            assert forall|i: int, j: int| 0 <= i < n && 0 <= j < n implies #[trigger] result@[i][j]
                == if joined(all, r + 1, i, j) {
                1int
            } else {
                0int
            } by {
                if joined(all, r as int, i, j) {
                    let q = choose|q: int| 0 <= q < r && #[trigger] row_joins(all, q, i, j);
                    assert(row_joins(all, q, i, j));
                }
                if row_joins(all, r as int, i, j) {
                    assert(joined(all, r + 1, i, j));
                }
                if joined(all, r + 1, i, j) {
                    let q = choose|q: int| 0 <= q < r + 1 && #[trigger] row_joins(all, q, i, j);
                    if q < r {
                        assert(joined(all, r as int, i, j));
                    }
                }
            }
        }
        r += 1;
    }
    proof {
        assert forall|i: int, j: int|
            0 <= i < result@.len() && 0 <= j < result@.len() implies #[trigger] result@[i][j]
            == #[trigger] result@[j][i] by {
            if joined(all, n as int, i, j) {
                let q = choose|q: int| 0 <= q < n && #[trigger] row_joins(all, q, i, j);
                assert(row_joins(all, q, j, i));
            }
            if joined(all, n as int, j, i) {
                let q = choose|q: int| 0 <= q < n && #[trigger] row_joins(all, q, j, i);
                assert(row_joins(all, q, i, j));
            }
        }
        assert forall|i: int, j: int|
            0 <= i < result@.len() && 0 <= j < result@[i].len() implies 0 <= #[trigger] result@[i][j]
            <= 1 by {
            assert(result@[i].len() == n);
        }
    }
    Some(result)
}

} // verus!
