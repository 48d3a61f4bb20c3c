//! Graphs as text, in the notation of Mathematica.

use vstd::prelude::*;
use crate::adjacency::AdjacencyMatrix;
use crate::text::{decimal, write_bytes, write_decimal};

verus! {

/// The edges `(i, j)` of row `i` with `i < j < m`, in ascending order of `j`.
pub open spec fn row_edges(a: Seq<Seq<int>>, i: nat, m: nat) -> Seq<(usize, usize)>
    decreases m,
{
    if m <= i + 1 {
        Seq::empty()
    } else {
        let before = row_edges(a, i, (m - 1) as nat);
        if a[i as int][m - 1] == 1 {
            before.push((i as usize, (m - 1) as usize))
        } else {
            before
        }
    }
}

/// The edges `(i, j)` with `i < r` and `i < j < n`, row after row.
pub open spec fn edges_upto(a: Seq<Seq<int>>, n: nat, r: nat) -> Seq<(usize, usize)>
    decreases r,
{
    if r == 0 {
        Seq::empty()
    } else {
        edges_upto(a, n, (r - 1) as nat) + row_edges(a, (r - 1) as nat, n)
    }
}

/// The edges of the graph on `n` vertices with matrix `a`: the pairs
/// `(i, j)` with `i < j` whose entry is 1, in lexicographic order.
pub open spec fn edges_of(a: Seq<Seq<int>>, n: nat) -> Seq<(usize, usize)> {
    edges_upto(a, n, n)
}

/// The text `\[UndirectedEdge]`, which stands between the ends of an edge.
pub open spec fn edge_separator() -> Seq<u8> {
    seq![92u8, 91, 85, 110, 100, 105, 114, 101, 99, 116, 101, 100, 69, 100, 103, 101, 93]
}

/// The text `Graph[{ `, which opens the description.
pub open spec fn graph_prefix() -> Seq<u8> {
    seq![71u8, 114, 97, 112, 104, 91, 123, 32]
}

/// The text ` }, VertexLabels -> "Name"]`, which closes the description.
pub open spec fn graph_suffix() -> Seq<u8> {
    seq![
        32u8,
        125,
        44,
        32,
        86,
        101,
        114,
        116,
        101,
        120,
        76,
        97,
        98,
        101,
        108,
        115,
        32,
        45,
        62,
        32,
        34,
        78,
        97,
        109,
        101,
        34,
        93,
    ]
}

/// The text of one edge: its ends in decimal, with the separator between.
pub open spec fn edge_text(e: (usize, usize)) -> Seq<u8> {
    decimal(e.0 as nat) + edge_separator() + decimal(e.1 as nat)
}

/// The texts of the edges, with a comma between one and the next.
pub open spec fn edge_list_text(edges: Seq<(usize, usize)>) -> Seq<u8>
    decreases edges.len(),
{
    if edges.len() == 0 {
        Seq::empty()
    } else if edges.len() == 1 {
        edge_text(edges[0])
    } else {
        edge_list_text(edges.drop_last()) + seq![44u8] + edge_text(edges.last())
    }
}

/// The description of the graph with the given edges.
pub open spec fn graph_text(edges: Seq<(usize, usize)>) -> Seq<u8> {
    graph_prefix() + edge_list_text(edges) + graph_suffix()
}

/// What `row_edges` holds.
pub proof fn lemma_row_edges(a: Seq<Seq<int>>, i: nat, m: nat, e: (usize, usize))
    requires
        m <= usize::MAX,
    ensures
        row_edges(a, i, m).contains(e) <==> e.0 == i && i < e.1 < m && a[e.0 as int][e.1 as int]
            == 1,
    decreases m,
{
    broadcast use vstd::seq_lib::group_seq_properties;

    if m > i + 1 {
        lemma_row_edges(a, i, (m - 1) as nat, e);
        let before = row_edges(a, i, (m - 1) as nat);
        if a[i as int][m - 1] == 1 {
            let last = (i as usize, (m - 1) as usize);
            assert(before.push(last).contains(e) <==> before.contains(e) || e == last);
        }
    }
}

/// What `edges_upto` holds.
pub proof fn lemma_edges_upto(a: Seq<Seq<int>>, n: nat, r: nat, e: (usize, usize))
    requires
        r <= n <= usize::MAX,
    ensures
        edges_upto(a, n, r).contains(e) <==> e.0 < r && e.0 < e.1 < n && a[e.0 as int][e.1 as int]
            == 1,
    decreases r,
{
    broadcast use vstd::seq_lib::group_seq_properties;

    if r > 0 {
        lemma_edges_upto(a, n, (r - 1) as nat, e);
        lemma_row_edges(a, (r - 1) as nat, n, e);
    }
}

/// The edges of a graph are exactly the pairs `(i, j)` with `i < j < n`
/// whose entry is 1.
pub proof fn lemma_edges_of(a: Seq<Seq<int>>, n: nat, e: (usize, usize))
    requires
        n <= usize::MAX,
    ensures
        edges_of(a, n).contains(e) <==> e.0 < e.1 < n && a[e.0 as int][e.1 as int] == 1,
{
    lemma_edges_upto(a, n, n, e);
}

/// The edges of the graph, each once, the smaller end first, in
/// lexicographic order.
pub fn edges(n: usize, graph: &AdjacencyMatrix) -> (out: Vec<(usize, usize)>)
    requires
        graph.wf(),
        graph@.len() == n,
    ensures
        out@ == edges_of(graph@, n as nat),
{
    let mut out: Vec<(usize, usize)> = Vec::new();
    let mut i: usize = 0;
    while i < n
        invariant
            graph.wf(),
            graph@.len() == n,
            i <= n,
            out@ == edges_upto(graph@, n as nat, i as nat),
        decreases n - i,
    {
        let ghost before = out@;
        let mut j: usize = i + 1;
        proof {
            assert(out@ =~= before + row_edges(graph@, i as nat, j as nat));
        }
        while j < n
            invariant
                graph.wf(),
                graph@.len() == n,
                i < n,
                i < j <= n,
                out@ == before + row_edges(graph@, i as nat, j as nat),
            decreases n - j,
        {
            if graph.get(i, j) == 1 {
                out.push((i, j));
            }
            proof {
                assert(out@ =~= before + row_edges(graph@, i as nat, (j + 1) as nat));
            }
            j += 1;
        }
        i += 1;
    }
    out
}

/// The bytes of `edge_separator`.
fn edge_separator_bytes() -> (v: Vec<u8>)
    ensures
        v@ == edge_separator(),
{
    let v = vec![92u8, 91, 85, 110, 100, 105, 114, 101, 99, 116, 101, 100, 69, 100, 103, 101, 93];
    proof {
        assert(v@ =~= edge_separator());
    }
    v
}

/// The bytes of `graph_prefix`.
fn graph_prefix_bytes() -> (v: Vec<u8>)
    ensures
        v@ == graph_prefix(),
{
    let v = vec![71u8, 114, 97, 112, 104, 91, 123, 32];
    proof {
        assert(v@ =~= graph_prefix());
    }
    v
}

/// The bytes of `graph_suffix`.
fn graph_suffix_bytes() -> (v: Vec<u8>)
    ensures
        v@ == graph_suffix(),
{
    let v = vec![
        32u8,
        125,
        44,
        32,
        86,
        101,
        114,
        116,
        101,
        120,
        76,
        97,
        98,
        101,
        108,
        115,
        32,
        45,
        62,
        32,
        34,
        78,
        97,
        109,
        101,
        34,
        93,
    ];
    proof {
        assert(v@ =~= graph_suffix());
    }
    v
}

/// The description of the graph in the notation of Mathematica, as ASCII
/// text: `Graph[{ `, the edges with a comma between one and the next, and
/// ` }, VertexLabels -> "Name"]`.
pub fn mathematica(n: usize, graph: &AdjacencyMatrix) -> (out: Vec<u8>)
    requires
        graph.wf(),
        graph@.len() == n,
    ensures
        out@ == graph_text(edges_of(graph@, n as nat)),
{
    let list = edges(n, graph);
    let separator = edge_separator_bytes();
    let mut out = graph_prefix_bytes();
    let mut k: usize = 0;
    proof {
        assert(list@.take(0) =~= Seq::<(usize, usize)>::empty());
        assert(out@ =~= graph_prefix() + edge_list_text(list@.take(0)));
    }
    while k < list.len()
        invariant
            k <= list.len(),
            separator@ == edge_separator(),
            out@ == graph_prefix() + edge_list_text(list@.take(k as int)),
        decreases list.len() - k,
    {
        let ghost before = out@;
        if k > 0 {
            out.push(44u8);
        }
        let (i, j) = list[k];
        write_decimal(i, &mut out);
        write_bytes(&separator, &mut out);
        write_decimal(j, &mut out);
        proof {
            let now = list@.take(k + 1);
            assert(now.drop_last() =~= list@.take(k as int));
            assert(now.last() == list[k as int]);
            if k > 0 {
                assert(out@ =~= before + seq![44u8] + edge_text(list[k as int]));
                assert(out@ =~= graph_prefix() + edge_list_text(now));
            } else {
                assert(out@ =~= before + edge_text(list[k as int]));
                assert(edge_list_text(list@.take(0)) =~= Seq::<u8>::empty());
                assert(out@ =~= graph_prefix() + edge_list_text(now));
            }
        }
        k += 1;
    }
    proof {
        assert(list@.take(k as int) =~= list@);
    }
    let suffix = graph_suffix_bytes();
    write_bytes(&suffix, &mut out);
    out
}

/// Position `k` is the first in `vs` that holds a graph with index `j`.
pub open spec fn is_first_with_index(vs: Seq<(usize, AdjacencyMatrix)>, j: usize, k: int) -> bool {
    &&& 0 <= k < vs.len()
    &&& vs[k].0 == j
    &&& forall|t: int| 0 <= t < k ==> (#[trigger] vs[t]).0 != j
}

/// Some graph in `vs` has the index `j`.
pub open spec fn has_index(vs: Seq<(usize, AdjacencyMatrix)>, j: usize) -> bool {
    exists|k: int| 0 <= k < vs.len() && (#[trigger] vs[k]).0 == j
}

/// The first position in `vs` that holds a graph with index `j`, if there is
/// one.
pub fn find_index(vs: &Vec<(usize, AdjacencyMatrix)>, j: usize) -> (out: Option<usize>)
    ensures
        out is Some <==> has_index(vs@, j),
        out matches Some(k) ==> is_first_with_index(vs@, j, k as int),
{
    let mut k: usize = 0;
    while k < vs.len()
        invariant
            k <= vs.len(),
            forall|t: int| 0 <= t < k ==> (#[trigger] vs[t]).0 != j,
        decreases vs.len() - k,
    {
        if vs[k].0 == j {
            return Some(k);
        }
        k += 1;
    }
    None
}

/// The descriptions of the graphs that the groups name, group by group.
///
/// `vs` holds graphs on `n` vertices, each with its index; the groups in `v`
/// name graphs by index, and where several graphs in `vs` have one index the
/// first of them is meant. The result is `None` where a group names an index
/// that no graph in `vs` has.
pub fn mathematicas(n: usize, vs: &Vec<(usize, AdjacencyMatrix)>, v: &Vec<Vec<usize>>) -> (out:
    Option<Vec<Vec<Vec<u8>>>>)
    requires
        forall|i: int| 0 <= i < vs.len() ==> (#[trigger] vs[i]).1.wf() && vs[i].1@.len() == n,
    ensures
        out is Some <==> forall|g: int, k: int|
            0 <= g < v.len() && 0 <= k < v[g].len() ==> has_index(vs@, #[trigger] v[g][k]),
        out matches Some(texts) ==> {
            &&& texts.len() == v.len()
            &&& forall|g: int| 0 <= g < v.len() ==> (#[trigger] texts[g]).len() == v[g].len()
            &&& forall|g: int, k: int, p: int|
                0 <= g < v.len() && 0 <= k < v[g].len() && is_first_with_index(vs@, v[g][k], p)
                    ==> (#[trigger] texts[g][k])@ == graph_text(
                    edges_of((#[trigger] vs[p]).1@, n as nat),
                )
        },
{
    let mut out: Vec<Vec<Vec<u8>>> = Vec::new();
    let mut g: usize = 0;
    while g < v.len()
        invariant
            g <= v.len(),
            out.len() == g,
            forall|i: int| 0 <= i < vs.len() ==> (#[trigger] vs[i]).1.wf() && vs[i].1@.len() == n,
            forall|h: int, k: int|
                0 <= h < g && 0 <= k < v[h].len() ==> has_index(vs@, #[trigger] v[h][k]),
            forall|h: int| 0 <= h < g ==> (#[trigger] out[h]).len() == v[h].len(),
            forall|h: int, k: int, p: int|
                0 <= h < g && 0 <= k < v[h].len() && is_first_with_index(vs@, v[h][k], p) ==> (
                #[trigger] out[h][k])@ == graph_text(edges_of((#[trigger] vs[p]).1@, n as nat)),
        decreases v.len() - g,
    {
        let mut texts: Vec<Vec<u8>> = Vec::new();
        let mut k: usize = 0;
        while k < v[g].len()
            invariant
                g < v.len(),
                k <= v[g as int].len(),
                texts.len() == k,
                forall|i: int|
                    0 <= i < vs.len() ==> (#[trigger] vs[i]).1.wf() && vs[i].1@.len() == n,
                forall|c: int| 0 <= c < k ==> has_index(vs@, #[trigger] v[g as int][c]),
                forall|c: int, p: int|
                    0 <= c < k && is_first_with_index(vs@, v[g as int][c], p) ==> (
                    #[trigger] texts[c])@ == graph_text(edges_of((#[trigger] vs[p]).1@, n as nat)),
            decreases v[g as int].len() - k,
        {
            let j = v[g][k];
            let found = match find_index(vs, j) {
                Some(p) => p,
                None => {
                    return None;
                },
            };
            let text = mathematica(n, &vs[found].1);
            let ghost before = texts@;
            texts.push(text);
            proof {
                assert forall|c: int, p: int|
                    0 <= c < k + 1 && is_first_with_index(vs@, v[g as int][c], p) implies (
                #[trigger] texts[c])@ == graph_text(edges_of((#[trigger] vs[p]).1@, n as nat)) by {
                    if c < k {
                        assert(texts[c] == before[c]);
                    } else {
                        assert(vs[found as int].0 == j);
                        assert(vs[p].0 == j);
                        assert(p == found);
                    }
                }
            }
            k += 1;
        }
        let ghost done = out@;
        out.push(texts);
        proof {
            assert forall|h: int, k: int, p: int|
                0 <= h < g + 1 && 0 <= k < v[h].len() && is_first_with_index(vs@, v[h][k], p) implies (
            #[trigger] out[h][k])@ == graph_text(edges_of((#[trigger] vs[p]).1@, n as nat)) by {
                if h < g {
                    assert(out[h] == done[h]);
                }
            }
            assert forall|h: int| 0 <= h < g + 1 implies (#[trigger] out[h]).len() == v[h].len() by {
                if h < g {
                    assert(out[h] == done[h]);
                }
            }
        }
        g += 1;
    }
    Some(out)
}

} // verus!
