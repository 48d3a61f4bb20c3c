use graph_invariants::adjacency::AdjacencyMatrix;
use graph_invariants::mathematica::{edges, find_index, mathematica, mathematicas};
use graph_invariants::text::{write_bytes, write_decimal};

fn graph(n: usize, edge_list: &[(usize, usize)]) -> AdjacencyMatrix {
    let mut a = AdjacencyMatrix::zeros(n);
    for &(u, v) in edge_list {
        a.add_edge(u, v);
    }
    a
}

fn text(bytes: Vec<u8>) -> String {
    String::from_utf8(bytes).unwrap()
}

#[test]
fn edges_are_listed_once_in_lexicographic_order() {
    let a = graph(4, &[(2, 3), (3, 0), (1, 0), (2, 1)]);
    assert_eq!(edges(4, &a), vec![(0, 1), (0, 3), (1, 2), (2, 3)]);
    assert_eq!(edges(3, &AdjacencyMatrix::zeros(3)), Vec::new());
    assert_eq!(edges(0, &AdjacencyMatrix::zeros(0)), Vec::new());
}

#[test]
fn edges_read_the_upper_triangle_and_entries_equal_to_one() {
    let mut a = AdjacencyMatrix::zeros(3);
    a.set(0, 1, 1);
    a.set(2, 0, 1);
    a.set(1, 2, 2);
    a.set(1, 1, 1);
    assert_eq!(edges(3, &a), vec![(0, 1)]);
}

#[test]
fn triangle_in_mathematica_notation() {
    let a = graph(3, &[(0, 1), (1, 2), (0, 2)]);
    assert_eq!(
        text(mathematica(3, &a)),
        "Graph[{ 0\\[UndirectedEdge]1,0\\[UndirectedEdge]2,1\\[UndirectedEdge]2 }, VertexLabels -> \"Name\"]"
    );
}

#[test]
fn single_edge_has_no_comma() {
    let a = graph(2, &[(0, 1)]);
    assert_eq!(
        text(mathematica(2, &a)),
        "Graph[{ 0\\[UndirectedEdge]1 }, VertexLabels -> \"Name\"]"
    );
}

#[test]
fn graph_without_edges_has_an_empty_list() {
    assert_eq!(
        text(mathematica(3, &AdjacencyMatrix::zeros(3))),
        "Graph[{  }, VertexLabels -> \"Name\"]"
    );
}

#[test]
fn vertices_are_written_in_decimal() {
    let a = graph(12, &[(9, 10), (10, 11), (0, 11)]);
    assert_eq!(
        text(mathematica(12, &a)),
        "Graph[{ 0\\[UndirectedEdge]11,9\\[UndirectedEdge]10,10\\[UndirectedEdge]11 }, VertexLabels -> \"Name\"]"
    );
}

#[test]
fn write_decimal_writes_digits() {
    for x in [0usize, 7, 10, 99, 100, 12345, usize::MAX] {
        let mut out = vec![b'#'];
        write_decimal(x, &mut out);
        assert_eq!(String::from_utf8(out).unwrap(), format!("#{}", x));
    }
}

#[test]
fn write_bytes_appends() {
    let mut out = vec![1u8, 2];
    write_bytes(&vec![3, 4, 5], &mut out);
    write_bytes(&Vec::new(), &mut out);
    assert_eq!(out, vec![1, 2, 3, 4, 5]);
}

#[test]
fn find_index_finds_the_first_graph_with_the_index() {
    let vs = vec![
        (4, graph(2, &[])),
        (9, graph(2, &[(0, 1)])),
        (4, graph(2, &[(0, 1)])),
    ];
    assert_eq!(find_index(&vs, 4), Some(0));
    assert_eq!(find_index(&vs, 9), Some(1));
    assert_eq!(find_index(&vs, 5), None);
    assert_eq!(find_index(&Vec::new(), 0), None);
}

#[test]
fn mathematicas_describes_the_graphs_of_each_group() {
    let vs = vec![
        (1, graph(3, &[(0, 1)])),
        (4, graph(3, &[(1, 2)])),
        (6, graph(3, &[])),
    ];
    let groups = vec![vec![4, 1], vec![6, 4]];
    let texts = mathematicas(3, &vs, &groups).unwrap();
    let one = "Graph[{ 0\\[UndirectedEdge]1 }, VertexLabels -> \"Name\"]";
    let four = "Graph[{ 1\\[UndirectedEdge]2 }, VertexLabels -> \"Name\"]";
    let six = "Graph[{  }, VertexLabels -> \"Name\"]";
    let texts: Vec<Vec<String>> = texts
        .into_iter()
        .map(|g| g.into_iter().map(text).collect())
        .collect();
    assert_eq!(
        texts,
        vec![
            vec![four.to_string(), one.to_string()],
            vec![six.to_string(), four.to_string()]
        ]
    );
}

#[test]
fn mathematicas_fails_where_a_graph_is_missing() {
    let vs = vec![(1, graph(3, &[(0, 1)]))];
    assert!(mathematicas(3, &vs, &vec![vec![1, 2]]).is_none());
    assert!(mathematicas(3, &Vec::new(), &vec![vec![0]]).is_none());
    assert_eq!(
        mathematicas(3, &Vec::new(), &Vec::new()),
        Some(Vec::new())
    );
    assert_eq!(
        mathematicas(3, &vs, &vec![vec![]]),
        Some(vec![Vec::new()])
    );
}
