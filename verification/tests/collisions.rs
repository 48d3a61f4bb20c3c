use graph_invariants::adjacency::AdjacencyMatrix;
use graph_invariants::collisions::{_find_indistinguishable, fingerprints_equal, group};
use graph_invariants::id_gnn_fast;
use graph_invariants::overlap::overlap;
use graph_invariants::report::flatten;
use graph_invariants::wl;

fn fp(first: u8, last: u8) -> [u8; 32] {
    let mut c = [0u8; 32];
    c[0] = first;
    c[31] = last;
    c
}

fn graph(n: usize, edges: &[(usize, usize)]) -> AdjacencyMatrix {
    let mut a = AdjacencyMatrix::zeros(n);
    for &(u, v) in edges {
        a.add_edge(u, v);
    }
    a
}

/// The eleven graphs on four vertices, up to isomorphism.
fn graphs_on_four_vertices() -> Vec<AdjacencyMatrix> {
    vec![
        graph(4, &[]),
        graph(4, &[(0, 1)]),
        graph(4, &[(0, 1), (1, 2)]),
        graph(4, &[(0, 1), (2, 3)]),
        graph(4, &[(0, 1), (1, 2), (2, 0)]),
        graph(4, &[(0, 1), (0, 2), (0, 3)]),
        graph(4, &[(0, 1), (1, 2), (2, 3)]),
        graph(4, &[(0, 1), (1, 2), (2, 3), (3, 0)]),
        graph(4, &[(0, 1), (1, 2), (2, 0), (2, 3)]),
        graph(4, &[(0, 1), (1, 2), (2, 3), (3, 0), (0, 2)]),
        graph(4, &[(0, 1), (0, 2), (0, 3), (1, 2), (1, 3), (2, 3)]),
    ]
}

#[test]
fn no_fingerprints_no_groups() {
    assert_eq!(group(&Vec::new()), Vec::<Vec<usize>>::new());
}

#[test]
fn distinct_fingerprints_give_no_groups() {
    assert_eq!(
        group(&vec![fp(3, 0), fp(1, 0), fp(2, 0)]),
        Vec::<Vec<usize>>::new()
    );
    assert_eq!(group(&vec![fp(1, 1)]), Vec::<Vec<usize>>::new());
}

#[test]
fn groups_come_in_ascending_fingerprint_order_with_ascending_indices() {
    let a = fp(1, 0);
    let b = fp(2, 0);
    let c = fp(3, 0);
    assert_eq!(
        group(&vec![b, a, b, c, a, a]),
        vec![vec![1, 4, 5], vec![0, 2]]
    );
}

#[test]
fn fingerprints_are_compared_over_all_their_bytes() {
    // Equal but for the last byte.
    assert_eq!(
        group(&vec![fp(1, 7), fp(1, 8), fp(1, 7)]),
        vec![vec![0, 2]]
    );
    // The first byte that differs decides the order of the groups.
    assert_eq!(
        group(&vec![fp(2, 0), fp(1, 9), fp(2, 0), fp(1, 9)]),
        vec![vec![1, 3], vec![0, 2]]
    );
}

#[test]
fn all_equal_fingerprints_form_one_group() {
    assert_eq!(group(&vec![fp(5, 5); 4]), vec![vec![0, 1, 2, 3]]);
    assert_eq!(group(&vec![fp(5, 5); 2]), vec![vec![0, 1]]);
}

#[test]
fn indices_share_a_group_exactly_when_their_fingerprints_are_equal() {
    let fps = vec![
        fp(4, 0),
        fp(9, 1),
        fp(4, 0),
        fp(0, 0),
        fp(9, 1),
        fp(7, 7),
        fp(4, 0),
        fp(0, 1),
    ];
    let groups = group(&fps);
    for i in 0..fps.len() {
        for j in 0..fps.len() {
            if i == j {
                continue;
            }
            let together = groups.iter().any(|g| g.contains(&i) && g.contains(&j));
            assert_eq!(together, fps[i] == fps[j]);
        }
    }
    for g in &groups {
        assert!(g.len() >= 2);
    }
}

#[test]
fn fingerprints_equal_compares_bytes() {
    assert!(fingerprints_equal(&fp(1, 2), &fp(1, 2)));
    assert!(!fingerprints_equal(&fp(1, 2), &fp(1, 3)));
    assert!(!fingerprints_equal(&fp(0, 2), &fp(1, 2)));
}

#[test]
fn find_indistinguishable_groups_by_what_the_embedding_returns() {
    let graphs = vec![
        graph(2, &[]),
        graph(2, &[(0, 1)]),
        graph(2, &[]),
        graph(2, &[(0, 1)]),
        graph(2, &[(0, 1)]),
    ];
    // An embedding that only looks at one entry.
    let by_entry = |_n: usize, a: &AdjacencyMatrix| fp(a.get(0, 1) as u8, 0);
    assert_eq!(
        _find_indistinguishable(2, graphs, by_entry),
        vec![vec![0, 2], vec![1, 3, 4]]
    );
}

#[test]
fn isomorphic_graphs_collide_under_both_embeddings() {
    let graphs = || {
        vec![
            graph(4, &[(0, 1), (1, 2)]),
            graph(4, &[(0, 1), (0, 2), (0, 3)]),
            graph(4, &[(3, 2), (2, 0)]),
        ]
    };
    assert_eq!(
        _find_indistinguishable(4, graphs(), id_gnn_fast::embed),
        vec![vec![0, 2]]
    );
    assert_eq!(
        _find_indistinguishable(4, graphs(), wl::embed),
        vec![vec![0, 2]]
    );
}

#[test]
fn walk_counts_tell_all_graphs_on_four_vertices_apart() {
    let id_result = _find_indistinguishable(4, graphs_on_four_vertices(), id_gnn_fast::embed);
    assert_eq!(id_result, Vec::<Vec<usize>>::new());
    let large = _find_indistinguishable(4, graphs_on_four_vertices(), id_gnn_fast::embed_large);
    assert_eq!(large, Vec::<Vec<usize>>::new());
}

#[test]
fn colour_refinement_on_four_vertices_confuses_the_regular_graphs_only() {
    // The graphs without edges, with two disjoint edges, the cycle and the
    // complete graph are regular: their first round brings no second colour,
    // and all four keep the colours that they started with.
    let wl_result = _find_indistinguishable(4, graphs_on_four_vertices(), wl::embed);
    assert_eq!(wl_result, vec![vec![0, 3, 7, 10]]);
}

#[test]
fn no_graph_on_four_vertices_is_confused_by_both_embeddings() {
    let id_result = _find_indistinguishable(4, graphs_on_four_vertices(), id_gnn_fast::embed);
    let wl_result = _find_indistinguishable(4, graphs_on_four_vertices(), wl::embed);
    let id_flattened = flatten(&id_result);
    let wl_flattened = flatten(&wl_result);
    assert_eq!(id_flattened.len(), 0);
    assert_eq!(overlap(&id_flattened, &wl_flattened), 0);
}
