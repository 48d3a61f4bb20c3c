use graph_invariants::adjacency::AdjacencyMatrix;
use graph_invariants::id_gnn_fast::{
    embed, embed_large, hash, hash_large, try_embed, try_embed_large, MAX_VERTICES,
    MAX_VERTICES_LARGE,
};

fn blake3_of(bytes: &[u8]) -> [u8; 32] {
    blake3::hash(bytes).into()
}

fn graph(n: usize, edges: &[(usize, usize)]) -> AdjacencyMatrix {
    let mut a = AdjacencyMatrix::zeros(n);
    for &(u, v) in edges {
        a.add_edge(u, v);
    }
    a
}

fn complete(n: usize) -> AdjacencyMatrix {
    let mut a = AdjacencyMatrix::zeros(n);
    for u in 0..n {
        for v in (u + 1)..n {
            a.add_edge(u, v);
        }
    }
    a
}

fn words32(values: &[u32]) -> Vec<u8> {
    values.iter().flat_map(|x| x.to_le_bytes()).collect()
}

fn words64(values: &[u64]) -> Vec<u8> {
    values.iter().flat_map(|x| x.to_le_bytes()).collect()
}

#[test]
fn single_vertex_has_one_profile_of_one_zero() {
    let a = AdjacencyMatrix::zeros(1);
    assert_eq!(embed(1, &a), blake3_of(&words32(&[0])));
    assert_eq!(embed_large(1, &a), blake3_of(&words64(&[0])));
}

#[test]
fn graph_without_vertices_hashes_to_the_hash_of_no_input() {
    let a = AdjacencyMatrix::zeros(0);
    assert_eq!(embed(0, &a), blake3_of(b""));
    assert_eq!(embed_large(0, &a), blake3_of(b""));
}

#[test]
fn two_vertices_record_walks_of_length_two_only() {
    let a = graph(2, &[(0, 1)]);
    assert_eq!(embed(2, &a), blake3_of(&words32(&[1, 1])));
    let b = AdjacencyMatrix::zeros(2);
    assert_eq!(embed(2, &b), blake3_of(&words32(&[0, 0])));
}

#[test]
fn path_on_three_vertices_has_profiles_by_degree() {
    // Closed walks of length 2 are the degrees 1, 2, 1; there are none of
    // length 3. Sorted profiles: (1, 0), (1, 0), (2, 0).
    let a = graph(3, &[(0, 1), (1, 2)]);
    let expected = blake3_of(&words32(&[1, 0, 1, 0, 2, 0]));
    assert_eq!(embed(3, &a), expected);
    let expected_large = blake3_of(&words64(&[1, 0, 1, 0, 2, 0]));
    assert_eq!(embed_large(3, &a), expected_large);
}

#[test]
fn triangle_has_two_closed_walks_of_each_length() {
    let a = complete(3);
    assert_eq!(embed(3, &a), blake3_of(&words32(&[2, 2, 2, 2, 2, 2])));
}

#[test]
fn complete_graph_on_four_vertices_counts_walks_up_to_length_four() {
    let a = complete(4);
    let profile = [3u32, 6, 21];
    let mut all = Vec::new();
    for _ in 0..4 {
        all.extend_from_slice(&profile);
    }
    assert_eq!(embed(4, &a), blake3_of(&words32(&all)));
}

#[test]
fn complete_graph_on_ten_vertices_fits_the_standard_width() {
    // Closed walks of length t through a vertex of the complete graph on
    // ten vertices: (9^t + 9 (-1)^t) / 10.
    let a = complete(10);
    let mut profile = Vec::new();
    for t in 2u32..=10 {
        let sign: i64 = if t % 2 == 0 { 9 } else { -9 };
        profile.push(((9i64.pow(t) + sign) / 10) as u32);
    }
    assert_eq!(profile[8], 348678441);
    let mut all = Vec::new();
    for _ in 0..10 {
        all.extend_from_slice(&profile);
    }
    let expected = blake3_of(&words32(&all));
    assert_eq!(embed(10, &a), expected);
    assert_eq!(try_embed(10, &a), Some(expected));
}

#[test]
fn complete_graph_on_sixteen_vertices_fits_the_extended_width() {
    let a = complete(16);
    let mut profile = Vec::new();
    for t in 2u32..=16 {
        let sign: i128 = if t % 2 == 0 { 15 } else { -15 };
        profile.push(((15i128.pow(t) + sign) / 16) as u64);
    }
    assert!(profile[14] > u32::MAX as u64);
    let mut all = Vec::new();
    for _ in 0..16 {
        all.extend_from_slice(&profile);
    }
    let expected = blake3_of(&words64(&all));
    assert_eq!(embed_large(16, &a), expected);
    assert_eq!(try_embed_large(16, &a), Some(expected));
}

#[test]
fn profiles_keep_the_order_of_the_walk_lengths() {
    // A triangle with a pendant vertex: the pendant vertex has one closed
    // walk of length 2, none of length 3, three of length 4.
    let a = graph(4, &[(0, 1), (0, 2), (1, 2), (2, 3)]);
    let expected = blake3_of(&words32(&[
        1, 0, 3, // vertex 3
        2, 2, 7, // vertex 0
        2, 2, 7, // vertex 1
        3, 2, 11, // vertex 2
    ]));
    assert_eq!(embed(4, &a), expected);
}

#[test]
fn hash_takes_entry_v_of_each_diagonal_for_vertex_v() {
    let diagonals = vec![vec![5u32, 1], vec![6, 2], vec![7, 3]];
    let expected = blake3_of(&words32(&[1, 2, 3, 5, 6, 7]));
    assert_eq!(hash(2, diagonals), expected);
    let diagonals = vec![vec![5u64, 1], vec![6, 2], vec![7, 3]];
    let expected = blake3_of(&words64(&[1, 2, 3, 5, 6, 7]));
    assert_eq!(hash_large(2, diagonals), expected);
}

#[test]
fn hash_without_diagonals_hashes_empty_profiles() {
    assert_eq!(hash(3, Vec::new()), blake3_of(b""));
    assert_eq!(hash(0, vec![vec![1, 2]]), blake3_of(b""));
}

#[test]
fn walk_count_embedding_is_deterministic() {
    let a = graph(5, &[(0, 1), (1, 2), (2, 3), (3, 4), (4, 0), (0, 2)]);
    assert_eq!(embed(5, &a), embed(5, &a));
    assert_eq!(embed_large(5, &a), embed_large(5, &a));
}

#[test]
fn walk_count_embedding_is_invariant_under_relabelling() {
    let a = graph(5, &[(0, 1), (1, 2), (2, 3), (0, 2)]);
    let permutations: [[usize; 5]; 4] = [
        [0, 1, 2, 3, 4],
        [4, 3, 2, 1, 0],
        [1, 0, 3, 2, 4],
        [2, 4, 0, 1, 3],
    ];
    for p in permutations {
        let b = a.relabelled(&p.to_vec()).unwrap();
        assert_eq!(embed(5, &b), embed(5, &a));
        assert_eq!(embed_large(5, &b), embed_large(5, &a));
    }
}

#[test]
fn walk_count_embedding_tells_path_from_star() {
    let path = graph(4, &[(0, 1), (1, 2), (2, 3)]);
    let star = graph(4, &[(0, 1), (0, 2), (0, 3)]);
    assert_ne!(embed(4, &path), embed(4, &star));
}

#[test]
fn the_two_widths_give_different_fingerprints() {
    let a = graph(3, &[(0, 1)]);
    assert_ne!(embed(3, &a), embed_large(3, &a));
}

#[test]
fn try_embed_refuses_what_is_not_known_to_fit() {
    assert_eq!(MAX_VERTICES, 10);
    assert_eq!(MAX_VERTICES_LARGE, 16);
    assert!(try_embed(11, &complete(11)).is_none());
    assert!(try_embed_large(11, &complete(11)).is_some());
    assert!(try_embed_large(17, &AdjacencyMatrix::zeros(17)).is_none());
    // The number of vertices must be that of the matrix.
    assert!(try_embed(3, &complete(4)).is_none());
    assert!(try_embed_large(5, &complete(4)).is_none());
    // Entries other than 0 and 1 are refused.
    let mut a = AdjacencyMatrix::zeros(2);
    a.set(0, 1, 2);
    a.set(1, 0, 2);
    assert!(try_embed(2, &a).is_none());
    assert!(try_embed_large(2, &a).is_none());
}

#[test]
fn try_embed_agrees_with_embed() {
    let a = graph(4, &[(0, 1), (2, 3)]);
    assert_eq!(try_embed(4, &a), Some(embed(4, &a)));
    assert_eq!(try_embed_large(4, &a), Some(embed_large(4, &a)));
}

#[test]
fn multigraph_entries_are_counted_with_multiplicity() {
    // A double edge between two vertices: four closed walks of length 2.
    let mut a = AdjacencyMatrix::zeros(2);
    a.set(0, 1, 2);
    a.set(1, 0, 2);
    assert_eq!(embed(2, &a), blake3_of(&words32(&[4, 4])));
}
