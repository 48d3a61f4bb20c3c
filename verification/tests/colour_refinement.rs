use graph_invariants::adjacency::AdjacencyMatrix;
use graph_invariants::wl::{count_unique, embed, multiset_hash, refine_round, refine_until_stable};

fn blake3_of(bytes: &[u8]) -> [u8; 32] {
    blake3::hash(bytes).into()
}

fn graph(n: usize, edges: &[(usize, usize)]) -> AdjacencyMatrix {
    let mut a = AdjacencyMatrix::zeros(n);
    for &(u, v) in edges {
        a.add_edge(u, v);
    }
    a
}

/// The next colour of a vertex, from its colour and those of its neighbours.
fn next_colour(own: &[u8; 32], neighbours: &[[u8; 32]]) -> [u8; 32] {
    let mut sorted = neighbours.to_vec();
    sorted.sort();
    let mut inner = Vec::new();
    for c in &sorted {
        inner.extend_from_slice(c);
    }
    let mut bytes = own.to_vec();
    bytes.extend_from_slice(&blake3_of(&inner));
    blake3_of(&bytes)
}

fn hash_of_colours(colours: &[[u8; 32]]) -> [u8; 32] {
    let mut sorted = colours.to_vec();
    sorted.sort();
    let mut bytes = Vec::new();
    for c in &sorted {
        bytes.extend_from_slice(c);
    }
    blake3_of(&bytes)
}

const ZERO: [u8; 32] = [0u8; 32];

#[test]
fn single_vertex_keeps_its_first_colour() {
    let a = AdjacencyMatrix::zeros(1);
    let end = refine_until_stable(1, &a);
    assert_eq!(end.colours, vec![ZERO]);
    assert_eq!(end.num_colours, 1);
    assert_eq!(end.rounds, 1);
    assert_eq!(embed(1, &a), blake3_of(&ZERO));
}

#[test]
fn graph_without_vertices_stops_at_once() {
    let a = AdjacencyMatrix::zeros(0);
    let end = refine_until_stable(0, &a);
    assert!(end.colours.is_empty());
    assert_eq!(end.num_colours, 1);
    assert_eq!(end.rounds, 1);
    assert_eq!(embed(0, &a), blake3_of(b""));
}

#[test]
fn one_round_hashes_own_colour_and_hash_of_neighbour_colours() {
    let a = graph(3, &[(0, 1), (1, 2)]);
    let first = refine_round(3, &a, &vec![ZERO; 3]);
    let end_colour = next_colour(&ZERO, &[ZERO]);
    let middle_colour = next_colour(&ZERO, &[ZERO, ZERO]);
    assert_eq!(first, vec![end_colour, middle_colour, end_colour]);
    assert_ne!(end_colour, middle_colour);
    // A vertex without neighbours hashes its colour and the hash of nothing.
    let isolated = refine_round(1, &AdjacencyMatrix::zeros(1), &vec![ZERO]);
    let mut bytes = ZERO.to_vec();
    bytes.extend_from_slice(&blake3_of(b""));
    assert_eq!(isolated, vec![blake3_of(&bytes)]);
}

#[test]
fn neighbour_colours_are_taken_as_a_multiset() {
    let a = graph(3, &[(0, 1), (0, 2)]);
    let x = blake3_of(b"x");
    let y = blake3_of(b"y");
    let one = refine_round(3, &a, &vec![ZERO, x, y]);
    let other = refine_round(3, &a, &vec![ZERO, y, x]);
    assert_eq!(one[0], other[0]);
    assert_eq!(one[0], next_colour(&ZERO, &[x, y]));
    assert_eq!(one[1], next_colour(&x, &[ZERO]));
}

#[test]
fn only_entries_equal_to_one_count_as_edges() {
    let mut a = AdjacencyMatrix::zeros(2);
    a.set(0, 1, 2);
    a.set(1, 0, 1);
    let next = refine_round(2, &a, &vec![ZERO; 2]);
    assert_eq!(next[0], next_colour(&ZERO, &[]));
    assert_eq!(next[1], next_colour(&ZERO, &[ZERO]));
}

#[test]
fn path_on_three_vertices_keeps_the_colours_of_the_first_round() {
    // The first round tells the middle from the ends: two colours. The
    // second round brings no third colour, so it is dropped and the colours
    // of the first round are what is hashed.
    let a = graph(3, &[(0, 1), (1, 2)]);
    let end_colour = next_colour(&ZERO, &[ZERO]);
    let middle_colour = next_colour(&ZERO, &[ZERO, ZERO]);
    let end = refine_until_stable(3, &a);
    assert_eq!(end.colours, vec![end_colour, middle_colour, end_colour]);
    assert_eq!(end.num_colours, 2);
    assert_eq!(end.rounds, 2);
    assert_eq!(
        embed(3, &a),
        hash_of_colours(&[end_colour, middle_colour, end_colour])
    );
    // Not the colours of the second round.
    let second = refine_round(3, &a, &end.colours);
    assert_ne!(embed(3, &a), hash_of_colours(&second));
}

#[test]
fn path_on_five_vertices_needs_a_second_round() {
    let a = graph(5, &[(0, 1), (1, 2), (2, 3), (3, 4)]);
    let first = refine_round(5, &a, &vec![ZERO; 5]);
    let second = refine_round(5, &a, &first);
    let end = refine_until_stable(5, &a);
    assert_eq!(count_unique(first.clone()), 2);
    assert_eq!(count_unique(second.clone()), 3);
    assert_eq!(end.colours, second);
    assert_eq!(end.num_colours, 3);
    assert_eq!(end.rounds, 3);
    assert_eq!(embed(5, &a), hash_of_colours(&second));
}

#[test]
fn regular_graphs_never_leave_the_first_colour() {
    let cycle = graph(4, &[(0, 1), (1, 2), (2, 3), (3, 0)]);
    let end = refine_until_stable(4, &cycle);
    assert_eq!(end.colours, vec![ZERO; 4]);
    assert_eq!(end.rounds, 1);
    assert_eq!(embed(4, &cycle), hash_of_colours(&[ZERO; 4]));
}

#[test]
fn number_of_colours_grows_and_rounds_stay_within_the_number_of_vertices() {
    let graphs = vec![
        graph(1, &[]),
        graph(2, &[(0, 1)]),
        graph(4, &[(0, 1), (1, 2), (2, 3)]),
        graph(6, &[(0, 1), (1, 2), (2, 3), (3, 4), (4, 5)]),
        graph(7, &[(0, 1), (1, 2), (2, 3), (3, 4), (4, 5), (5, 6), (2, 6)]),
    ];
    for a in graphs {
        let n = a.dim();
        let end = refine_until_stable(n, &a);
        assert!(end.rounds >= 1 && end.rounds <= n);
        assert!(end.num_colours >= 1 && end.num_colours <= n);
        // Round by round, the number of colours rises until the last round.
        let mut colours = vec![ZERO; n];
        let mut num = 1;
        for round in 1..=end.rounds {
            let next = refine_round(n, &a, &colours);
            let count = count_unique(next.clone());
            if round < end.rounds {
                assert!(count > num);
                num = count;
                colours = next;
            } else {
                assert!(count <= num);
            }
        }
        assert_eq!(colours, end.colours);
        assert_eq!(num, end.num_colours);
    }
}

#[test]
fn count_unique_counts_distinct_colours() {
    let x = blake3_of(b"x");
    let y = blake3_of(b"y");
    assert_eq!(count_unique(Vec::new()), 0);
    assert_eq!(count_unique(vec![x]), 1);
    assert_eq!(count_unique(vec![x, x, x]), 1);
    assert_eq!(count_unique(vec![x, y, x, ZERO, y]), 3);
}

#[test]
fn colour_refinement_is_deterministic() {
    let a = graph(5, &[(0, 1), (1, 2), (2, 3), (0, 2)]);
    assert_eq!(embed(5, &a), embed(5, &a));
}

#[test]
fn colour_refinement_is_invariant_under_relabelling() {
    let a = graph(6, &[(0, 1), (1, 2), (2, 3), (0, 2), (4, 5)]);
    let permutations: [[usize; 6]; 4] = [
        [0, 1, 2, 3, 4, 5],
        [5, 4, 3, 2, 1, 0],
        [1, 0, 3, 2, 5, 4],
        [2, 4, 0, 5, 1, 3],
    ];
    for p in permutations {
        let b = a.relabelled(&p.to_vec()).unwrap();
        assert_eq!(embed(6, &b), embed(6, &a));
    }
}

#[test]
fn colour_refinement_tells_path_from_star() {
    let path = graph(4, &[(0, 1), (1, 2), (2, 3)]);
    let star = graph(4, &[(0, 1), (0, 2), (0, 3)]);
    assert_ne!(embed(4, &path), embed(4, &star));
}

#[test]
fn final_hash_is_the_multiset_hash_of_the_final_colours() {
    let a = graph(4, &[(0, 1), (1, 2)]);
    let end = refine_until_stable(4, &a);
    assert_eq!(embed(4, &a), multiset_hash(end.colours));
}
