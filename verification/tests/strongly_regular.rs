use graph_invariants::adjacency::AdjacencyMatrix;
use graph_invariants::collisions::_find_indistinguishable;
use graph_invariants::id_gnn_fast;
use graph_invariants::wl;

fn graphs() -> Vec<AdjacencyMatrix> {
    const STRING: [&str; 2] = [
        "0111111000000000
1011000111000000
1101000000111000
1110000000000111
1000011100100100
1000101010010010
1000110001001001
0100100011100100
0100010101010010
0100001110001001
0010100100011100
0010010010101010
0010001001110001
0001100100100011
0001010010010101
0001001001001110
",
        "0111111000000000
1011000111000000
1100100100110000
1100010010001100
1010001000101010
1001001000010101
1000110001000011
0110000001010110
0101000001101001
0100001110000011
0010100010011001
0010010100100101
0001100010100110
0001010100011010
0000101101001100
0000011011110000
",
    ];

    let mut result = Vec::new();

    for s in STRING {
        let mut temp = AdjacencyMatrix::zeros(16);

        for (i, line) in s.lines().enumerate() {
            for (j, c) in line.chars().enumerate() {
                match c {
                    '0' => {}
                    '1' => temp.set(i, j, 1),
                    _ => panic!(),
                }
            }
        }
        result.push(temp);
    }

    result
}

#[test]
fn test_strongly_regular() {
    // ID-GNN-Fast cannot distinguish regular graphs.
    assert_eq!(
        _find_indistinguishable(16, graphs(), id_gnn_fast::embed_large),
        vec![vec![0, 1]]
    );
}

#[test]
fn strongly_regular_graphs_collide_under_colour_refinement_too() {
    // Both graphs are regular of degree 6, so refinement never splits the
    // single colour class.
    assert_eq!(
        _find_indistinguishable(16, graphs(), wl::embed),
        vec![vec![0, 1]]
    );
}
