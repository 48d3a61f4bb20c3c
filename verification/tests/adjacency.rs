use graph_invariants::adjacency::{copy_rows, widen_rows, AdjacencyMatrix};

#[test]
fn zeros_is_an_empty_graph() {
    let a = AdjacencyMatrix::zeros(3);
    assert_eq!(a.dim(), 3);
    assert_eq!(a.rows(), &vec![vec![0u32; 3]; 3]);
    assert_eq!(AdjacencyMatrix::zeros(0).dim(), 0);
}

#[test]
fn from_rows_takes_squares_only() {
    let a = AdjacencyMatrix::from_rows(vec![vec![0, 1], vec![1, 0]]).unwrap();
    assert_eq!(a.dim(), 2);
    assert_eq!(a.get(0, 1), 1);
    assert_eq!(a.get(1, 1), 0);
    assert!(AdjacencyMatrix::from_rows(Vec::new()).is_some());
    assert!(AdjacencyMatrix::from_rows(vec![vec![0, 1]]).is_none());
    assert!(AdjacencyMatrix::from_rows(vec![vec![0, 1], vec![1]]).is_none());
    assert!(AdjacencyMatrix::from_rows(vec![vec![], vec![]]).is_none());
    assert!(AdjacencyMatrix::from_rows(vec![vec![0, 1, 0], vec![1, 0, 0]]).is_none());
}

#[test]
fn set_changes_one_entry() {
    let mut a = AdjacencyMatrix::zeros(3);
    a.set(1, 2, 7);
    assert_eq!(
        a.rows(),
        &vec![vec![0, 0, 0], vec![0, 0, 7], vec![0, 0, 0]]
    );
    a.set(1, 2, 0);
    assert_eq!(a.rows(), &vec![vec![0u32; 3]; 3]);
}

#[test]
fn add_edge_sets_both_entries() {
    let mut a = AdjacencyMatrix::zeros(3);
    a.add_edge(2, 0);
    assert_eq!(
        a.rows(),
        &vec![vec![0, 0, 1], vec![0, 0, 0], vec![1, 0, 0]]
    );
    a.add_edge(1, 1);
    assert_eq!(a.get(1, 1), 1);
}

#[test]
fn is_binary_looks_at_every_entry() {
    let mut a = AdjacencyMatrix::zeros(3);
    assert!(a.is_binary());
    a.add_edge(0, 2);
    assert!(a.is_binary());
    a.set(2, 2, 2);
    assert!(!a.is_binary());
    assert!(AdjacencyMatrix::zeros(0).is_binary());
}

#[test]
fn relabelled_moves_rows_and_columns_together() {
    let a = AdjacencyMatrix::from_rows(vec![vec![0, 1, 2], vec![3, 4, 5], vec![6, 7, 8]]).unwrap();
    let b = a.relabelled(&vec![2, 0, 1]).unwrap();
    assert_eq!(
        b.rows(),
        &vec![vec![8, 6, 7], vec![2, 0, 1], vec![5, 3, 4]]
    );
    let same = a.relabelled(&vec![0, 1, 2]).unwrap();
    assert_eq!(same.rows(), a.rows());
}

#[test]
fn relabelled_takes_permutations_only() {
    let a = AdjacencyMatrix::zeros(3);
    assert!(a.relabelled(&vec![0, 1]).is_none());
    assert!(a.relabelled(&vec![0, 1, 2, 3]).is_none());
    assert!(a.relabelled(&vec![0, 1, 3]).is_none());
    assert!(a.relabelled(&vec![0, 1, 1]).is_none());
    assert!(a.relabelled(&vec![2, 1, 0]).is_some());
    assert!(AdjacencyMatrix::zeros(0).relabelled(&Vec::new()).is_some());
}

#[test]
fn rows_can_be_copied_and_widened() {
    let rows = vec![vec![1u32, 2], vec![u32::MAX, 0]];
    assert_eq!(copy_rows(&rows), rows);
    assert_eq!(
        widen_rows(&rows),
        vec![vec![1u64, 2], vec![u32::MAX as u64, 0]]
    );
}
