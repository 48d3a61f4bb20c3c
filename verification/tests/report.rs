use graph_invariants::overlap::overlap;
use graph_invariants::report::{flatten, size_histogram};

#[test]
fn flatten_lists_the_groups_one_after_the_other() {
    assert_eq!(flatten(&Vec::new()), Vec::<usize>::new());
    assert_eq!(
        flatten(&vec![vec![4, 7], vec![], vec![1, 2, 3]]),
        vec![4, 7, 1, 2, 3]
    );
}

#[test]
fn histogram_of_no_groups_is_empty() {
    assert_eq!(size_histogram(&Vec::new()), Vec::<(usize, usize)>::new());
}

#[test]
fn histogram_counts_the_groups_of_each_size() {
    let groups = vec![vec![0, 1], vec![2, 3, 4], vec![5, 6]];
    assert_eq!(size_histogram(&groups), vec![(2, 2), (3, 1)]);
}

#[test]
fn histogram_is_sorted_by_size() {
    let groups = vec![
        vec![0; 5],
        vec![0; 2],
        vec![0; 3],
        vec![0; 5],
        vec![0; 2],
        vec![0; 2],
        vec![0; 9],
    ];
    assert_eq!(
        size_histogram(&groups),
        vec![(2, 3), (3, 1), (5, 2), (9, 1)]
    );
}

#[test]
fn histogram_of_one_size() {
    assert_eq!(size_histogram(&vec![vec![1, 2, 3]]), vec![(3, 1)]);
    assert_eq!(size_histogram(&vec![vec![1, 2]; 4]), vec![(2, 4)]);
}

#[test]
fn overlap_counts_common_indices_once() {
    assert_eq!(overlap(&vec![], &vec![]), 0);
    assert_eq!(overlap(&vec![1, 2, 3], &vec![]), 0);
    assert_eq!(overlap(&vec![], &vec![1, 2, 3]), 0);
    assert_eq!(overlap(&vec![1, 2, 3], &vec![4, 5]), 0);
    assert_eq!(overlap(&vec![1, 2, 3], &vec![3, 1, 9]), 2);
    assert_eq!(overlap(&vec![7, 7, 7], &vec![7, 7]), 1);
    assert_eq!(overlap(&vec![5, 1, 5, 2, 1], &vec![2, 5, 5, 8]), 2);
}

#[test]
fn overlap_is_symmetric() {
    let a = vec![0, 4, 8, 15, 16, 23, 42];
    let b = vec![42, 8, 1, 2, 3, 16];
    assert_eq!(overlap(&a, &b), 3);
    assert_eq!(overlap(&b, &a), 3);
}

#[test]
fn overlap_of_flattened_groups() {
    let id_result = vec![vec![0, 5], vec![2, 3, 9]];
    let wl_result = vec![vec![3, 9], vec![5, 6]];
    assert_eq!(overlap(&flatten(&id_result), &flatten(&wl_result)), 3);
}
