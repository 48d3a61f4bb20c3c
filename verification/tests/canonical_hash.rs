use graph_invariants::canonical::canonical_hash;
use graph_invariants::id_gnn_fast;
use graph_invariants::order::Precedence;
use graph_invariants::record::{order_of, write_le, write_record};
use graph_invariants::wl;

fn blake3_of(bytes: &[u8]) -> [u8; 32] {
    blake3::hash(bytes).into()
}

fn colour(first: u8, last: u8) -> [u8; 32] {
    let mut c = [0u8; 32];
    c[0] = first;
    c[31] = last;
    c
}

#[test]
fn empty_collection_hashes_to_the_hash_of_no_input() {
    assert_eq!(id_gnn_fast::multiset_hash(Vec::new()), blake3_of(b""));
    assert_eq!(id_gnn_fast::multiset_hash_large(Vec::new()), blake3_of(b""));
    assert_eq!(wl::multiset_hash(Vec::new()), blake3_of(b""));
}

#[test]
fn records_are_fed_in_sorted_order_as_little_endian_words() {
    let expected = blake3_of(&[1, 0, 0, 0, 2, 0, 0, 0, 3, 0, 0, 0, 4, 0, 0, 0]);
    assert_eq!(
        id_gnn_fast::multiset_hash(vec![vec![3, 4], vec![1, 2]]),
        expected
    );
    assert_eq!(
        id_gnn_fast::multiset_hash(vec![vec![1, 2], vec![3, 4]]),
        expected
    );
}

#[test]
fn result_differs_from_the_hash_of_the_unsorted_input() {
    let unsorted = blake3_of(&[3, 0, 0, 0, 4, 0, 0, 0, 1, 0, 0, 0, 2, 0, 0, 0]);
    assert_ne!(
        id_gnn_fast::multiset_hash(vec![vec![3, 4], vec![1, 2]]),
        unsorted
    );
}

#[test]
fn hash_is_independent_of_input_order() {
    let a = vec![vec![5, 1, 9], vec![2, 2, 2], vec![5, 1, 8], vec![2, 2, 2]];
    let b = vec![vec![2, 2, 2], vec![5, 1, 8], vec![2, 2, 2], vec![5, 1, 9]];
    let c = vec![vec![5, 1, 8], vec![5, 1, 9], vec![2, 2, 2], vec![2, 2, 2]];
    let ha = id_gnn_fast::multiset_hash(a);
    assert_eq!(ha, id_gnn_fast::multiset_hash(b));
    assert_eq!(ha, id_gnn_fast::multiset_hash(c));
}

#[test]
fn multiplicity_matters() {
    assert_ne!(
        id_gnn_fast::multiset_hash(vec![vec![7], vec![7]]),
        id_gnn_fast::multiset_hash(vec![vec![7]])
    );
}

#[test]
fn records_are_ordered_numerically_not_by_their_bytes() {
    // 256 is 00 01 00 00 in little-endian and 1 is 01 00 00 00: by bytes 256
    // would come first, by value 1 does.
    let expected = blake3_of(&[1, 0, 0, 0, 0, 1, 0, 0]);
    assert_eq!(
        id_gnn_fast::multiset_hash(vec![vec![256], vec![1]]),
        expected
    );
}

#[test]
fn records_are_ordered_lexicographically() {
    // (1, 9) comes before (2, 0): the first component decides.
    let expected = blake3_of(&[1, 0, 0, 0, 9, 0, 0, 0, 2, 0, 0, 0, 0, 0, 0, 0]);
    assert_eq!(
        id_gnn_fast::multiset_hash(vec![vec![2, 0], vec![1, 9]]),
        expected
    );
}

#[test]
fn large_records_are_written_with_eight_bytes() {
    let expected = blake3_of(&[
        2, 0, 0, 0, 0, 0, 0, 0, 0, 0, 0, 0, 1, 0, 0, 0,
    ]);
    assert_eq!(
        id_gnn_fast::multiset_hash_large(vec![vec![1u64 << 32], vec![2]]),
        expected
    );
}

#[test]
fn colours_are_sorted_bytewise_and_fed_whole() {
    let low = colour(1, 200);
    let high = colour(2, 0);
    let mut bytes = Vec::new();
    bytes.extend_from_slice(&low);
    bytes.extend_from_slice(&low);
    bytes.extend_from_slice(&high);
    let expected = blake3_of(&bytes);
    assert_eq!(wl::multiset_hash(vec![high, low, low]), expected);
    assert_eq!(wl::multiset_hash(vec![low, high, low]), expected);
}

#[test]
fn canonical_hash_agrees_with_the_hashes_of_the_embeddings() {
    let records = vec![vec![4u32, 4], vec![0, 1]];
    assert_eq!(
        canonical_hash(&records),
        id_gnn_fast::multiset_hash(records.clone())
    );
    let indices: Vec<usize> = vec![3, 1];
    let expected = blake3_of(&[1, 0, 0, 0, 0, 0, 0, 0, 3, 0, 0, 0, 0, 0, 0, 0]);
    assert_eq!(canonical_hash(&indices), expected);
}

#[test]
fn write_le_writes_the_low_bytes_least_significant_first() {
    let mut out = vec![9u8];
    write_le(0x0102_0304, 4, &mut out);
    assert_eq!(out, vec![9, 4, 3, 2, 1]);
    let mut out = Vec::new();
    write_le(0x0102_0304_0506_0708, 8, &mut out);
    assert_eq!(out, vec![8, 7, 6, 5, 4, 3, 2, 1]);
    let mut out = Vec::new();
    write_le(0x1ff, 1, &mut out);
    assert_eq!(out, vec![0xff]);
    let mut out = vec![1u8];
    write_le(77, 0, &mut out);
    assert_eq!(out, vec![1]);
}

#[test]
fn write_record_writes_every_component() {
    let mut out = Vec::new();
    write_record(&vec![1u32, 258], &mut out);
    assert_eq!(out, vec![1, 0, 0, 0, 2, 1, 0, 0]);
    let mut out = Vec::new();
    write_record(&vec![1u64], &mut out);
    assert_eq!(out, vec![1, 0, 0, 0, 0, 0, 0, 0]);
    let mut out = Vec::new();
    write_record(&colour(5, 6), &mut out);
    assert_eq!(out, colour(5, 6).to_vec());
}

#[test]
fn order_of_compares_tuples() {
    assert_eq!(order_of(&vec![1u32, 2], &vec![1u32, 3]), Precedence::Before);
    assert_eq!(order_of(&vec![2u32, 0], &vec![1u32, 3]), Precedence::After);
    assert_eq!(order_of(&vec![1u32, 2], &vec![1u32, 2]), Precedence::Same);
    assert_eq!(order_of(&vec![1u32], &vec![1u32, 0]), Precedence::Before);
    assert_eq!(order_of(&vec![1u32, 0], &vec![1u32]), Precedence::After);
    assert_eq!(order_of(&Vec::<u32>::new(), &Vec::<u32>::new()), Precedence::Same);
    assert_eq!(order_of(&colour(0, 9), &colour(1, 0)), Precedence::Before);
    assert_eq!(order_of(&7usize, &3usize), Precedence::After);
}
