//! Sorting the positions of a list of records: a merge sort that returns the
//! positions in ascending order of their records, equal records by position.

use vstd::prelude::*;
use vstd::seq_lib::*;
use crate::order::{
    lemma_lex_flip, lemma_lex_same, lemma_lex_transitive, lemma_sorted_records_unique, lex_le,
    lex_order, sorted_records, Precedence,
};
use crate::permutation::lemma_map_multiset;
use crate::record::{keys_of, order_of, Record};

verus! {

/// Position `i` comes no later than position `j`: by their records, and by
/// the positions themselves where the records are equal.
pub open spec fn index_le(keys: Seq<Seq<int>>, i: usize, j: usize) -> bool {
    match lex_order(keys[i as int], keys[j as int]) {
        Precedence::Before => true,
        Precedence::Same => i <= j,
        Precedence::After => false,
    }
}

/// The positions `lo, lo + 1, .., hi - 1`.
pub open spec fn index_range(lo: usize, hi: usize) -> Seq<usize> {
    Seq::new((hi - lo) as nat, |t: int| (lo + t) as usize)
}

/// `order` is ascending by `index_le`.
pub open spec fn ascending(keys: Seq<Seq<int>>, order: Seq<usize>) -> bool {
    forall|s: int, t: int|
        0 <= s < t < order.len() ==> index_le(keys, #[trigger] order[s], #[trigger] order[t])
}

/// `order` lists every position of `keys` once, in ascending order.
pub open spec fn is_ranking(keys: Seq<Seq<int>>, order: Seq<usize>) -> bool {
    &&& order.len() == keys.len()
    &&& forall|t: int| 0 <= t < order.len() ==> #[trigger] order[t] < keys.len()
    &&& order.no_duplicates()
    &&& order.to_multiset() == index_range(0, keys.len() as usize).to_multiset()
    &&& ascending(keys, order)
}

/// The records in the order that `order` lists their positions in.
pub open spec fn arranged(keys: Seq<Seq<int>>, order: Seq<usize>) -> Seq<Seq<int>> {
    Seq::new(order.len(), |t: int| keys[order[t] as int])
}

/// `index_le` is transitive.
pub proof fn lemma_index_le_transitive(keys: Seq<Seq<int>>, i: usize, j: usize, k: usize)
    requires
        index_le(keys, i, j),
        index_le(keys, j, k),
    ensures
        index_le(keys, i, k),
{
    let (a, b, c) = (keys[i as int], keys[j as int], keys[k as int]);
    lemma_lex_transitive(a, b, c);
    lemma_lex_same(a, b);
    lemma_lex_same(b, c);
    lemma_lex_same(a, c);
}

/// Of two positions, one comes no later than the other.
pub proof fn lemma_index_le_total(keys: Seq<Seq<int>>, i: usize, j: usize)
    ensures
        index_le(keys, i, j) || index_le(keys, j, i),
{
    lemma_lex_flip(keys[i as int], keys[j as int]);
}

/// A ranking arranges the records in their sorted order.
pub proof fn lemma_ranking_sorts(keys: Seq<Seq<int>>, order: Seq<usize>)
    requires
        keys.len() <= usize::MAX,
        is_ranking(keys, order),
    ensures
        arranged(keys, order) == sorted_records(keys),
{
    let f = |i: usize| keys[i as int];
    let range = index_range(0, keys.len() as usize);
    lemma_map_multiset(order, range, f);
    assert(order.map_values(f) =~= arranged(keys, order));
    assert(range.map_values(f) =~= keys);
    let s = arranged(keys, order);
    assert forall|i: int, j: int| 0 <= i < j < s.len() implies lex_le(
        #[trigger] s[i],
        #[trigger] s[j],
    ) by {
        assert(index_le(keys, order[i], order[j]));
    }
    lemma_sorted_records_unique(keys, s);
}

/// Whether position `i` comes no later than position `j`.
fn precedes<R: Record>(records: &Vec<R>, i: usize, j: usize) -> (b: bool)
    requires
        i < records.len(),
        j < records.len(),
    ensures
        b == index_le(keys_of(records@), i, j),
{
    match order_of(&records[i], &records[j]) {
        Precedence::Before => true,
        Precedence::Same => i <= j,
        Precedence::After => false,
    }
}

/// Merges two ascending lists of positions into one.
fn merge<R: Record>(records: &Vec<R>, left: &Vec<usize>, right: &Vec<usize>) -> (out: Vec<usize>)
    requires
        forall|t: int| 0 <= t < left.len() ==> #[trigger] left[t] < records.len(),
        forall|t: int| 0 <= t < right.len() ==> #[trigger] right[t] < records.len(),
        ascending(keys_of(records@), left@),
        ascending(keys_of(records@), right@),
    ensures
        out@.to_multiset() == left@.to_multiset().add(right@.to_multiset()),
        forall|t: int| 0 <= t < out.len() ==> #[trigger] out[t] < records.len(),
        ascending(keys_of(records@), out@),
{
    let ghost keys = keys_of(records@);
    let mut out: Vec<usize> = Vec::new();
    let mut i: usize = 0;
    let mut j: usize = 0;
    proof {
        assert(out@ =~= left@.take(0) + right@.take(0));
        lemma_multiset_commutative(left@.take(0), right@.take(0));
    }
    while i < left.len() || j < right.len()
        invariant
            keys == keys_of(records@),
            i <= left.len(),
            j <= right.len(),
            forall|t: int| 0 <= t < left.len() ==> #[trigger] left[t] < records.len(),
            forall|t: int| 0 <= t < right.len() ==> #[trigger] right[t] < records.len(),
            ascending(keys, left@),
            ascending(keys, right@),
            out@.to_multiset() == left@.take(i as int).to_multiset().add(
                right@.take(j as int).to_multiset(),
            ),
            forall|t: int| 0 <= t < out.len() ==> #[trigger] out[t] < records.len(),
            ascending(keys, out@),
            forall|t: int, s: int|
                0 <= t < out.len() && i <= s < left.len() ==> index_le(
                    keys,
                    #[trigger] out[t],
                    #[trigger] left[s],
                ),
            forall|t: int, s: int|
                0 <= t < out.len() && j <= s < right.len() ==> index_le(
                    keys,
                    #[trigger] out[t],
                    #[trigger] right[s],
                ),
        decreases left.len() - i + right.len() - j,
    {
        let from_left = if i == left.len() {
            false
        } else if j == right.len() {
            true
        } else {
            precedes(records, left[i], right[j])
        };
        let ghost before = out@;
        if from_left {
            let x = left[i];
            out.push(x);
            proof {
                broadcast use group_to_multiset_ensures;

                assert(left@.take(i + 1) =~= left@.take(i as int).push(x));
                assert(out@.to_multiset() =~= left@.take(i + 1).to_multiset().add(
                    right@.take(j as int).to_multiset(),
                ));
                assert forall|s: int, t: int| 0 <= s < t < out.len() implies index_le(
                    keys,
                    #[trigger] out[s],
                    #[trigger] out[t],
                ) by {
                    if t == out.len() - 1 {
                        assert(out[s] == before[s]);
                        assert(index_le(keys, before[s], left[i as int]));
                    } else {
                        assert(out[s] == before[s] && out[t] == before[t]);
                    }
                }
                assert forall|t: int, s: int|
                    0 <= t < out.len() && i + 1 <= s < left.len() implies index_le(
                    keys,
                    #[trigger] out[t],
                    #[trigger] left[s],
                ) by {
                    if t == out.len() - 1 {
                        assert(index_le(keys, left[i as int], left[s]));
                    } else {
                        assert(out[t] == before[t]);
                    }
                }
                assert forall|t: int, s: int|
                    0 <= t < out.len() && j <= s < right.len() implies index_le(
                    keys,
                    #[trigger] out[t],
                    #[trigger] right[s],
                ) by {
                    if t == out.len() - 1 {
                        assert(index_le(keys, x, right[j as int]));
                        if s > j {
                            assert(index_le(keys, right[j as int], right[s]));
                            lemma_index_le_transitive(keys, x, right[j as int], right[s]);
                        }
                    } else {
                        assert(out[t] == before[t]);
                    }
                }
            }
            i += 1;
        } else {
            let x = right[j];
            out.push(x);
            proof {
                broadcast use group_to_multiset_ensures;

                assert(right@.take(j + 1) =~= right@.take(j as int).push(x));
                assert(out@.to_multiset() =~= left@.take(i as int).to_multiset().add(
                    right@.take(j + 1).to_multiset(),
                ));
                assert forall|s: int, t: int| 0 <= s < t < out.len() implies index_le(
                    keys,
                    #[trigger] out[s],
                    #[trigger] out[t],
                ) by {
                    if t == out.len() - 1 {
                        assert(out[s] == before[s]);
                        assert(index_le(keys, before[s], right[j as int]));
                    } else {
                        assert(out[s] == before[s] && out[t] == before[t]);
                    }
                }
                assert forall|t: int, s: int|
                    0 <= t < out.len() && j + 1 <= s < right.len() implies index_le(
                    keys,
                    #[trigger] out[t],
                    #[trigger] right[s],
                ) by {
                    if t == out.len() - 1 {
                        assert(index_le(keys, right[j as int], right[s]));
                    } else {
                        assert(out[t] == before[t]);
                    }
                }
                assert forall|t: int, s: int|
                    0 <= t < out.len() && i <= s < left.len() implies index_le(
                    keys,
                    #[trigger] out[t],
                    #[trigger] left[s],
                ) by {
                    if t == out.len() - 1 {
                        lemma_index_le_total(keys, left[i as int], x);
                        assert(index_le(keys, x, left[i as int]));
                        if s > i {
                            assert(index_le(keys, left[i as int], left[s]));
                            lemma_index_le_transitive(keys, x, left[i as int], left[s]);
                        }
                    } else {
                        assert(out[t] == before[t]);
                    }
                }
            }
            j += 1;
        }
    }
    proof {
        assert(left@.take(i as int) =~= left@);
        assert(right@.take(j as int) =~= right@);
    }
    out
}

/// Sorts the positions `lo..hi`.
fn sort_range<R: Record>(records: &Vec<R>, lo: usize, hi: usize) -> (out: Vec<usize>)
    requires
        lo <= hi <= records.len(),
    ensures
        out@.to_multiset() == index_range(lo, hi).to_multiset(),
        forall|t: int| 0 <= t < out.len() ==> #[trigger] out[t] < records.len(),
        ascending(keys_of(records@), out@),
    decreases hi - lo,
{
    if hi - lo == 0 {
        let out: Vec<usize> = Vec::new();
        proof {
            assert(out@ =~= index_range(lo, hi));
        }
        out
    } else if hi - lo == 1 {
        let mut out: Vec<usize> = Vec::new();
        out.push(lo);
        proof {
            assert(out@ =~= index_range(lo, hi));
        }
        out
    } else {
        let mid = lo + (hi - lo) / 2;
        let left = sort_range(records, lo, mid);
        let right = sort_range(records, mid, hi);
        let out = merge(records, &left, &right);
        proof {
            lemma_multiset_commutative(index_range(lo, mid), index_range(mid, hi));
            assert(index_range(lo, mid) + index_range(mid, hi) =~= index_range(lo, hi));
        }
        out
    }
}

/// The positions of `records` in ascending order of their records; positions
/// with equal records stand in ascending order.
pub fn sorted_indices<R: Record>(records: &Vec<R>) -> (order: Vec<usize>)
    ensures
        is_ranking(keys_of(records@), order@),
{
    let order = sort_range(records, 0, records.len());
    proof {
        broadcast use group_to_multiset_ensures;

        let range = index_range(0, records.len());
        assert(order@.to_multiset().len() == range.to_multiset().len());
        assert(range.no_duplicates());
        range.lemma_multiset_has_no_duplicates();
        order@.lemma_multiset_has_no_duplicates_conv();
    }
    order
}

} // verus!
