//! Rearrangements of finite sequences, and what they leave unchanged.

use vstd::prelude::*;
use vstd::seq_lib::*;

verus! {

/// `p` lists each of `0, 1, .., n - 1` exactly once.
pub open spec fn is_permutation(p: Seq<int>, n: nat) -> bool {
    &&& p.len() == n
    &&& forall|i: int| 0 <= i < n ==> 0 <= #[trigger] p[i] < n
    &&& forall|i: int, j: int| 0 <= i < j < n ==> #[trigger] p[i] != #[trigger] p[j]
}

/// The arrangement that leaves every position where it is.
pub open spec fn identity(n: nat) -> Seq<int> {
    Seq::new(n, |i: int| i)
}

/// `s` rearranged by `p`: position `i` of the result holds `s[p[i]]`.
pub open spec fn reindex<T>(s: Seq<T>, p: Seq<int>) -> Seq<T> {
    Seq::new(p.len(), |i: int| s[p[i]])
}

/// The sum of the entries of `s`.
pub open spec fn sum(s: Seq<int>) -> int
    decreases s.len(),
{
    if s.len() == 0 {
        0
    } else {
        sum(s.drop_last()) + s.last()
    }
}

/// Applying a function to every entry of two sequences with the same
/// entries, counted with multiplicity, gives sequences with the same entries.
pub proof fn lemma_map_multiset<A, B>(a: Seq<A>, b: Seq<A>, f: spec_fn(A) -> B)
    requires
        a.to_multiset() == b.to_multiset(),
    ensures
        a.map_values(f).to_multiset() == b.map_values(f).to_multiset(),
    decreases a.len(),
{
    broadcast use group_to_multiset_ensures;

    if a.len() == 0 {
        assert(a.to_multiset().len() == 0);
        assert(b.to_multiset().len() == b.len());
        assert(a.map_values(f) =~= b.map_values(f));
    } else {
        let x = a.last();
        let a1 = a.drop_last();
        assert(a =~= a1.push(x));
        assert(a.to_multiset().count(x) > 0);
        assert(b.contains(x));
        let i = choose|i: int| 0 <= i < b.len() && b[i] == x;
        let b1 = b.remove(i);
        assert(a1.to_multiset() =~= a.to_multiset().remove(x));
        assert(b1.to_multiset() == b.to_multiset().remove(x));
        lemma_map_multiset(a1, b1, f);
        assert(a.map_values(f) =~= a1.map_values(f).push(f(x)));
        assert(b.map_values(f) =~= b1.map_values(f).insert(i, f(x)));
    }
}

/// Removing one entry lowers the sum by that entry.
pub proof fn lemma_sum_remove(s: Seq<int>, i: int)
    requires
        0 <= i < s.len(),
    ensures
        sum(s) == sum(s.remove(i)) + s[i],
    decreases s.len(),
{
    if i == s.len() - 1 {
        assert(s.remove(i) =~= s.drop_last());
    } else {
        lemma_sum_remove(s.drop_last(), i);
        assert(s.remove(i).drop_last() =~= s.drop_last().remove(i));
        assert(s.remove(i).last() == s.last());
    }
}

/// The sum depends only on which entries occur, and how often.
pub proof fn lemma_sum_multiset(a: Seq<int>, b: Seq<int>)
    requires
        a.to_multiset() == b.to_multiset(),
    ensures
        sum(a) == sum(b),
    decreases a.len(),
{
    broadcast use group_to_multiset_ensures;

    if a.len() == 0 {
        assert(a.to_multiset().len() == 0);
        assert(b.to_multiset().len() == b.len());
    } else {
        let x = a.last();
        let a1 = a.drop_last();
        assert(a =~= a1.push(x));
        assert(a.to_multiset().count(x) > 0);
        assert(b.contains(x));
        let i = choose|i: int| 0 <= i < b.len() && b[i] == x;
        let b1 = b.remove(i);
        assert(a1.to_multiset() =~= a.to_multiset().remove(x));
        assert(b1.to_multiset() == b.to_multiset().remove(x));
        lemma_sum_multiset(a1, b1);
        lemma_sum_remove(b, i);
    }
}

/// How often `y` occurs among the entries of `s` that satisfy `keep`.
pub proof fn lemma_filter_count<A>(s: Seq<A>, keep: spec_fn(A) -> bool, y: A)
    ensures
        s.filter(keep).to_multiset().count(y) == if keep(y) {
            s.to_multiset().count(y)
        } else {
            0
        },
    decreases s.len(),
{
    broadcast use group_to_multiset_ensures;

    reveal(Seq::filter);
    if s.len() == 0 {
        assert(s.filter(keep) =~= Seq::<A>::empty());
        assert(s.to_multiset().len() == 0);
        assert(s.filter(keep).to_multiset().len() == 0);
    } else {
        let s1 = s.drop_last();
        assert(s =~= s1.push(s.last()));
        lemma_filter_count(s1, keep, y);
        if keep(s.last()) {
            assert(s.filter(keep) == s1.filter(keep).push(s.last()));
        } else {
            assert(s.filter(keep) == s1.filter(keep));
        }
    }
}

/// Keeping the entries that satisfy a test, in two sequences with the same
/// entries, gives sequences with the same entries.
pub proof fn lemma_filter_multiset<A>(a: Seq<A>, b: Seq<A>, keep: spec_fn(A) -> bool)
    requires
        a.to_multiset() == b.to_multiset(),
    ensures
        a.filter(keep).to_multiset() == b.filter(keep).to_multiset(),
{
    assert forall|y: A|
        a.filter(keep).to_multiset().count(y) == b.filter(keep).to_multiset().count(y) by {
        lemma_filter_count(a, keep, y);
        lemma_filter_count(b, keep, y);
    }
    assert(a.filter(keep).to_multiset() =~= b.filter(keep).to_multiset());
}

/// A permutation of `0..n` has the same entries as `0..n` itself.
pub proof fn lemma_permutation_multiset(p: Seq<int>, n: nat)
    requires
        is_permutation(p, n),
    ensures
        p.to_multiset() == identity(n).to_multiset(),
{
    broadcast use group_to_multiset_ensures;

    let id = identity(n);
    assert(p.no_duplicates());
    assert(id.no_duplicates());
    p.unique_seq_to_set();
    id.unique_seq_to_set();
    assert(p.to_set().subset_of(id.to_set())) by {
        assert forall|x: int| p.to_set().contains(x) implies id.to_set().contains(x) by {
            let i = choose|i: int| 0 <= i < p.len() && p[i] == x;
            assert(id[x] == x);
        }
    }
    vstd::set_lib::lemma_subset_equality(p.to_set(), id.to_set());
    p.lemma_multiset_has_no_duplicates();
    id.lemma_multiset_has_no_duplicates();
    assert forall|x: int| p.to_multiset().count(x) == id.to_multiset().count(x) by {
        assert(p.contains(x) <==> p.to_set().contains(x));
        assert(id.contains(x) <==> id.to_set().contains(x));
    }
    assert(p.to_multiset() =~= id.to_multiset());
}

/// Rearranging a sequence by a permutation keeps its entries.
pub proof fn lemma_reindex_multiset<T>(s: Seq<T>, p: Seq<int>)
    requires
        is_permutation(p, s.len()),
    ensures
        reindex(s, p).to_multiset() == s.to_multiset(),
{
    let f = |i: int| s[i];
    lemma_permutation_multiset(p, s.len());
    lemma_map_multiset(p, identity(s.len()), f);
    assert(reindex(s, p) =~= p.map_values(f));
    assert(s =~= identity(s.len()).map_values(f));
}

} // verus!
