//! The lexicographic order on tuples of numbers, by which records are sorted.

use vstd::prelude::*;
use vstd::relations::*;

verus! {

/// How one record stands to another in the sorted order.
#[derive(Clone, Copy, Debug, PartialEq, Eq, Structural)]
pub enum Precedence {
    Before,
    Same,
    After,
}

/// Lexicographic comparison of two tuples: the first position where they
/// differ decides, and a proper prefix comes before what extends it.
pub open spec fn lex_order(a: Seq<int>, b: Seq<int>) -> Precedence
    decreases a.len(),
{
    if a.len() == 0 {
        if b.len() == 0 {
            Precedence::Same
        } else {
            Precedence::Before
        }
    } else if b.len() == 0 {
        Precedence::After
    } else if a[0] < b[0] {
        Precedence::Before
    } else if a[0] > b[0] {
        Precedence::After
    } else {
        lex_order(a.drop_first(), b.drop_first())
    }
}

/// `a` comes no later than `b`.
pub open spec fn lex_le(a: Seq<int>, b: Seq<int>) -> bool {
    lex_order(a, b) != Precedence::After
}

/// The relation `lex_le`, as a value.
pub open spec fn lex_leq() -> spec_fn(Seq<int>, Seq<int>) -> bool {
    |a: Seq<int>, b: Seq<int>| lex_le(a, b)
}

/// Two tuples compare as the same exactly when they are equal.
pub proof fn lemma_lex_same(a: Seq<int>, b: Seq<int>)
    ensures
        lex_order(a, b) == Precedence::Same <==> a == b,
    decreases a.len(),
{
    if a.len() == 0 || b.len() == 0 {
        if a.len() == 0 && b.len() == 0 {
            assert(a =~= b);
        }
    } else if a[0] == b[0] {
        lemma_lex_same(a.drop_first(), b.drop_first());
        if a.drop_first() == b.drop_first() {
            assert(a =~= seq![a[0]] + a.drop_first());
            assert(b =~= seq![b[0]] + b.drop_first());
        }
    }
}

/// Swapping the two tuples swaps before and after.
pub proof fn lemma_lex_flip(a: Seq<int>, b: Seq<int>)
    ensures
        lex_order(a, b) == Precedence::Before <==> lex_order(b, a) == Precedence::After,
        lex_order(a, b) == Precedence::Same <==> lex_order(b, a) == Precedence::Same,
    decreases a.len(),
{
    if a.len() != 0 && b.len() != 0 && a[0] == b[0] {
        lemma_lex_flip(a.drop_first(), b.drop_first());
    }
}

/// `lex_le` is transitive.
pub proof fn lemma_lex_transitive(a: Seq<int>, b: Seq<int>, c: Seq<int>)
    requires
        lex_le(a, b),
        lex_le(b, c),
    ensures
        lex_le(a, c),
        lex_order(a, b) == Precedence::Before || lex_order(b, c) == Precedence::Before
            ==> lex_order(a, c) == Precedence::Before,
    decreases a.len(),
{
    if a.len() != 0 && b.len() != 0 && c.len() != 0 && a[0] == b[0] && b[0] == c[0] {
        lemma_lex_transitive(a.drop_first(), b.drop_first(), c.drop_first());
    }
}

/// `lex_le` orders all tuples totally.
pub proof fn lemma_lex_total()
    ensures
        total_ordering(lex_leq()),
{
    let r = lex_leq();
    assert forall|x: Seq<int>| #[trigger] r(x, x) by {
        lemma_lex_same(x, x);
    }
    assert forall|x: Seq<int>, y: Seq<int>| #[trigger] r(x, y) && #[trigger] r(y, x) implies x
        == y by {
        lemma_lex_flip(x, y);
        lemma_lex_same(x, y);
    }
    assert forall|x: Seq<int>, y: Seq<int>, z: Seq<int>| #[trigger]
        r(x, y) && #[trigger] r(y, z) implies r(x, z) by {
        lemma_lex_transitive(x, y, z);
    }
    assert forall|x: Seq<int>, y: Seq<int>| #[trigger] r(x, y) || #[trigger] r(y, x) by {
        lemma_lex_flip(x, y);
    }
}

/// The records in sorted order.
pub open spec fn sorted_records(records: Seq<Seq<int>>) -> Seq<Seq<int>> {
    records.sort_by(lex_leq())
}

/// The sorted order keeps the records and puts them in ascending order.
pub proof fn lemma_sorted_records(records: Seq<Seq<int>>)
    ensures
        sorted_records(records).to_multiset() == records.to_multiset(),
        sorted_records(records).len() == records.len(),
        sorted_by(sorted_records(records), lex_leq()),
{
    lemma_lex_total();
    records.lemma_sort_by_ensures(lex_leq());
    vstd::seq_lib::to_multiset_len(records);
    vstd::seq_lib::to_multiset_len(sorted_records(records));
}

/// The sorted order depends only on which records occur, and how often.
pub proof fn lemma_sorted_records_multiset(a: Seq<Seq<int>>, b: Seq<Seq<int>>)
    requires
        a.to_multiset() == b.to_multiset(),
    ensures
        sorted_records(a) == sorted_records(b),
{
    lemma_lex_total();
    lemma_sorted_records(a);
    lemma_sorted_records(b);
    vstd::seq_lib::lemma_sorted_unique(sorted_records(a), sorted_records(b), lex_leq());
}

/// An ascending sequence with the entries of `records` is their sorted order.
pub proof fn lemma_sorted_records_unique(records: Seq<Seq<int>>, s: Seq<Seq<int>>)
    requires
        s.to_multiset() == records.to_multiset(),
        forall|i: int, j: int| 0 <= i < j < s.len() ==> lex_le(#[trigger] s[i], #[trigger] s[j]),
    ensures
        s == sorted_records(records),
{
    lemma_lex_total();
    lemma_sorted_records(records);
    assert(sorted_by(s, lex_leq()));
    vstd::seq_lib::lemma_sorted_unique(s, sorted_records(records), lex_leq());
}

/// Two lists that list the same entries, each in strictly ascending order,
/// are equal.
pub proof fn lemma_strictly_ascending_unique<T>(x: Seq<T>, y: Seq<T>, lt: spec_fn(T, T) -> bool)
    requires
        forall|a: T, b: T| #[trigger] lt(a, b) ==> !lt(b, a),
        forall|a: T, b: T| !(#[trigger] lt(a, b)) && !lt(b, a) ==> a == b,
        forall|s: int, t: int| 0 <= s < t < x.len() ==> lt(#[trigger] x[s], #[trigger] x[t]),
        forall|s: int, t: int| 0 <= s < t < y.len() ==> lt(#[trigger] y[s], #[trigger] y[t]),
        forall|v: T| x.contains(v) <==> y.contains(v),
    ensures
        x == y,
    decreases x.len(),
{
    if x.len() == 0 {
        if y.len() > 0 {
            assert(y.contains(y[0]));
        }
        assert(x =~= y);
    } else if y.len() == 0 {
        assert(x.contains(x[0]));
    } else {
        let a = x.last();
        let b = y.last();
        assert(x.contains(a));
        assert(y.contains(b));
        let t = choose|t: int| 0 <= t < y.len() && y[t] == a;
        let s = choose|s: int| 0 <= s < x.len() && x[s] == b;
        if t < y.len() - 1 {
            assert(lt(y[t], y[y.len() - 1]));
        }
        if s < x.len() - 1 {
            assert(lt(x[s], x[x.len() - 1]));
        }
        assert(a == b);
        let x1 = x.drop_last();
        let y1 = y.drop_last();
        assert forall|v: T| x1.contains(v) <==> y1.contains(v) by {
            if x1.contains(v) {
                let i = choose|i: int| 0 <= i < x1.len() && x1[i] == v;
                assert(lt(x[i], x[x.len() - 1]));
                assert(x.contains(v));
                let j = choose|j: int| 0 <= j < y.len() && y[j] == v;
                assert(y1[j] == v);
            }
            if y1.contains(v) {
                let i = choose|i: int| 0 <= i < y1.len() && y1[i] == v;
                assert(lt(y[i], y[y.len() - 1]));
                assert(y.contains(v));
                let j = choose|j: int| 0 <= j < x.len() && x[j] == v;
                assert(x1[j] == v);
            }
        }
        assert forall|s: int, t: int| 0 <= s < t < x1.len() implies lt(
            #[trigger] x1[s],
            #[trigger] x1[t],
        ) by {
            assert(lt(x[s], x[t]));
        }
        assert forall|s: int, t: int| 0 <= s < t < y1.len() implies lt(
            #[trigger] y1[s],
            #[trigger] y1[t],
        ) by {
            assert(lt(y[s], y[t]));
        }
        lemma_strictly_ascending_unique(x1, y1, lt);
        assert(x =~= x1.push(a));
        assert(y =~= y1.push(b));
    }
}

} // verus!
