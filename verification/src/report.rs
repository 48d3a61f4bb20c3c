//! What is reported of a list of collision groups: the graphs in them, and
//! how many groups there are of each size.

use vstd::prelude::*;
use vstd::seq_lib::*;
use crate::collisions::group_views;
use crate::order::{lemma_strictly_ascending_unique, lex_order, Precedence};
use crate::permutation::lemma_map_multiset;
use crate::ranking::{index_le, index_range, sorted_indices};
use crate::record::{keys_of, Record};

verus! {

/// The sizes of the groups, by group.
pub open spec fn sizes_of(groups: Seq<Seq<usize>>) -> Seq<usize> {
    groups.map_values(|g: Seq<usize>| g.len() as usize)
}

/// `hist` has an entry for `size`.
pub open spec fn has_entry(hist: Seq<(usize, usize)>, size: usize) -> bool {
    exists|h: int| 0 <= h < hist.len() && (#[trigger] hist[h]).0 == size
}

/// `hist` is the histogram of `sizes`: its entries are pairs of a size and
/// the number of times that this size occurs, which is at least one; they
/// stand in ascending order of the sizes; and every size that occurs has its
/// entry.
pub open spec fn is_histogram(sizes: Seq<usize>, hist: Seq<(usize, usize)>) -> bool {
    &&& forall|h: int, k: int|
        #![trigger hist[h], hist[k]]
        0 <= h < k < hist.len() ==> hist[h].0 < hist[k].0
    &&& forall|h: int|
        0 <= h < hist.len() ==> (#[trigger] hist[h]).1 >= 1 && hist[h].1
            == sizes.to_multiset().count(hist[h].0)
    &&& forall|i: int| 0 <= i < sizes.len() ==> has_entry(hist, #[trigger] sizes[i])
}

/// A list of sizes has one histogram only.
pub proof fn lemma_histogram_unique(
    sizes: Seq<usize>,
    a: Seq<(usize, usize)>,
    b: Seq<(usize, usize)>,
)
    requires
        is_histogram(sizes, a),
        is_histogram(sizes, b),
    ensures
        a == b,
{
    broadcast use group_to_multiset_ensures;

    let first = |e: (usize, usize)| e.0;
    let xa = a.map_values(first);
    let xb = b.map_values(first);
    let below = |x: usize, y: usize| x < y;
    assert forall|s: int, t: int| 0 <= s < t < xa.len() implies below(
        #[trigger] xa[s],
        #[trigger] xa[t],
    ) by {
        assert(a[s].0 < a[t].0);
    }
    assert forall|s: int, t: int| 0 <= s < t < xb.len() implies below(
        #[trigger] xb[s],
        #[trigger] xb[t],
    ) by {
        assert(b[s].0 < b[t].0);
    }
    assert forall|v: usize| xa.contains(v) <==> xb.contains(v) by {
        lemma_histogram_sizes(sizes, a, v);
        lemma_histogram_sizes(sizes, b, v);
    }
    lemma_strictly_ascending_unique(xa, xb, below);
    assert forall|h: int| 0 <= h < a.len() implies #[trigger] a[h] == b[h] by {
        assert(xa[h] == xb[h]);
        assert(a[h].1 == sizes.to_multiset().count(a[h].0));
        assert(b[h].1 == sizes.to_multiset().count(b[h].0));
    }
    assert(a =~= b);
}

/// The sizes that a histogram lists are the sizes that occur.
proof fn lemma_histogram_sizes(sizes: Seq<usize>, hist: Seq<(usize, usize)>, v: usize)
    requires
        is_histogram(sizes, hist),
    ensures
        hist.map_values(|e: (usize, usize)| e.0).contains(v) <==> sizes.contains(v),
{
    broadcast use group_to_multiset_ensures;

    let firsts = hist.map_values(|e: (usize, usize)| e.0);
    if firsts.contains(v) {
        let h = choose|h: int| 0 <= h < firsts.len() && firsts[h] == v;
        assert(hist[h].1 >= 1);
        assert(sizes.to_multiset().count(v) > 0);
    }
    if sizes.contains(v) {
        let i = choose|i: int| 0 <= i < sizes.len() && sizes[i] == v;
        assert(has_entry(hist, sizes[i]));
        let h = choose|h: int| 0 <= h < hist.len() && (#[trigger] hist[h]).0 == v;
        assert(firsts[h] == v);
    }
}

/// All indices of all groups in one list, group after group.
pub fn flatten(groups: &Vec<Vec<usize>>) -> (out: Vec<usize>)
    ensures
        out@ == group_views(groups@).flatten(),
{
    let ghost gv = group_views(groups@);
    let mut out: Vec<usize> = Vec::new();
    let mut g: usize = 0;
    proof {
        assert(gv.take(0) =~= Seq::<Seq<usize>>::empty());
        assert(out@ =~= gv.take(0).flatten());
    }
    while g < groups.len()
        invariant
            gv == group_views(groups@),
            g <= groups.len(),
            out@ == gv.take(g as int).flatten(),
        decreases groups.len() - g,
    {
        let ghost before = out@;
        let mut s: usize = 0;
        while s < groups[g].len()
            invariant
                g < groups.len(),
                s <= groups[g as int].len(),
                out@ == before + groups[g as int]@.take(s as int),
            decreases groups[g as int].len() - s,
        {
            out.push(groups[g][s]);
            proof {
                assert(groups[g as int]@.take(s + 1) =~= groups[g as int]@.take(s as int).push(
                    groups[g as int][s as int],
                ));
            }
            s += 1;
        }
        proof {
            assert(groups[g as int]@.take(s as int) =~= groups[g as int]@);
            assert(gv.take(g + 1) =~= gv.take(g as int).push(gv[g as int]));
            gv.take(g as int).lemma_flatten_push(gv[g as int]);
        }
        g += 1;
    }
    proof {
        assert(gv.take(g as int) =~= gv);
    }
    out
}

/// A size compared with another, as records are compared.
proof fn lemma_size_order(a: usize, b: usize)
    ensures
        lex_order(a.key(), b.key()) == if a < b {
            Precedence::Before
        } else if a > b {
            Precedence::After
        } else {
            Precedence::Same
        },
{
    reveal_with_fuel(lex_order, 2);
    assert(a.key().drop_first().len() == 0);
    assert(b.key().drop_first().len() == 0);
}

/// In a list whose entries all equal `v`, `v` occurs as often as the list is
/// long.
proof fn lemma_count_constant(s: Seq<usize>, v: usize)
    requires
        forall|i: int| 0 <= i < s.len() ==> s[i] == v,
    ensures
        s.to_multiset().count(v) == s.len(),
    decreases s.len(),
{
    broadcast use group_to_multiset_ensures;

    if s.len() == 0 {
        assert(!s.contains(v));
    } else {
        lemma_count_constant(s.drop_last(), v);
        assert(s =~= s.drop_last().push(v));
    }
}

/// The number of groups of each size, in ascending order of the sizes.
pub fn size_histogram(groups: &Vec<Vec<usize>>) -> (hist: Vec<(usize, usize)>)
    ensures
        is_histogram(sizes_of(group_views(groups@)), hist@),
{
    let ghost sizes = sizes_of(group_views(groups@));
    let mut result: Vec<usize> = Vec::new();
    let mut g: usize = 0;
    while g < groups.len()
        invariant
            g <= groups.len(),
            sizes == sizes_of(group_views(groups@)),
            result@ == sizes.take(g as int),
        decreases groups.len() - g,
    {
        result.push(groups[g].len());
        proof {
            assert(sizes.take(g + 1) =~= sizes.take(g as int).push(sizes[g as int]));
        }
        g += 1;
    }
    proof {
        assert(sizes.take(g as int) =~= sizes);
    }
    let order = sorted_indices(&result);
    let n = order.len();
    let ghost keys = keys_of(result@);
    let ghost sorted = Seq::new(n as nat, |t: int| sizes[order[t] as int]);
    proof {
        let f = |x: usize| sizes[x as int];
        lemma_map_multiset(order@, index_range(0, n), f);
        assert(order@.map_values(f) =~= sorted);
        assert(index_range(0, n).map_values(f) =~= sizes);
        assert forall|s: int, t: int| 0 <= s <= t < n implies sorted[s] <= sorted[t] by {
            if s < t {
                assert(index_le(keys, order[s], order[t]));
                lemma_size_order(result[order[s] as int], result[order[t] as int]);
            }
        }
    }
    let mut hist: Vec<(usize, usize)> = Vec::new();
    let mut i: usize = 0;
    while i < n
        invariant
            sizes == result@,
            n == order.len(),
            n == result.len(),
            forall|t: int| 0 <= t < n ==> (#[trigger] order[t]) < n,
            sorted == Seq::new(n as nat, |t: int| sizes[order[t] as int]),
            sorted.to_multiset() == sizes.to_multiset(),
            forall|s: int, t: int| 0 <= s <= t < n ==> sorted[s] <= sorted[t],
            i <= n,
            forall|h: int, k: int|
                #![trigger hist[h], hist[k]]
                0 <= h < k < hist.len() ==> hist[h].0 < hist[k].0,
            forall|h: int, u: int|
                #![trigger hist[h], sorted[u]]
                0 <= h < hist.len() && i <= u < n ==> hist[h].0 < sorted[u],
            forall|t: int, u: int| 0 <= t < i && i <= u < n ==> sorted[t] < sorted[u],
            forall|h: int|
                0 <= h < hist.len() ==> (#[trigger] hist[h]).1 >= 1 && hist[h].1
                    == sizes.to_multiset().count(hist[h].0),
            forall|t: int| 0 <= t < i ==> has_entry(hist@, #[trigger] sorted[t]),
        decreases n - i,
    {
        let previous = result[order[i]];
        let mut count: usize = 1;
        while i + count < n && result[order[i + count]] == previous
            invariant
                sizes == result@,
                n == order.len(),
                n == result.len(),
                forall|t: int| 0 <= t < n ==> (#[trigger] order[t]) < n,
                sorted == Seq::new(n as nat, |t: int| sizes[order[t] as int]),
                i < n,
                1 <= count,
                i + count <= n,
                previous == sorted[i as int],
                forall|t: int| i <= t < i + count ==> sorted[t] == previous,
            decreases n - i - count,
        {
            count += 1;
        }
        let ghost e: int = i + count;
        let ghost old_hist = hist@;
        hist.push((previous, count));
        proof {
            broadcast use group_to_multiset_ensures;

            assert forall|t: int, u: int| 0 <= t < e && e <= u < n implies sorted[t] < sorted[u] by {
                if t >= i {
                    assert(sorted[t] == previous);
                    assert(sorted[e] != previous);
                    assert(sorted[i as int] <= sorted[e]);
                    assert(sorted[e] <= sorted[u]);
                }
            }
            let low = sorted.subrange(0, i as int);
            let run = sorted.subrange(i as int, e);
            let high = sorted.subrange(e, n as int);
            assert(sorted =~= low + run + high);
            lemma_multiset_commutative(low + run, high);
            lemma_multiset_commutative(low, run);
            assert(!low.contains(previous)) by {
                if low.contains(previous) {
                    let t = choose|t: int| 0 <= t < low.len() && low[t] == previous;
                    assert(sorted[t] < sorted[i as int]);
                }
            }
            assert(!high.contains(previous)) by {
                if high.contains(previous) {
                    let t = choose|t: int| 0 <= t < high.len() && high[t] == previous;
                    assert(sorted[i as int] < sorted[e + t]);
                }
            }
            lemma_count_constant(run, previous);
            assert(low.to_multiset().count(previous) == 0);
            assert(high.to_multiset().count(previous) == 0);
            assert(sizes.to_multiset().count(previous) == count);
            assert forall|h: int, k: int|
                #![trigger hist[h], hist[k]]
                0 <= h < k < hist.len() implies hist[h].0 < hist[k].0 by {
                assert(hist[h] == old_hist[h]);
                if k < old_hist.len() {
                    assert(hist[k] == old_hist[k]);
                } else {
                    assert(old_hist[h].0 < sorted[i as int]);
                }
            }
            assert forall|h: int, u: int|
                #![trigger hist[h], sorted[u]]
                0 <= h < hist.len() && e <= u < n implies hist[h].0 < sorted[u] by {
                if h < old_hist.len() {
                    assert(hist[h] == old_hist[h]);
                    assert(old_hist[h].0 < sorted[u]);
                } else {
                    assert(sorted[i as int] < sorted[u]);
                }
            }
            assert forall|h: int| 0 <= h < hist.len() implies (#[trigger] hist[h]).1 >= 1
                && hist[h].1 == sizes.to_multiset().count(hist[h].0) by {
                if h < old_hist.len() {
                    assert(hist[h] == old_hist[h]);
                }
            }
            assert forall|t: int| 0 <= t < e implies has_entry(hist@, #[trigger] sorted[t]) by {
                if t < i {
                    assert(has_entry(old_hist, sorted[t]));
                    let h = choose|h: int|
                        0 <= h < old_hist.len() && (#[trigger] old_hist[h]).0 == sorted[t];
                    assert(hist[h] == old_hist[h]);
                } else {
                    let h = old_hist.len() as int;
                    assert(hist[h].0 == sorted[t]);
                }
            }
        }
        i += count;
    }
    proof {
        broadcast use group_to_multiset_ensures;

        assert forall|j: int| 0 <= j < sizes.len() implies has_entry(hist@, #[trigger] sizes[j]) by {
            assert(sizes.contains(sizes[j]));
            assert(sizes.to_multiset().count(sizes[j]) > 0);
            assert(sorted.contains(sizes[j]));
            let t = choose|t: int| 0 <= t < sorted.len() && sorted[t] == sizes[j];
            assert(has_entry(hist@, sorted[t]));
        }
    }
    hist
}

} // verus!
