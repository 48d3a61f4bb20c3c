//! The colour-refinement embedding: vertices are recoloured by their own
//! colour and the multiset of their neighbours' colours until the number of
//! colours stops growing, and the graph is described by the multiset of the
//! colours then reached.

use vstd::prelude::*;
use vstd::seq_lib::*;
use crate::adjacency::AdjacencyMatrix;
use crate::canonical::canonical_hash;
use crate::digest::{blake3_digest, blake3_hash};
use crate::matrix::permuted;
use crate::order::{lemma_lex_flip, lemma_lex_same, Precedence};
use crate::permutation::{
    is_permutation, lemma_filter_multiset, lemma_map_multiset, lemma_reindex_multiset, reindex,
};
use crate::ranking::{index_le, index_range, is_ranking, sorted_indices};
use crate::record::{
    key_of_bytes, keys_of, lemma_colour_key, lemma_multiset_digest_order_independent,
    multiset_digest, order_of, Record,
};

verus! {

/// The records of a list of colours.
pub open spec fn colour_keys(colours: Seq<Seq<u8>>) -> Seq<Seq<int>> {
    colours.map_values(|c: Seq<u8>| key_of_bytes(c))
}

/// The fingerprint of a multiset of colours.
pub open spec fn colour_digest(colours: Seq<Seq<u8>>) -> Seq<u8> {
    multiset_digest(colour_keys(colours), 1)
}

/// The bytes of each colour of a list.
pub open spec fn views(colours: Seq<[u8; 32]>) -> Seq<Seq<u8>> {
    colours.map_values(|c: [u8; 32]| c@)
}

/// For each vertex `u`, the entry of the matrix in row `v` and the colour of
/// `u`.
pub open spec fn row_with_colours(a: Seq<Seq<int>>, colours: Seq<Seq<u8>>, v: int, n: nat) -> Seq<
    (int, Seq<u8>),
> {
    Seq::new(n, |u: int| (a[v][u], colours[u]))
}

/// The test for a neighbour: the matrix entry is 1.
pub open spec fn is_neighbour() -> spec_fn((int, Seq<u8>)) -> bool {
    |q: (int, Seq<u8>)| q.0 == 1
}

/// The colour of a pair of matrix entry and colour.
pub open spec fn colour_of() -> spec_fn((int, Seq<u8>)) -> Seq<u8> {
    |q: (int, Seq<u8>)| q.1
}

/// The colours of the neighbours of `v`, by neighbour.
pub open spec fn neighbour_colours(a: Seq<Seq<int>>, colours: Seq<Seq<u8>>, v: int, n: nat) -> Seq<
    Seq<u8>,
> {
    row_with_colours(a, colours, v, n).filter(is_neighbour()).map_values(colour_of())
}

/// The next colour of `v`: the hash of its colour followed by the
/// fingerprint of the multiset of its neighbours' colours.
pub open spec fn refined_colour(a: Seq<Seq<int>>, colours: Seq<Seq<u8>>, v: int, n: nat) -> Seq<u8> {
    blake3_digest(colours[v] + colour_digest(neighbour_colours(a, colours, v, n)))
}

/// One round of refinement: the next colour of every vertex.
pub open spec fn refine(a: Seq<Seq<int>>, colours: Seq<Seq<u8>>, n: nat) -> Seq<Seq<u8>> {
    Seq::new(n, |v: int| refined_colour(a, colours, v, n))
}

/// The number of distinct colours in a list.
pub open spec fn distinct(colours: Seq<Seq<u8>>) -> nat {
    colours.to_set().len()
}

/// The colouring that refinement starts from: every vertex has the colour of
/// 32 zero bytes.
pub open spec fn initial_colours(n: nat) -> Seq<Seq<u8>> {
    Seq::new(n, |v: int| Seq::new(32, |i: int| 0u8))
}

/// Whether refinement goes on from a colouring with `num` colours: the next
/// round has more colours.
pub open spec fn refines_further(a: Seq<Seq<int>>, colours: Seq<Seq<u8>>, num: nat, n: nat) -> bool {
    num < distinct(refine(a, colours, n)) <= n
}

/// The colouring that refinement ends with, from `colours` with `num`
/// colours: the last one whose successor has no more colours than it. The
/// successor itself is dropped.
pub open spec fn stable_colours(a: Seq<Seq<int>>, colours: Seq<Seq<u8>>, num: nat, n: nat) -> Seq<
    Seq<u8>,
>
    decreases n - num,
{
    if refines_further(a, colours, num, n) {
        let next = refine(a, colours, n);
        stable_colours(a, next, distinct(next), n)
    } else {
        colours
    }
}

/// The numbers of colours that refinement goes through, from `colours` with
/// `num` colours: one entry for each round that is computed.
pub open spec fn colour_counts(a: Seq<Seq<int>>, colours: Seq<Seq<u8>>, num: nat, n: nat) -> Seq<nat>
    decreases n - num,
{
    if refines_further(a, colours, num, n) {
        let next = refine(a, colours, n);
        seq![num] + colour_counts(a, next, distinct(next), n)
    } else {
        seq![num]
    }
}

/// The colour-refinement fingerprint of the graph with matrix `a` on `n`
/// vertices.
pub open spec fn wl_fingerprint(a: Seq<Seq<int>>, n: nat) -> Seq<u8> {
    colour_digest(stable_colours(a, initial_colours(n), 1, n))
}

/// From a colouring with `num` colours, the numbers of colours of the rounds
/// strictly increase, none exceeds `n` but perhaps the first, and there are
/// at most `n - num + 1` rounds, or one.
pub proof fn lemma_colour_counts(a: Seq<Seq<int>>, colours: Seq<Seq<u8>>, num: nat, n: nat)
    ensures
        ({
            let counts = colour_counts(a, colours, num, n);
            &&& counts.len() >= 1
            &&& counts[0] == num
            &&& forall|i: int, j: int|
                0 <= i < j < counts.len() ==> #[trigger] counts[i] < #[trigger] counts[j]
            &&& forall|i: int| 1 <= i < counts.len() ==> #[trigger] counts[i] <= n
            &&& num <= n ==> counts.len() <= n - num + 1
            &&& num > n ==> counts.len() == 1
        }),
    decreases n - num,
{
    if refines_further(a, colours, num, n) {
        let next = refine(a, colours, n);
        let m = distinct(next);
        lemma_colour_counts(a, next, m, n);
        let rest = colour_counts(a, next, m, n);
        let all = colour_counts(a, colours, num, n);
        assert(all == seq![num] + rest);
        assert forall|i: int, j: int| 0 <= i < j < all.len() implies all[i] < all[j] by {
            assert(all[j] == rest[j - 1]);
            if i == 0 {
                assert(rest[0] <= rest[j - 1]);
            } else {
                assert(all[i] == rest[i - 1]);
            }
        }
        assert forall|i: int| 1 <= i < all.len() implies all[i] <= n by {
            assert(all[i] == rest[i - 1]);
        }
    }
}

/// Refinement of a graph on `n >= 1` vertices computes at most `n` rounds,
/// and the number of colours never falls from one round to the next.
pub proof fn lemma_refinement_monotone_bounded(a: Seq<Seq<int>>, n: nat)
    requires
        n >= 1,
    ensures
        ({
            let counts = colour_counts(a, initial_colours(n), 1, n);
            &&& 1 <= counts.len() <= n
            &&& forall|i: int, j: int|
                0 <= i <= j < counts.len() ==> #[trigger] counts[i] <= #[trigger] counts[j]
            &&& forall|i: int| 0 <= i < counts.len() ==> 1 <= #[trigger] counts[i] <= n
        }),
{
    lemma_colour_counts(a, initial_colours(n), 1, n);
}

/// Two lists with the same colours, counted with multiplicity, have the same
/// number of distinct colours.
pub proof fn lemma_distinct_multiset(x: Seq<Seq<u8>>, y: Seq<Seq<u8>>)
    requires
        x.to_multiset() == y.to_multiset(),
    ensures
        distinct(x) == distinct(y),
{
    broadcast use group_to_multiset_ensures;

    assert forall|c: Seq<u8>| x.to_set().contains(c) <==> y.to_set().contains(c) by {
        assert(x.contains(c) <==> x.to_multiset().count(c) > 0);
        assert(y.contains(c) <==> y.to_multiset().count(c) > 0);
    }
    assert(x.to_set() =~= y.to_set());
}

/// The fingerprint of a multiset of colours does not depend on the order of
/// the list.
pub proof fn lemma_colour_digest_multiset(x: Seq<Seq<u8>>, y: Seq<Seq<u8>>)
    requires
        x.to_multiset() == y.to_multiset(),
    ensures
        colour_digest(x) == colour_digest(y),
{
    lemma_map_multiset(x, y, |c: Seq<u8>| key_of_bytes(c));
    lemma_multiset_digest_order_independent(colour_keys(x), colour_keys(y), 1);
}

/// Renumbering the vertices renumbers the colours of the next round.
pub proof fn lemma_refine_permuted(a: Seq<Seq<int>>, colours: Seq<Seq<u8>>, p: Seq<int>, n: nat)
    requires
        is_permutation(p, n),
        colours.len() == n,
    ensures
        refine(permuted(a, p), reindex(colours, p), n) == reindex(refine(a, colours, n), p),
{
    let b = permuted(a, p);
    let moved = reindex(colours, p);
    assert forall|v: int| 0 <= v < n implies refined_colour(b, moved, v, n) == refined_colour(
        a,
        colours,
        p[v],
        n,
    ) by {
        let x = row_with_colours(b, moved, v, n);
        let y = row_with_colours(a, colours, p[v], n);
        assert(x =~= reindex(y, p));
        lemma_reindex_multiset(y, p);
        lemma_filter_multiset(x, y, is_neighbour());
        lemma_map_multiset(x.filter(is_neighbour()), y.filter(is_neighbour()), colour_of());
        lemma_colour_digest_multiset(
            neighbour_colours(b, moved, v, n),
            neighbour_colours(a, colours, p[v], n),
        );
    }
    assert(refine(b, moved, n) =~= reindex(refine(a, colours, n), p));
}

/// Renumbering the vertices renumbers the colouring that refinement ends
/// with.
pub proof fn lemma_stable_colours_permuted(
    a: Seq<Seq<int>>,
    colours: Seq<Seq<u8>>,
    num: nat,
    p: Seq<int>,
    n: nat,
)
    requires
        is_permutation(p, n),
        colours.len() == n,
    ensures
        stable_colours(permuted(a, p), reindex(colours, p), num, n) == reindex(
            stable_colours(a, colours, num, n),
            p,
        ),
    decreases n - num,
{
    let next = refine(a, colours, n);
    lemma_refine_permuted(a, colours, p, n);
    lemma_reindex_multiset(next, p);
    lemma_distinct_multiset(reindex(next, p), next);
    if refines_further(a, colours, num, n) {
        lemma_stable_colours_permuted(a, next, distinct(next), p, n);
    }
}

/// Renumbering the vertices of a graph leaves its colour-refinement
/// fingerprint unchanged.
pub proof fn lemma_wl_fingerprint_invariant(a: Seq<Seq<int>>, p: Seq<int>, n: nat)
    requires
        is_permutation(p, n),
    ensures
        wl_fingerprint(permuted(a, p), n) == wl_fingerprint(a, n),
{
    let start = initial_colours(n);
    assert(reindex(start, p) =~= start);
    lemma_stable_colours_permuted(a, start, 1, p, n);
    let end = stable_colours(a, start, 1, n);
    lemma_stable_colours_len(a, start, 1, n);
    lemma_reindex_multiset(end, p);
    lemma_colour_digest_multiset(reindex(end, p), end);
}

/// Refinement keeps the number of vertices.
pub proof fn lemma_stable_colours_len(a: Seq<Seq<int>>, colours: Seq<Seq<u8>>, num: nat, n: nat)
    requires
        colours.len() == n,
    ensures
        stable_colours(a, colours, num, n).len() == n,
    decreases n - num,
{
    if refines_further(a, colours, num, n) {
        let next = refine(a, colours, n);
        lemma_stable_colours_len(a, next, distinct(next), n);
    }
}

/// The number of distinct colours in `v`.
fn count_distinct(v: &Vec<[u8; 32]>) -> (count: usize)
    ensures
        count == distinct(views(v@)),
        count <= v.len(),
{
    let order = sorted_indices(v);
    let ghost keys = keys_of(v@);
    let ghost all = views(v@);
    let ghost sorted = Seq::new(order.len() as nat, |t: int| all[order[t] as int]);
    let mut count: usize = 0;
    let mut t: usize = 0;
    proof {
        assert(sorted.take(0) =~= Seq::<Seq<u8>>::empty());
        assert(sorted.take(0).to_set() =~= Set::<Seq<u8>>::empty());
    }
    while t < order.len()
        invariant
            keys == keys_of(v@),
            all == views(v@),
            is_ranking(keys, order@),
            order.len() == v.len(),
            sorted == Seq::new(order.len() as nat, |t: int| all[order[t] as int]),
            t <= order.len(),
            count <= t,
            count == sorted.take(t as int).to_set().len(),
        decreases order.len() - t,
    {
        let fresh = if t == 0 {
            true
        } else {
            match order_of(&v[order[t]], &v[order[t - 1]]) {
                Precedence::Same => false,
                _ => true,
            }
        };
        proof {
            broadcast use vstd::set::group_set_axioms;
            broadcast use seq_to_set_is_finite;

            let before = sorted.take(t as int);
            let x = sorted[t as int];
            assert(sorted.take(t + 1) =~= before.push(x));
            before.lemma_push_to_set_commute(x);
            let kt = keys[order[t as int] as int];
            if fresh {
                if before.to_set().contains(x) {
                    let s = choose|s: int| 0 <= s < before.len() && before[s] == x;
                    let ks = keys[order[s] as int];
                    lemma_colour_key(v[order[s] as int], v[order[t as int] as int]);
                    assert(ks == kt);
                    let kp = keys[order[t - 1] as int];
                    assert(index_le(keys, order[t - 1], order[t as int]));
                    if s < t - 1 {
                        assert(index_le(keys, order[s], order[t - 1]));
                    }
                    lemma_lex_same(ks, kt);
                    lemma_lex_same(ks, kp);
                    lemma_lex_flip(kp, kt);
                    lemma_lex_flip(ks, kp);
                    lemma_lex_same(kt, kp);
                    assert(false);
                }
            } else {
                let kp = keys[order[t - 1] as int];
                lemma_lex_same(kt, kp);
                lemma_colour_key(v[order[t as int] as int], v[order[t - 1] as int]);
                assert(before[t - 1] == x);
                assert(before.to_set().contains(x));
                assert(before.to_set().insert(x) =~= before.to_set());
            }
        }
        if fresh {
            count += 1;
        }
        t += 1;
    }
    proof {
        broadcast use group_to_multiset_ensures;

        assert(sorted.take(t as int) =~= sorted);
        assert forall|c: Seq<u8>| sorted.to_set().contains(c) <==> all.to_set().contains(c) by {
            if sorted.contains(c) {
                let s = choose|s: int| 0 <= s < sorted.len() && sorted[s] == c;
                assert(all[order[s] as int] == c);
            }
            if all.contains(c) {
                let i = choose|i: int| 0 <= i < all.len() && all[i] == c;
                let range = index_range(0, v.len());
                assert(range[i] == i as usize);
                assert(range.contains(i as usize));
                assert(order@.to_multiset().count(i as usize) > 0);
                assert(order@.contains(i as usize));
                let s = choose|s: int| 0 <= s < order.len() && order[s] == i as usize;
                assert(sorted[s] == c);
            }
        }
        assert(sorted.to_set() =~= all.to_set());
    }
    count
}

/// The number of distinct colours in `v`.
pub fn count_unique(v: Vec<[u8; 32]>) -> (count: usize)
    ensures
        count == distinct(views(v@)),
{
    count_distinct(&v)
}

/// Hashes a list of colours as a multiset.
pub fn multiset_hash(v: Vec<[u8; 32]>) -> (out: [u8; 32])
    ensures
        out@ == colour_digest(views(v@)),
{
    proof {
        assert forall|i: int| 0 <= i < v.len() implies #[trigger] keys_of(v@)[i] == colour_keys(
            views(v@),
        )[i] by {
            lemma_colour_key(v[i], v[i]);
        }
        assert(keys_of(v@) =~= colour_keys(views(v@)));
    }
    canonical_hash(&v)
}

/// Appends the bytes of a colour to `out`.
fn write_colour(c: &[u8; 32], out: &mut Vec<u8>)
    ensures
        final(out)@ == old(out)@ + c@,
{
    let mut i: usize = 0;
    while i < 32
        invariant
            i <= 32,
            out@ == old(out)@ + c@.take(i as int),
        decreases 32 - i,
    {
        out.push(c[i]);
        proof {
            assert(c@.take(i + 1) =~= c@.take(i as int).push(c@[i as int]));
        }
        i += 1;
    }
    proof {
        assert(c@.take(32) =~= c@);
    }
}

/// One round of refinement: the next colour of every vertex.
pub fn refine_round(n: usize, a: &AdjacencyMatrix, colours: &Vec<[u8; 32]>) -> (out: Vec<[u8; 32]>)
    requires
        a.wf(),
        a@.len() == n,
        colours.len() == n,
    ensures
        views(out@) == refine(a@, views(colours@), n as nat),
{
    let ghost cols = views(colours@);
    let mut new_colours: Vec<[u8; 32]> = Vec::new();
    let mut v: usize = 0;
    while v < n
        invariant
            a.wf(),
            a@.len() == n,
            colours.len() == n,
            cols == views(colours@),
            v <= n,
            new_colours.len() == v,
            forall|w: int| 0 <= w < v ==> (#[trigger] new_colours[w])@ == refined_colour(a@, cols, w, n as nat),
        decreases n - v,
    {
        let ghost row = row_with_colours(a@, cols, v as int, n as nat);
        let mut neighbours: Vec<[u8; 32]> = Vec::new();
        let mut u: usize = 0;
        proof {
            assert(row.take(0) =~= Seq::<(int, Seq<u8>)>::empty());
            assert(views(neighbours@) =~= row.take(0).filter(is_neighbour()).map_values(
                colour_of(),
            ));
        }
        while u < n
            invariant
                a.wf(),
                a@.len() == n,
                colours.len() == n,
                cols == views(colours@),
                v < n,
                u <= n,
                row == row_with_colours(a@, cols, v as int, n as nat),
                views(neighbours@) == row.take(u as int).filter(is_neighbour()).map_values(
                    colour_of(),
                ),
            decreases n - u,
        {
            let ghost before = neighbours@;
            let adjacent = a.get(v, u) == 1;
            if adjacent {
                neighbours.push(colours[u]);
            }
            proof {
                let q = row[u as int];
                assert(row.take(u + 1) =~= row.take(u as int).push(q));
                row.take(u as int).lemma_filter_push(q, is_neighbour());
                let kept = row.take(u as int).filter(is_neighbour());
                if adjacent {
                    kept.lemma_push_map_commute(colour_of(), q);
                    assert(views(neighbours@) =~= views(before).push(colours[u as int]@));
                }
            }
            u += 1;
        }
        proof {
            assert(row.take(n as int) =~= row);
        }
        let inner = multiset_hash(neighbours);
        let mut buf: Vec<u8> = Vec::new();
        write_colour(&colours[v], &mut buf);
        write_colour(&inner, &mut buf);
        proof {
            assert(buf@ =~= cols[v as int] + colour_digest(
                neighbour_colours(a@, cols, v as int, n as nat),
            ));
        }
        let new_colour = blake3_hash(&buf);
        new_colours.push(new_colour);
        v += 1;
    }
    proof {
        assert(views(new_colours@) =~= refine(a@, cols, n as nat));
    }
    new_colours
}

/// What refinement ends with.
#[derive(Clone, Debug)]
pub struct Refinement {
    /// The colour of every vertex.
    pub colours: Vec<[u8; 32]>,
    /// The number of distinct colours among them, or 1 where refinement
    /// stopped at the start.
    pub num_colours: usize,
    /// The number of rounds that were computed, the last of which was
    /// dropped.
    pub rounds: usize,
}

/// Refines the colouring of the graph, from all vertices alike, until a
/// round brings no more colours. The colours of that last round are dropped:
/// the result holds those of the round before.
pub fn refine_until_stable(n: usize, a: &AdjacencyMatrix) -> (end: Refinement)
    requires
        a.wf(),
        a@.len() == n,
    ensures
        views(end.colours@) == stable_colours(a@, initial_colours(n as nat), 1, n as nat),
        end.colours.len() == n,
        end.rounds == colour_counts(a@, initial_colours(n as nat), 1, n as nat).len(),
        end.num_colours == colour_counts(a@, initial_colours(n as nat), 1, n as nat).last(),
{
    let mut colours: Vec<[u8; 32]> = Vec::new();
    let mut i: usize = 0;
    while i < n
        invariant
            i <= n,
            colours.len() == i,
            forall|w: int| 0 <= w < i ==> (#[trigger] colours[w])@ == initial_colours(n as nat)[w],
        decreases n - i,
    {
        let zero = [0u8; 32];
        proof {
            assert(zero@ =~= initial_colours(n as nat)[i as int]);
        }
        colours.push(zero);
        i += 1;
    }
    let mut num_colours: usize = 1;
    let mut rounds: usize = 0;
    let ghost start = initial_colours(n as nat);
    proof {
        assert(views(colours@) =~= start);
    }
    loop
        invariant_except_break
            stable_colours(a@, start, 1, n as nat) == stable_colours(
                a@,
                views(colours@),
                num_colours as nat,
                n as nat,
            ),
            colour_counts(a@, start, 1, n as nat).len() == rounds + colour_counts(
                a@,
                views(colours@),
                num_colours as nat,
                n as nat,
            ).len(),
            colour_counts(a@, start, 1, n as nat).last() == colour_counts(
                a@,
                views(colours@),
                num_colours as nat,
                n as nat,
            ).last(),
            rounds < num_colours,
        invariant
            a.wf(),
            a@.len() == n,
            start == initial_colours(n as nat),
            colours.len() == n,
            num_colours <= n || num_colours == 1,
        ensures
            views(colours@) == stable_colours(a@, start, 1, n as nat),
            rounds == colour_counts(a@, start, 1, n as nat).len(),
            num_colours == colour_counts(a@, start, 1, n as nat).last(),
        decreases n - num_colours,
    {
        let new_colours = refine_round(n, a, &colours);
        let num_new_colours = count_distinct(&new_colours);
        proof {
            lemma_colour_counts(a@, views(colours@), num_colours as nat, n as nat);
            lemma_colour_counts(a@, views(new_colours@), num_new_colours as nat, n as nat);
            assert(views(new_colours@).len() == n);
        }
        rounds += 1;
        if num_new_colours > num_colours {
            proof {
                let rest = colour_counts(a@, views(new_colours@), num_new_colours as nat, n as nat);
                let all = colour_counts(a@, views(colours@), num_colours as nat, n as nat);
                assert(all == seq![num_colours as nat] + rest);
                assert(all.last() == rest.last());
            }
            num_colours = num_new_colours;
            colours = new_colours;
        } else {
            break ;
        }
    }
    Refinement { colours, num_colours, rounds }
}

/// The colour-refinement fingerprint of the graph with matrix `a` on `n`
/// vertices.
pub fn embed(n: usize, a: &AdjacencyMatrix) -> (out: [u8; 32])
    requires
        a.wf(),
        a@.len() == n,
    ensures
        out@ == wl_fingerprint(a@, n as nat),
{
    let end = refine_until_stable(n, a);
    multiset_hash(end.colours)
}

} // verus!
