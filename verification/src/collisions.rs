//! Collision detection: which graphs share a fingerprint.

use vstd::prelude::*;
use vstd::seq_lib::*;
use crate::adjacency::AdjacencyMatrix;
use crate::order::{
    lemma_lex_flip, lemma_lex_same, lemma_lex_transitive, lemma_strictly_ascending_unique,
    lex_order, Precedence,
};
use crate::ranking::{index_le, index_range, is_ranking, sorted_indices};
use crate::record::{keys_of, lemma_colour_key, order_of, Record};

verus! {

/// The groups of a list of groups, each as the sequence of its indices.
pub open spec fn group_views(groups: Seq<Vec<usize>>) -> Seq<Seq<usize>> {
    groups.map_values(|g: Vec<usize>| g@)
}

/// Index `x` stands in one of the groups.
pub open spec fn covered(groups: Seq<Seq<usize>>, x: usize) -> bool {
    exists|g: int| 0 <= g < groups.len() && #[trigger] groups[g].contains(x)
}

/// Indices `x` and `y` stand in one and the same group.
pub open spec fn same_group(groups: Seq<Seq<usize>>, x: usize, y: usize) -> bool {
    exists|g: int| 0 <= g < groups.len() && #[trigger] groups[g].contains(x) && groups[g].contains(y)
}

/// The fingerprint at index `x` comes strictly before the one at index `y`,
/// in the lexicographic order of their bytes.
pub open spec fn fingerprint_before(fps: Seq<[u8; 32]>, x: usize, y: usize) -> bool {
    lex_order(fps[x as int].key(), fps[y as int].key()) == Precedence::Before
}

/// `groups` are the collision groups of the fingerprints `fps`:
/// every group holds at least two indices, in ascending order, all with one
/// fingerprint; the groups stand in ascending order of their fingerprints;
/// and every index whose fingerprint occurs at another index is in a group.
pub open spec fn is_collision_grouping(fps: Seq<[u8; 32]>, groups: Seq<Seq<usize>>) -> bool {
    &&& forall|g: int| 0 <= g < groups.len() ==> (#[trigger] groups[g]).len() >= 2
    &&& forall|g: int, s: int|
        0 <= g < groups.len() && 0 <= s < groups[g].len() ==> (#[trigger] groups[g][s]) < fps.len()
    &&& forall|g: int, s: int, t: int|
        #![trigger groups[g][s], groups[g][t]]
        0 <= g < groups.len() && 0 <= s < t < groups[g].len() ==> groups[g][s] < groups[g][t]
            && fps[groups[g][s] as int] == fps[groups[g][t] as int]
    &&& forall|g: int, h: int|
        #![trigger groups[g], groups[h]]
        0 <= g < h < groups.len() ==> fingerprint_before(fps, groups[g][0], groups[h][0])
    &&& forall|i: usize, j: usize|
        #![trigger fps[i as int], fps[j as int]]
        i < fps.len() && j < fps.len() && i != j && fps[i as int] == fps[j as int] ==> covered(
            groups,
            i,
        )
}

/// Two different indices stand in one group exactly when their fingerprints
/// are equal.
pub proof fn lemma_collision_symmetry(
    fps: Seq<[u8; 32]>,
    groups: Seq<Seq<usize>>,
    i: usize,
    j: usize,
)
    requires
        is_collision_grouping(fps, groups),
        i < fps.len(),
        j < fps.len(),
        i != j,
    ensures
        same_group(groups, i, j) <==> fps[i as int] == fps[j as int],
{
    if same_group(groups, i, j) {
        let g = choose|g: int|
            0 <= g < groups.len() && #[trigger] groups[g].contains(i) && groups[g].contains(j);
        lemma_group_same_fingerprint(fps, groups, g, i, j);
    }
    if fps[i as int] == fps[j as int] {
        assert(covered(groups, i));
        assert(fps[j as int] == fps[i as int]);
        assert(covered(groups, j));
        let g = choose|g: int| 0 <= g < groups.len() && #[trigger] groups[g].contains(i);
        let h = choose|h: int| 0 <= h < groups.len() && #[trigger] groups[h].contains(j);
        lemma_group_same_fingerprint(fps, groups, g, i, groups[g][0]);
        lemma_group_same_fingerprint(fps, groups, h, j, groups[h][0]);
        lemma_lex_same(fps[groups[g][0] as int].key(), fps[groups[h][0] as int].key());
        if g < h {
            assert(fingerprint_before(fps, groups[g][0], groups[h][0]));
        } else if h < g {
            assert(fingerprint_before(fps, groups[h][0], groups[g][0]));
        }
        assert(g == h);
    }
}

/// Two indices of one group have the same fingerprint.
pub proof fn lemma_group_same_fingerprint(
    fps: Seq<[u8; 32]>,
    groups: Seq<Seq<usize>>,
    g: int,
    x: usize,
    y: usize,
)
    requires
        is_collision_grouping(fps, groups),
        0 <= g < groups.len(),
        groups[g].contains(x),
        groups[g].contains(y),
    ensures
        fps[x as int] == fps[y as int],
{
    let s = choose|s: int| 0 <= s < groups[g].len() && groups[g][s] == x;
    let t = choose|t: int| 0 <= t < groups[g].len() && groups[g][t] == y;
    if s < t {
        assert(fps[groups[g][s] as int] == fps[groups[g][t] as int]);
    } else if t < s {
        assert(fps[groups[g][t] as int] == fps[groups[g][s] as int]);
    }
}

/// The fingerprint of each group, by group.
pub open spec fn group_fingerprints(fps: Seq<[u8; 32]>, groups: Seq<Seq<usize>>) -> Seq<[u8; 32]> {
    Seq::new(groups.len(), |g: int| fps[groups[g][0] as int])
}

/// The strict order of fingerprints, as a value.
pub open spec fn fingerprint_lt() -> spec_fn([u8; 32], [u8; 32]) -> bool {
    |f: [u8; 32], g: [u8; 32]| lex_order(f.key(), g.key()) == Precedence::Before
}

/// The fingerprint `f` occurs at two indices or more.
pub open spec fn occurs_twice(fps: Seq<[u8; 32]>, f: [u8; 32]) -> bool {
    exists|i: usize, j: usize|
        i < fps.len() && j < fps.len() && i != j && #[trigger] fps[i as int] == f
            && #[trigger] fps[j as int] == f
}

/// The fingerprints of the groups are the fingerprints that occur at two
/// indices or more.
proof fn lemma_group_fingerprints(fps: Seq<[u8; 32]>, groups: Seq<Seq<usize>>, f: [u8; 32])
    requires
        is_collision_grouping(fps, groups),
    ensures
        group_fingerprints(fps, groups).contains(f) <==> occurs_twice(fps, f),
{
    let firsts = group_fingerprints(fps, groups);
    if firsts.contains(f) {
        let g = choose|g: int| 0 <= g < firsts.len() && firsts[g] == f;
        let i = groups[g][0];
        let j = groups[g][1];
        assert(i < j && fps[i as int] == fps[j as int]);
        assert(fps[i as int] == f && fps[j as int] == f);
    }
    if occurs_twice(fps, f) {
        let (i, j) = choose|i: usize, j: usize|
            i < fps.len() && j < fps.len() && i != j && #[trigger] fps[i as int] == f
                && #[trigger] fps[j as int] == f;
        assert(fps[i as int] == fps[j as int]);
        assert(covered(groups, i));
        let g = choose|g: int| 0 <= g < groups.len() && #[trigger] groups[g].contains(i);
        assert(groups[g].contains(groups[g][0]));
        lemma_group_same_fingerprint(fps, groups, g, i, groups[g][0]);
        assert(firsts[g] == f);
    }
}

/// A group holds exactly the indices with its fingerprint.
proof fn lemma_group_members(fps: Seq<[u8; 32]>, groups: Seq<Seq<usize>>, g: int, v: usize)
    requires
        is_collision_grouping(fps, groups),
        0 <= g < groups.len(),
    ensures
        groups[g].contains(v) <==> v < fps.len() && fps[v as int] == fps[groups[g][0] as int],
{
    let first = groups[g][0];
    assert(groups[g].contains(first));
    if groups[g].contains(v) {
        lemma_group_same_fingerprint(fps, groups, g, v, first);
        let s = choose|s: int| 0 <= s < groups[g].len() && groups[g][s] == v;
        assert(groups[g][s] < fps.len());
    }
    if v < fps.len() && fps[v as int] == fps[first as int] && v != first {
        assert(first < fps.len());
        assert(fps[v as int] == fps[first as int]);
        assert(covered(groups, v));
        let h = choose|h: int| 0 <= h < groups.len() && #[trigger] groups[h].contains(v);
        assert(groups[h].contains(groups[h][0]));
        lemma_group_same_fingerprint(fps, groups, h, v, groups[h][0]);
        lemma_lex_same(fps[groups[h][0] as int].key(), fps[first as int].key());
        if h < g {
            assert(fingerprint_before(fps, groups[h][0], groups[g][0]));
        } else if g < h {
            assert(fingerprint_before(fps, groups[g][0], groups[h][0]));
            lemma_lex_same(fps[first as int].key(), fps[groups[h][0] as int].key());
        }
        assert(h == g);
    }
}

/// A list of fingerprints has one list of collision groups only.
pub proof fn lemma_collision_grouping_unique(
    fps: Seq<[u8; 32]>,
    a: Seq<Seq<usize>>,
    b: Seq<Seq<usize>>,
)
    requires
        is_collision_grouping(fps, a),
        is_collision_grouping(fps, b),
    ensures
        a == b,
{
    let fa = group_fingerprints(fps, a);
    let fb = group_fingerprints(fps, b);
    let lt = fingerprint_lt();
    assert forall|f: [u8; 32], g: [u8; 32]| #[trigger] lt(f, g) implies !lt(g, f) by {
        lemma_lex_flip(f.key(), g.key());
    }
    assert forall|f: [u8; 32], g: [u8; 32]| !(#[trigger] lt(f, g)) && !lt(g, f) implies f
        == g by {
        lemma_lex_flip(f.key(), g.key());
        lemma_lex_same(f.key(), g.key());
        lemma_colour_key(f, g);
    }
    assert forall|s: int, t: int| 0 <= s < t < fa.len() implies lt(
        #[trigger] fa[s],
        #[trigger] fa[t],
    ) by {
        assert(fingerprint_before(fps, a[s][0], a[t][0]));
    }
    assert forall|s: int, t: int| 0 <= s < t < fb.len() implies lt(
        #[trigger] fb[s],
        #[trigger] fb[t],
    ) by {
        assert(fingerprint_before(fps, b[s][0], b[t][0]));
    }
    assert forall|f: [u8; 32]| fa.contains(f) <==> fb.contains(f) by {
        lemma_group_fingerprints(fps, a, f);
        lemma_group_fingerprints(fps, b, f);
    }
    lemma_strictly_ascending_unique(fa, fb, lt);
    assert(a.len() == b.len());
    let below = |x: usize, y: usize| x < y;
    assert forall|g: int| 0 <= g < a.len() implies #[trigger] a[g] == b[g] by {
        assert(fa[g] == fb[g]);
        assert forall|v: usize| a[g].contains(v) <==> b[g].contains(v) by {
            lemma_group_members(fps, a, g, v);
            lemma_group_members(fps, b, g, v);
        }
        assert forall|s: int, t: int| 0 <= s < t < a[g].len() implies below(
            #[trigger] a[g][s],
            #[trigger] a[g][t],
        ) by {}
        assert forall|s: int, t: int| 0 <= s < t < b[g].len() implies below(
            #[trigger] b[g][s],
            #[trigger] b[g][t],
        ) by {}
        lemma_strictly_ascending_unique(a[g], b[g], below);
    }
    assert(a =~= b);
}

/// Whether two fingerprints are equal.
pub fn fingerprints_equal(a: &[u8; 32], b: &[u8; 32]) -> (eq: bool)
    ensures
        eq == (a == b),
        eq == (a.key() == b.key()),
{
    proof {
        lemma_lex_same(a.key(), b.key());
        lemma_colour_key(*a, *b);
    }
    match order_of(a, b) {
        Precedence::Same => true,
        _ => false,
    }
}

/// Groups the indices of `fingerprints` by fingerprint and returns the
/// groups of two or more: the collision groups.
///
/// The groups come in ascending order of their fingerprints, and the indices
/// of a group in ascending order.
pub fn group(fingerprints: &Vec<[u8; 32]>) -> (collisions: Vec<Vec<usize>>)
    ensures
        is_collision_grouping(fingerprints@, group_views(collisions@)),
{
    let order = sorted_indices(fingerprints);
    let n = order.len();
    let ghost fps = fingerprints@;
    let ghost keys = keys_of(fingerprints@);
    let mut collisions: Vec<Vec<usize>> = Vec::new();
    let mut i: usize = 0;
    proof {
        assert(group_views(collisions@) =~= Seq::<Seq<usize>>::empty());
    }
    while i < n
        invariant
            fps == fingerprints@,
            keys == keys_of(fingerprints@),
            is_ranking(keys, order@),
            n == order.len(),
            n == fingerprints.len(),
            i <= n,
            forall|g: int| 0 <= g < collisions.len() ==> (#[trigger] collisions[g]).len() >= 2,
            forall|g: int, s: int|
                0 <= g < collisions.len() && 0 <= s < collisions[g].len() ==> (
                #[trigger] collisions[g][s]) < n,
            forall|g: int, s: int, t: int|
                #![trigger collisions[g][s], collisions[g][t]]
                0 <= g < collisions.len() && 0 <= s < t < collisions[g].len() ==> collisions[g][s]
                    < collisions[g][t] && keys[collisions[g][s] as int]
                    == keys[collisions[g][t] as int],
            forall|g: int, h: int|
                #![trigger collisions[g], collisions[h]]
                0 <= g < h < collisions.len() ==> fingerprint_before(
                    fps,
                    collisions[g][0],
                    collisions[h][0],
                ),
            forall|g: int, u: int|
                #![trigger collisions[g], order[u]]
                0 <= g < collisions.len() && i <= u < n ==> fingerprint_before(
                    fps,
                    collisions[g][0],
                    order[u],
                ),
            forall|t: int, u: int|
                #![trigger order[t], order[u]]
                0 <= t < i && i <= u < n ==> fingerprint_before(fps, order[t], order[u]),
            forall|t: int, u: int|
                #![trigger order[t], order[u]]
                0 <= t < i && 0 <= u < n && t != u && keys[order[t] as int] == keys[order[u] as int]
                    ==> covered(group_views(collisions@), order[t]),
        decreases n - i,
    {
        let first = order[i];
        let mut next: usize = 0;
        let mut collision: Vec<usize> = Vec::new();
        collision.push(first);
        proof {
            assert(collision@ =~= order@.subrange(i as int, i + 1));
        }
        while (i + next + 1) < n && fingerprints_equal(
            &fingerprints[order[i + next + 1]],
            &fingerprints[first],
        )
            invariant
                keys == keys_of(fingerprints@),
                is_ranking(keys, order@),
                n == order.len(),
                n == fingerprints.len(),
                i < n,
                first == order[i as int],
                i + next < n,
                collision@ == order@.subrange(i as int, i + next + 1),
                forall|s: int|
                    i <= s <= i + next ==> keys[(#[trigger] order[s]) as int] == keys[first as int],
            decreases n - i - next,
        {
            collision.push(order[i + next + 1]);
            proof {
                assert(collision@ =~= order@.subrange(i as int, i + next + 2));
            }
            next += 1;
        }
        let ghost e: int = i + next + 1;
        let ghost old_groups = group_views(collisions@);
        let ghost old_collisions = collisions@;
        proof {
            // Everything up to the end of the run comes strictly before what
            // follows the run.
            assert forall|t: int, u: int|
                #![trigger order[t], order[u]]
                0 <= t < e && e <= u < n implies fingerprint_before(fps, order[t], order[u]) by {
                if t >= i {
                    let kt = keys[order[t] as int];
                    let ke = keys[order[e] as int];
                    let ku = keys[order[u] as int];
                    assert(kt == keys[first as int]);
                    assert(ke != keys[first as int]);
                    assert(index_le(keys, order[t], order[e]));
                    lemma_lex_same(kt, ke);
                    if u > e {
                        assert(index_le(keys, order[e], order[u]));
                        lemma_lex_transitive(kt, ke, ku);
                    }
                }
            }
            // Within the run the indices ascend.
            assert forall|s: int, t: int| 0 <= s < t < collision.len() implies collision[s]
                < collision[t] && keys[collision[s] as int] == keys[collision[t] as int] by {
                assert(collision[s] == order[i + s]);
                assert(collision[t] == order[i + t]);
                assert(index_le(keys, order[i + s], order[i + t]));
                lemma_lex_same(keys[order[i + s] as int], keys[order[i + t] as int]);
                assert(order[i + s] != order[i + t]);
            }
        }
        if next > 0 {
            collisions.push(collision);
            proof {
                let groups = group_views(collisions@);
                assert(groups =~= old_groups.push(collision@));
                assert forall|g: int| 0 <= g < collisions.len() implies (
                #[trigger] collisions[g]).len() >= 2 by {
                    if g < old_collisions.len() {
                        assert(collisions[g] == old_collisions[g]);
                    }
                }
                assert forall|g: int, s: int|
                    0 <= g < collisions.len() && 0 <= s < collisions[g].len() implies (
                #[trigger] collisions[g][s]) < n by {
                    if g < old_collisions.len() {
                        assert(collisions[g] == old_collisions[g]);
                    } else {
                        assert(collisions[g][s] == order[i + s]);
                    }
                }
                assert forall|g: int, s: int, t: int|
                    #![trigger collisions[g][s], collisions[g][t]]
                    0 <= g < collisions.len() && 0 <= s < t < collisions[g].len() implies collisions[g][s]
                        < collisions[g][t] && keys[collisions[g][s] as int]
                    == keys[collisions[g][t] as int] by {
                    if g < old_collisions.len() {
                        assert(collisions[g] == old_collisions[g]);
                    }
                }
                assert forall|g: int, h: int|
                    #![trigger collisions[g], collisions[h]]
                    0 <= g < h < collisions.len() implies fingerprint_before(
                    fps,
                    collisions[g][0],
                    collisions[h][0],
                ) by {
                    assert(collisions[g] == old_collisions[g]);
                    if h < old_collisions.len() {
                        assert(collisions[h] == old_collisions[h]);
                    } else {
                        assert(collisions[h][0] == order[i as int]);
                        assert(fingerprint_before(fps, old_collisions[g][0], order[i as int]));
                    }
                }
                assert forall|g: int, u: int|
                    #![trigger collisions[g], order[u]]
                    0 <= g < collisions.len() && e <= u < n implies fingerprint_before(
                    fps,
                    collisions[g][0],
                    order[u],
                ) by {
                    if g < old_collisions.len() {
                        assert(collisions[g] == old_collisions[g]);
                        assert(fingerprint_before(fps, old_collisions[g][0], order[u]));
                    } else {
                        assert(collisions[g][0] == order[i as int]);
                        assert(fingerprint_before(fps, order[i as int], order[u]));
                    }
                }
                assert forall|t: int, u: int|
                    #![trigger order[t], order[u]]
                    0 <= t < e && 0 <= u < n && t != u && keys[order[t] as int]
                        == keys[order[u] as int] implies covered(groups, order[t]) by {
                    if t < i {
                        assert(covered(old_groups, order[t]));
                        let g = choose|g: int|
                            0 <= g < old_groups.len() && #[trigger] old_groups[g].contains(order[t]);
                        assert(groups[g] == old_groups[g]);
                    } else {
                        let g = old_groups.len() as int;
                        assert(groups[g] == collision@);
                        assert(collision[t - i] == order[t]);
                        assert(groups[g].contains(order[t]));
                    }
                }
            }
        } else {
            proof {
                let groups = group_views(collisions@);
                assert forall|t: int, u: int|
                    #![trigger order[t], order[u]]
                    0 <= t < e && 0 <= u < n && t != u && keys[order[t] as int]
                        == keys[order[u] as int] implies covered(groups, order[t]) by {
                    if t == i {
                        lemma_lex_same(keys[order[t] as int], keys[order[u] as int]);
                        lemma_lex_same(keys[order[u] as int], keys[order[t] as int]);
                        if u < i {
                            assert(fingerprint_before(fps, order[u], order[t]));
                        } else {
                            assert(fingerprint_before(fps, order[t], order[u]));
                        }
                        assert(false);
                    }
                }
            }
        }
        i += next;
        i += 1;
    }
    proof {
        broadcast use group_to_multiset_ensures;

        let groups = group_views(collisions@);
        assert forall|g: int, s: int, t: int|
            #![trigger groups[g][s], groups[g][t]]
            0 <= g < groups.len() && 0 <= s < t < groups[g].len() implies groups[g][s] < groups[g][t]
                && fps[groups[g][s] as int] == fps[groups[g][t] as int] by {
            assert(groups[g] == collisions[g]@);
            let x = collisions[g][s];
            let y = collisions[g][t];
            assert(x < y && keys[x as int] == keys[y as int]);
            lemma_colour_key(fps[x as int], fps[y as int]);
        }
        assert forall|g: int, h: int|
            #![trigger groups[g], groups[h]]
            0 <= g < h < groups.len() implies fingerprint_before(fps, groups[g][0], groups[h][0]) by {
            assert(groups[g] == collisions[g]@);
            assert(groups[h] == collisions[h]@);
        }
        assert forall|i: usize, j: usize|
            #![trigger fps[i as int], fps[j as int]]
            i < fps.len() && j < fps.len() && i != j && fps[i as int] == fps[j as int] implies covered(
            groups,
            i,
        ) by {
            let range = index_range(0, n);
            assert(range[i as int] == i);
            assert(range[j as int] == j);
            assert(range.contains(i));
            assert(range.contains(j));
            assert(order@.to_multiset().count(i) > 0);
            assert(order@.to_multiset().count(j) > 0);
            assert(order@.contains(i));
            assert(order@.contains(j));
            let t = choose|t: int| 0 <= t < order.len() && order[t] == i;
            let u = choose|u: int| 0 <= u < order.len() && order[u] == j;
            assert(keys[order[t] as int] == keys[order[u] as int]);
        }
        assert forall|g: int| 0 <= g < groups.len() implies (#[trigger] groups[g]).len() >= 2 by {
            assert(groups[g] == collisions[g]@);
        }
        assert forall|g: int, s: int|
            0 <= g < groups.len() && 0 <= s < groups[g].len() implies (#[trigger] groups[g][s])
            < fps.len() by {
            assert(groups[g] == collisions[g]@);
        }
    }
    collisions
}

/// Embeds every graph with `embed` and returns the collision groups of the
/// fingerprints: the groups of graphs, by their positions in `graphs`, that
/// `embed` does not tell apart.
pub fn _find_indistinguishable<F>(n: usize, graphs: Vec<AdjacencyMatrix>, embed: F) -> (collisions:
    Vec<Vec<usize>>) where F: Fn(usize, &AdjacencyMatrix) -> [u8; 32]
    requires
        forall|i: int| 0 <= i < graphs.len() ==> call_requires(embed, (n, &#[trigger] graphs[i])),
    ensures
        exists|fps: Seq<[u8; 32]>|
            {
                &&& fps.len() == graphs.len()
                &&& forall|i: int|
                    0 <= i < graphs.len() ==> call_ensures(embed, (n, &graphs[i]), #[trigger] fps[i])
                &&& is_collision_grouping(fps, group_views(collisions@))
            },
{
    let mut hashes: Vec<[u8; 32]> = Vec::new();
    let mut i: usize = 0;
    while i < graphs.len()
        invariant
            i <= graphs.len(),
            hashes.len() == i,
            forall|j: int|
                0 <= j < graphs.len() ==> call_requires(embed, (n, &#[trigger] graphs[j])),
            forall|j: int| 0 <= j < i ==> call_ensures(embed, (n, &graphs[j]), #[trigger] hashes[j]),
        decreases graphs.len() - i,
    {
        let hash = embed(n, &graphs[i]);
        hashes.push(hash);
        i += 1;
    }
    let collisions = group(&hashes);
    proof {
        let fps = hashes@;
        assert(fps.len() == graphs.len());
        assert(forall|i: int|
            0 <= i < graphs.len() ==> call_ensures(embed, (n, &graphs[i]), #[trigger] fps[i]));
        assert(is_collision_grouping(fps, group_views(collisions@)));
    }
    collisions
}

} // verus!
