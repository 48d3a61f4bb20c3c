//! Which graphs two embeddings both fail to tell apart.

use vstd::prelude::*;
use std::collections::HashSet;
use fxhash::FxBuildHasher;

verus! {

/// The hasher of the `fxhash` crate, which the index sets are built on.
#[verifier::external_type_specification]
#[verifier::external_body]
pub struct ExFxHasher(fxhash::FxHasher);

/// The builder that makes a hasher by `Default`.
#[verifier::external_type_specification]
#[verifier::external_body]
#[verifier::reject_recursive_types(H)]
pub struct ExBuildHasherDefault<H>(std::hash::BuildHasherDefault<H>);

/// Makes an empty set of indices that hashes with `fxhash`.
///
/// Trusted: a set made by `HashSet::default` holds nothing.
#[verifier::external_body]
fn index_set_new() -> (s: HashSet<usize, FxBuildHasher>)
    ensures
        s@ == Set::<usize>::empty(),
{
    HashSet::default()
}

/// Puts `x` into the set with `HashSet::insert`.
///
/// Trusted: afterwards the set holds `x` besides what it held, and the
/// result tells whether `x` was new to it. This rests on the `fxhash` hasher
/// giving equal indices equal hashes.
#[verifier::external_body]
fn index_set_insert(s: &mut HashSet<usize, FxBuildHasher>, x: usize) -> (fresh: bool)
    ensures
        final(s)@ == old(s)@.insert(x),
        fresh == !old(s)@.contains(x),
{
    s.insert(x)
}

/// Looks `x` up with `HashSet::contains`.
///
/// Trusted: the result tells whether the set holds `x`.
#[verifier::external_body]
fn index_set_contains(s: &HashSet<usize, FxBuildHasher>, x: usize) -> (found: bool)
    ensures
        found == s@.contains(x),
{
    s.contains(&x)
}

/// The set of the indices in `list`.
fn index_set_of(list: &Vec<usize>) -> (s: HashSet<usize, FxBuildHasher>)
    ensures
        s@ == list@.to_set(),
{
    let mut s = index_set_new();
    let mut t: usize = 0;
    proof {
        assert(list@.take(0).to_set() =~= Set::<usize>::empty());
    }
    while t < list.len()
        invariant
            t <= list.len(),
            s@ == list@.take(t as int).to_set(),
        decreases list.len() - t,
    {
        let _ = index_set_insert(&mut s, list[t]);
        proof {
            assert(list@.take(t + 1) =~= list@.take(t as int).push(list[t as int]));
            list@.take(t as int).lemma_push_to_set_commute(list[t as int]);
        }
        t += 1;
    }
    proof {
        assert(list@.take(t as int) =~= list@);
    }
    s
}

/// The number of indices that occur in both lists, each counted once.
pub fn overlap(id_flattened: &Vec<usize>, wl_flattened: &Vec<usize>) -> (count: usize)
    ensures
        count == id_flattened@.to_set().intersect(wl_flattened@.to_set()).len(),
{
    let wl_hash = index_set_of(wl_flattened);
    let mut id_hash = index_set_new();
    let mut count: usize = 0;
    let mut t: usize = 0;
    let ghost wl = wl_flattened@.to_set();
    proof {
        assert(id_flattened@.take(0).to_set() =~= Set::<usize>::empty());
        assert(id_hash@.intersect(wl) =~= Set::<usize>::empty());
    }
    while t < id_flattened.len()
        invariant
            t <= id_flattened.len(),
            wl == wl_flattened@.to_set(),
            wl_hash@ == wl,
            id_hash@ == id_flattened@.take(t as int).to_set(),
            count == id_hash@.intersect(wl).len(),
            count <= t,
        decreases id_flattened.len() - t,
    {
        let x = id_flattened[t];
        let ghost seen = id_hash@;
        let fresh = index_set_insert(&mut id_hash, x);
        let shared = fresh && index_set_contains(&wl_hash, x);
        proof {
            broadcast use vstd::set::group_set_axioms;
            broadcast use vstd::seq_lib::seq_to_set_is_finite;

            assert(id_flattened@.take(t + 1) =~= id_flattened@.take(t as int).push(x));
            id_flattened@.take(t as int).lemma_push_to_set_commute(x);
            assert(seen.finite());
            assert(seen.intersect(wl).finite()) by {
                vstd::set_lib::lemma_len_intersect(seen, wl);
            }
            if shared {
                assert(seen.insert(x).intersect(wl) =~= seen.intersect(wl).insert(x));
                assert(!seen.intersect(wl).contains(x));
            } else {
                assert(seen.insert(x).intersect(wl) =~= seen.intersect(wl));
            }
        }
        if shared {
            count += 1;
        }
        t += 1;
    }
    proof {
        assert(id_flattened@.take(t as int) =~= id_flattened@);
    }
    count
}

} // verus!
