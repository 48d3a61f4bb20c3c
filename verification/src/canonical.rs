//! The canonical hash of a multiset of records.

use vstd::prelude::*;
use crate::digest::blake3_hash;
use crate::ranking::{arranged, lemma_ranking_sorts, sorted_indices};
use crate::record::{encode_all, keys_of, multiset_digest, write_record, Record};

verus! {

/// Hashes the records as a multiset: the result depends on which records
/// occur and how often, not on the order in which `records` lists them.
///
/// An empty list hashes to the hash of no input.
pub fn canonical_hash<R: Record>(records: &Vec<R>) -> (out: [u8; 32])
    ensures
        out@ == multiset_digest(keys_of(records@), R::width()),
{
    let order = sorted_indices(records);
    let ghost keys = keys_of(records@);
    let ghost sorted = arranged(keys, order@);
    let mut buf: Vec<u8> = Vec::new();
    let mut t: usize = 0;
    proof {
        assert(sorted.take(0) =~= Seq::<Seq<int>>::empty());
        assert(buf@ =~= encode_all(sorted.take(0), R::width()));
    }
    while t < order.len()
        invariant
            t <= order.len(),
            order.len() == records.len(),
            keys == keys_of(records@),
            sorted == arranged(keys, order@),
            forall|s: int| 0 <= s < order.len() ==> #[trigger] order[s] < records.len(),
            buf@ == encode_all(sorted.take(t as int), R::width()),
        decreases order.len() - t,
    {
        write_record(&records[order[t]], &mut buf);
        proof {
            let k = sorted.take(t + 1);
            assert(k.drop_last() =~= sorted.take(t as int));
            assert(k.last() == records[order[t as int] as int].key());
        }
        t += 1;
    }
    proof {
        assert(sorted.take(t as int) =~= sorted);
        lemma_ranking_sorts(keys, order@);
    }
    blake3_hash(&buf)
}

} // verus!
