//! Records, their byte encoding, and the canonical hash of a multiset of
//! records: sort, encode in sorted order, hash.

use vstd::prelude::*;
use vstd::seq_lib::*;
use crate::digest::blake3_digest;
use crate::order::{lemma_sorted_records_multiset, lex_order, sorted_records, Precedence};
use crate::permutation::{is_permutation, lemma_reindex_multiset, reindex};

verus! {

/// A record: a tuple of unsigned numbers, each written with the same number
/// of bytes. Records are ordered by their tuples, lexicographically and
/// numerically.
pub trait Record {
    /// The tuple that the record stands for.
    spec fn key(&self) -> Seq<int>;

    /// The number of bytes that each component is written with.
    spec fn width() -> nat;

    /// The number of components.
    fn arity(&self) -> (n: usize)
        ensures
            n == self.key().len(),
    ;

    /// The component at position `i`.
    fn component(&self, i: usize) -> (x: u64)
        requires
            i < self.key().len(),
        ensures
            x == self.key()[i as int],
    ;

    /// The number of bytes per component.
    fn component_width() -> (w: usize)
        ensures
            w == Self::width(),
    ;
}

/// The `width` low bytes of `x`, least significant first.
pub open spec fn le_bytes(x: int, width: nat) -> Seq<u8>
    decreases width,
{
    if width == 0 {
        Seq::empty()
    } else {
        seq![(x % 256) as u8] + le_bytes(x / 256, (width - 1) as nat)
    }
}

/// The bytes of one record: its components in order, each in little-endian.
pub open spec fn encode(key: Seq<int>, width: nat) -> Seq<u8>
    decreases key.len(),
{
    if key.len() == 0 {
        Seq::empty()
    } else {
        encode(key.drop_last(), width) + le_bytes(key.last(), width)
    }
}

/// The bytes of a sequence of records, one after the other.
pub open spec fn encode_all(records: Seq<Seq<int>>, width: nat) -> Seq<u8>
    decreases records.len(),
{
    if records.len() == 0 {
        Seq::empty()
    } else {
        encode_all(records.drop_last(), width) + encode(records.last(), width)
    }
}

/// The bytes that stand for a multiset of records: those of the records in
/// sorted order.
pub open spec fn canonical_bytes(records: Seq<Seq<int>>, width: nat) -> Seq<u8> {
    encode_all(sorted_records(records), width)
}

/// The fingerprint of a multiset of records.
pub open spec fn multiset_digest(records: Seq<Seq<int>>, width: nat) -> Seq<u8> {
    blake3_digest(canonical_bytes(records, width))
}

/// The tuples of a sequence of records.
pub open spec fn keys_of<R: Record>(records: Seq<R>) -> Seq<Seq<int>> {
    records.map_values(|r: R| r.key())
}

/// The fingerprint of a multiset of records does not depend on the order in
/// which the records are listed.
pub proof fn lemma_multiset_digest_order_independent(
    a: Seq<Seq<int>>,
    b: Seq<Seq<int>>,
    width: nat,
)
    requires
        a.to_multiset() == b.to_multiset(),
    ensures
        canonical_bytes(a, width) == canonical_bytes(b, width),
        multiset_digest(a, width) == multiset_digest(b, width),
{
    lemma_sorted_records_multiset(a, b);
}

/// Listing the records in another order, by a permutation of their
/// positions, leaves the fingerprint unchanged.
pub proof fn lemma_multiset_digest_reindex(records: Seq<Seq<int>>, p: Seq<int>, width: nat)
    requires
        is_permutation(p, records.len()),
    ensures
        multiset_digest(reindex(records, p), width) == multiset_digest(records, width),
{
    lemma_reindex_multiset(records, p);
    lemma_multiset_digest_order_independent(reindex(records, p), records, width);
}

/// Compares two records by their tuples.
pub fn order_of<R: Record>(a: &R, b: &R) -> (o: Precedence)
    ensures
        o == lex_order(a.key(), b.key()),
{
    let n = a.arity();
    let m = b.arity();
    let mut i: usize = 0;
    proof {
        assert(a.key().skip(0) =~= a.key());
        assert(b.key().skip(0) =~= b.key());
    }
    while i < n && i < m
        invariant
            n == a.key().len(),
            m == b.key().len(),
            i <= n,
            i <= m,
            lex_order(a.key(), b.key()) == lex_order(a.key().skip(i as int), b.key().skip(i as int)),
        decreases n - i,
    {
        let x = a.component(i);
        let y = b.component(i);
        proof {
            assert(a.key().skip(i as int).drop_first() =~= a.key().skip(i + 1));
            assert(b.key().skip(i as int).drop_first() =~= b.key().skip(i + 1));
        }
        if x < y {
            return Precedence::Before;
        }
        if x > y {
            return Precedence::After;
        }
        i += 1;
    }
    if i < m {
        Precedence::Before
    } else if i < n {
        Precedence::After
    } else {
        Precedence::Same
    }
}

/// Appends the `width` low bytes of `x` to `out`, least significant first.
pub fn write_le(x: u64, width: usize, out: &mut Vec<u8>)
    ensures
        final(out)@ == old(out)@ + le_bytes(x as int, width as nat),
{
    let mut y: u64 = x;
    let mut t: usize = 0;
    while t < width
        invariant
            t <= width,
            out@ + le_bytes(y as int, (width - t) as nat) == old(out)@ + le_bytes(
                x as int,
                width as nat,
            ),
        decreases width - t,
    {
        let ghost before = out@;
        let b: u8 = (y % 256) as u8;
        out.push(b);
        proof {
            assert(le_bytes(y as int, (width - t) as nat) == seq![b] + le_bytes(
                y as int / 256,
                (width - t - 1) as nat,
            ));
            assert(out@ + le_bytes((y / 256) as int, (width - t - 1) as nat) =~= before + le_bytes(
                y as int,
                (width - t) as nat,
            ));
        }
        y = y / 256;
        t += 1;
    }
    proof {
        assert(out@ + le_bytes(y as int, 0) =~= out@);
    }
}

/// Appends the bytes of `r` to `out`.
pub fn write_record<R: Record>(r: &R, out: &mut Vec<u8>)
    ensures
        final(out)@ == old(out)@ + encode(r.key(), R::width()),
{
    let n = r.arity();
    let w = R::component_width();
    let mut i: usize = 0;
    proof {
        assert(r.key().take(0) =~= Seq::<int>::empty());
        assert(out@ =~= old(out)@ + encode(r.key().take(0), R::width()));
    }
    while i < n
        invariant
            n == r.key().len(),
            w == R::width(),
            i <= n,
            out@ == old(out)@ + encode(r.key().take(i as int), R::width()),
        decreases n - i,
    {
        let x = r.component(i);
        write_le(x, w, out);
        proof {
            let k = r.key().take(i + 1);
            assert(k.drop_last() =~= r.key().take(i as int));
            assert(k.last() == r.key()[i as int]);
            assert(out@ =~= old(out)@ + encode(k, R::width()));
        }
        i += 1;
    }
    proof {
        assert(r.key().take(n as int) =~= r.key());
    }
}

impl Record for [u8; 32] {
    open spec fn key(&self) -> Seq<int> {
        Seq::new(32, |i: int| self@[i] as int)
    }

    open spec fn width() -> nat {
        1
    }

    fn arity(&self) -> (n: usize) {
        32
    }

    fn component(&self, i: usize) -> (x: u64) {
        self[i] as u64
    }

    fn component_width() -> (w: usize) {
        1
    }
}

/// The bytes of a colour as a record: one component per byte.
pub open spec fn key_of_bytes(b: Seq<u8>) -> Seq<int> {
    Seq::new(b.len(), |i: int| b[i] as int)
}

/// Two colours have the same record exactly when they have the same bytes,
/// which is when they are equal.
pub proof fn lemma_colour_key(x: [u8; 32], y: [u8; 32])
    ensures
        x.key() == key_of_bytes(x@),
        x.key() == y.key() <==> x@ == y@,
        x@ == y@ <==> x == y,
{
    assert(x.key() =~= key_of_bytes(x@));
    assert(y.key() =~= key_of_bytes(y@));
    if x.key() == y.key() {
        assert forall|i: int| 0 <= i < 32 implies x@[i] == y@[i] by {
            assert(x.key()[i] == x@[i] as int);
            assert(y.key()[i] == y@[i] as int);
        }
        assert(x@ =~= y@);
    }
    if x@ == y@ {
        assert(x =~= y);
    }
}

impl Record for Vec<u32> {
    open spec fn key(&self) -> Seq<int> {
        Seq::new(self@.len(), |i: int| self@[i] as int)
    }

    open spec fn width() -> nat {
        4
    }

    fn arity(&self) -> (n: usize) {
        self.len()
    }

    fn component(&self, i: usize) -> (x: u64) {
        self[i] as u64
    }

    fn component_width() -> (w: usize) {
        4
    }
}

impl Record for usize {
    open spec fn key(&self) -> Seq<int> {
        seq![*self as int]
    }

    open spec fn width() -> nat {
        8
    }

    fn arity(&self) -> (n: usize) {
        1
    }

    fn component(&self, i: usize) -> (x: u64) {
        *self as u64
    }

    fn component_width() -> (w: usize) {
        8
    }
}

impl Record for Vec<u64> {
    open spec fn key(&self) -> Seq<int> {
        Seq::new(self@.len(), |i: int| self@[i] as int)
    }

    open spec fn width() -> nat {
        8
    }

    fn arity(&self) -> (n: usize) {
        self.len()
    }

    fn component(&self, i: usize) -> (x: u64) {
        self[i]
    }

    fn component_width() -> (w: usize) {
        8
    }
}

} // verus!
