//! Plain text as bytes: numbers in decimal, and appending.

use vstd::prelude::*;

verus! {

/// The decimal digits of `x`, as ASCII bytes, without leading zeros.
pub open spec fn decimal(x: nat) -> Seq<u8>
    decreases x,
{
    if x < 10 {
        seq![(48 + x) as u8]
    } else {
        decimal(x / 10).push((48 + x % 10) as u8)
    }
}

/// Appends the decimal digits of `x` to `out`.
pub fn write_decimal(x: usize, out: &mut Vec<u8>)
    ensures
        final(out)@ == old(out)@ + decimal(x as nat),
    decreases x,
{
    if x >= 10 {
        write_decimal(x / 10, out);
    }
    let digit: u8 = 48 + (x % 10) as u8;
    out.push(digit);
    proof {
        if x >= 10 {
            assert(out@ =~= old(out)@ + decimal(x as nat));
        } else {
            assert(out@ =~= old(out)@ + decimal(x as nat));
        }
    }
}

/// Appends `bytes` to `out`.
pub fn write_bytes(bytes: &Vec<u8>, out: &mut Vec<u8>)
    ensures
        final(out)@ == old(out)@ + bytes@,
{
    let mut i: usize = 0;
    proof {
        assert(out@ =~= old(out)@ + bytes@.take(0));
    }
    while i < bytes.len()
        invariant
            i <= bytes.len(),
            out@ == old(out)@ + bytes@.take(i as int),
        decreases bytes.len() - i,
    {
        out.push(bytes[i]);
        proof {
            assert(bytes@.take(i + 1) =~= bytes@.take(i as int).push(bytes[i as int]));
        }
        i += 1;
    }
    proof {
        assert(bytes@.take(i as int) =~= bytes@);
    }
}

} // verus!
