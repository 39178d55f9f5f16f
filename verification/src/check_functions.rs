//! Checks over the bytes of a message.

use vstd::prelude::*;

verus! {

/// The number of bits of `byte` that are one.
pub open spec fn ones(byte: u8) -> nat
    decreases byte,
{
    if byte == 0 {
        0
    } else {
        (byte % 2) as nat + ones(byte / 2)
    }
}

/// The number of bits of all of `bytes` that are one.
pub open spec fn total_ones(bytes: Seq<u8>) -> nat
    decreases bytes.len(),
{
    if bytes.len() == 0 {
        0
    } else {
        total_ones(bytes.drop_last()) + ones(bytes.last())
    }
}

/// Counts the bits of `byte` that are one.
pub fn count_ones(byte: u8) -> (n: u32)
    ensures
        n == ones(byte),
{
    let mut n: u32 = 0;
    let mut rest: u8 = byte;
    while rest != 0
        invariant
            n + ones(rest) == ones(byte),
            n + rest <= 255,
        decreases rest,
    {
        n += (rest % 2) as u32;
        rest = rest / 2;
    }
    n
}

/// The parity bit of `bytes`: 1 where the number of one bits is even, 0
/// where it is odd.
pub fn parity_check(bytes: &[u8]) -> (parity: u8)
    ensures
        parity == if total_ones(bytes@) % 2 == 0 {
            1u8
        } else {
            0u8
        },
{
    let mut n_ones: u32 = 0;

    let mut i: usize = 0;
    while i < bytes.len()
        invariant
            i <= bytes.len(),
            n_ones < 2,
            n_ones == total_ones(bytes@.take(i as int)) % 2,
        decreases bytes.len() - i,
    {
        let ones = count_ones(bytes[i]);
        assert(bytes@.take(i + 1).drop_last() =~= bytes@.take(i as int));
        n_ones = (n_ones + ones % 2) % 2;
        i += 1;
    }
    assert(bytes@.take(i as int) =~= bytes@);

    if n_ones % 2 == 0 {
        1
    } else {
        0
    }
}

} // verus!
