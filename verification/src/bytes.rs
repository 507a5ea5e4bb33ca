//! Numbers as little-endian bytes.

use vstd::prelude::*;

verus! {

/// The `width` lowest bytes of `n`, the least significant first.
pub open spec fn le_bytes(n: nat, width: nat) -> Seq<u8>
    decreases width,
{
    if width == 0 {
        Seq::empty()
    } else {
        seq![(n % 256) as u8] + le_bytes(n / 256, (width - 1) as nat)
    }
}

/// The number whose bytes these are, the least significant first.
pub open spec fn le_value(bytes: Seq<u8>) -> nat
    decreases bytes.len(),
{
    if bytes.len() == 0 {
        0
    } else {
        bytes[0] as nat + 256 * le_value(bytes.drop_first())
    }
}

/// Whether `n` has no more than `width` bytes.
pub open spec fn fits_in(n: nat, width: nat) -> bool
    decreases width,
{
    if width == 0 {
        n == 0
    } else {
        fits_in(n / 256, (width - 1) as nat)
    }
}

/// A number that fits is the value of its bytes, and there are `width` of them.
pub proof fn lemma_le_value_of_le_bytes(n: nat, width: nat)
    ensures
        le_bytes(n, width).len() == width,
        fits_in(n, width) ==> le_value(le_bytes(n, width)) == n,
    decreases width,
{
    if width > 0 {
        lemma_le_value_of_le_bytes(n / 256, (width - 1) as nat);
        assert(le_bytes(n, width).drop_first() =~= le_bytes(n / 256, (width - 1) as nat));
    }
}

/// Bytes are the bytes of their value.
pub proof fn lemma_le_bytes_of_le_value(bytes: Seq<u8>)
    ensures
        le_bytes(le_value(bytes), bytes.len()) == bytes,
    decreases bytes.len(),
{
    if bytes.len() > 0 {
        lemma_le_bytes_of_le_value(bytes.drop_first());
        assert(le_bytes(le_value(bytes), bytes.len()) =~= bytes);
    } else {
        assert(le_bytes(le_value(bytes), 0) =~= bytes);
    }
}

/// Every 32-bit number fits in four bytes.
pub proof fn lemma_u32_fits(n: nat)
    requires
        n <= u32::MAX,
    ensures
        fits_in(n, 4),
{
    reveal_with_fuel(fits_in, 5);
}

/// The value of four bytes fits in 32 bits.
pub proof fn lemma_le_value_of_four(bytes: Seq<u8>)
    requires
        bytes.len() == 4,
    ensures
        le_value(bytes) == bytes[0] + 256 * bytes[1] + 65536 * bytes[2] + 16777216 * bytes[3],
        le_value(bytes) <= u32::MAX,
{
    reveal_with_fuel(le_value, 5);
}

/// Appends the `width` lowest bytes of `n`.
pub fn append_le(out: &mut Vec<u8>, n: u64, width: u8)
    ensures
        final(out)@ == old(out)@ + le_bytes(n as nat, width as nat),
{
    let mut high: u64 = n;
    let mut left: u8 = width;
    while left > 0
        invariant
            out@ + le_bytes(high as nat, left as nat) == old(out)@ + le_bytes(
                n as nat,
                width as nat,
            ),
        decreases left,
    {
        let ghost before = out@;
        out.push((high % 256) as u8);
        assert(out@ + le_bytes((high / 256) as nat, (left - 1) as nat) =~= before + le_bytes(
            high as nat,
            left as nat,
        ));
        high = high / 256;
        left -= 1;
    }
    assert(out@ =~= out@ + le_bytes(high as nat, 0));
}

/// The number whose four bytes these are.
pub fn read_u32(bytes: &[u8]) -> (n: u32)
    requires
        bytes@.len() == 4,
    ensures
        n == le_value(bytes@),
{
    proof {
        lemma_le_value_of_four(bytes@);
    }
    bytes[0] as u32 + 256 * (bytes[1] as u32) + 65536 * (bytes[2] as u32) + 16777216 * (
    bytes[3] as u32)
}

/// The number whose eight bytes these are.
pub fn read_u64(bytes: &[u8]) -> (n: u64)
    requires
        bytes@.len() == 8,
    ensures
        n == le_value(bytes@),
{
    let (low, high) = bytes.split_at(4);
    proof {
        lemma_le_value_of_four(low@);
        lemma_le_value_of_four(high@);
        reveal_with_fuel(le_value, 9);
    }
    read_u32(low) as u64 + 4294967296 * (read_u32(high) as u64)
}

} // verus!
