//! Numbers spelled in little-endian bytes.

use vstd::prelude::*;

verus! {

/// The number that `bytes` spell in little-endian order.
pub open spec fn le_value(bytes: Seq<u8>) -> nat
    decreases bytes.len(),
{
    if bytes.len() == 0 {
        0
    } else {
        bytes[0] as nat + 256 * le_value(bytes.skip(1))
    }
}

/// `256` to the power `digits`: one more than the largest number that so many
/// bytes can spell.
pub open spec fn le_limit(digits: nat) -> nat
    decreases digits,
{
    if digits == 0 {
        1
    } else {
        256 * le_limit((digits - 1) as nat)
    }
}

/// A number spelled by `n` bytes is below `256` to the power `n`.
pub proof fn lemma_le_value_bound(bytes: Seq<u8>)
    ensures
        le_value(bytes) < le_limit(bytes.len()),
    decreases bytes.len(),
{
    if bytes.len() > 0 {
        lemma_le_value_bound(bytes.skip(1));
    }
}

/// Up to eight bytes spell a number that fits in 64 bits.
pub proof fn lemma_le_limit_fits(digits: nat)
    requires
        digits <= 8,
    ensures
        le_limit(digits) <= 0x1_0000_0000_0000_0000,
        digits < 8 ==> 256 * le_limit(digits) <= 0x1_0000_0000_0000_0000,
{
    reveal_with_fuel(le_limit, 10);
}

/// The `width` low bytes of `value` in little-endian order.
pub open spec fn le_bytes(value: nat, width: nat) -> Seq<u8>
    decreases width,
{
    if width == 0 {
        Seq::empty()
    } else {
        seq![(value % 256) as u8] + le_bytes(value / 256, (width - 1) as nat)
    }
}

/// `width` bytes are `width` bytes.
pub proof fn lemma_le_bytes_len(value: nat, width: nat)
    ensures
        le_bytes(value, width).len() == width,
    decreases width,
{
    if width > 0 {
        lemma_le_bytes_len(value / 256, (width - 1) as nat);
    }
}

/// The bytes of a number that fits in them spell that number.
pub proof fn lemma_le_round_trip(value: nat, width: nat)
    requires
        value < le_limit(width),
    ensures
        le_value(le_bytes(value, width)) == value,
    decreases width,
{
    if width > 0 {
        let rest = le_bytes(value / 256, (width - 1) as nat);
        let bytes = le_bytes(value, width);
        lemma_le_round_trip(value / 256, (width - 1) as nat);
        assert(bytes.skip(1) =~= rest);
        assert(bytes[0] == (value % 256) as u8);
    }
}

/// Eight bytes hold any 64-bit number.
pub proof fn lemma_u64_fits(value: u64)
    ensures
        value < le_limit(8),
        le_value(le_bytes(value as nat, 8)) == value,
        le_bytes(value as nat, 8).len() == 8,
{
    reveal_with_fuel(le_limit, 10);
    lemma_le_round_trip(value as nat, 8);
    lemma_le_bytes_len(value as nat, 8);
}

/// Reads `width` bytes of `bytes` from `start` on as one little-endian
/// number.
pub fn read_le(bytes: &[u8], start: usize, width: usize) -> (value: u64)
    requires
        width <= 8,
        start + width <= bytes.len(),
    ensures
        value == le_value(bytes@.subrange(start as int, start + width)),
{
    let mut value: u64 = 0;
    let mut k: usize = width;
    while k > 0
        invariant
            width <= 8,
            start + width <= bytes.len(),
            k <= width,
            value == le_value(bytes@.subrange(start + k, start + width)),
        decreases k,
    {
        proof {
            let rest = bytes@.subrange(start + k, start + width);
            let more = bytes@.subrange(start + k - 1, start + width);
            assert(more.skip(1) =~= rest);
            assert(more[0] == bytes[start + k - 1]);
            lemma_le_value_bound(rest);
            lemma_le_limit_fits(rest.len());
        }
        k -= 1;
        value = value * 256 + bytes[start + k] as u64;
    }
    value
}

} // verus!
