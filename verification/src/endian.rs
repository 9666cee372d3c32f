//! Little-endian integers as they lie in a byte buffer.
//!
//! The model is arithmetic: byte `i` of an encoding is digit `i` of the number
//! in base 256. Encoding a number on the way into a buffer is done by
//! `gpt_disk_types`; decoding a field is done here.

use gpt_disk_types::{LbaLe, U32Le};
use vstd::prelude::*;

verus! {

/// The number of values that `width` bytes can tell apart: 256 to the power `width`.
pub open spec fn radix(width: nat) -> nat
    decreases width,
{
    if width == 0 {
        1
    } else {
        256 * radix((width - 1) as nat)
    }
}

/// The little-endian encoding of `value` in `width` bytes, lowest digit first.
/// Digits beyond `width` are dropped.
pub open spec fn le_bytes(value: nat, width: nat) -> Seq<u8>
    decreases width,
{
    if width == 0 {
        Seq::empty()
    } else {
        seq![(value % 256) as u8] + le_bytes(value / 256, (width - 1) as nat)
    }
}

/// The number that `bytes` encodes in little-endian order.
pub open spec fn le_value(bytes: Seq<u8>) -> nat
    decreases bytes.len(),
{
    if bytes.len() == 0 {
        0
    } else {
        bytes[0] as nat + 256 * le_value(bytes.drop_first())
    }
}

/// An encoding has as many bytes as were asked for.
pub proof fn lemma_le_bytes_len(value: nat, width: nat)
    ensures
        le_bytes(value, width).len() == width,
    decreases width,
{
    if width > 0 {
        lemma_le_bytes_len(value / 256, (width - 1) as nat);
    }
}

/// What a byte sequence encodes is below the radix of its length.
pub proof fn lemma_le_value_bound(bytes: Seq<u8>)
    ensures
        le_value(bytes) < radix(bytes.len()),
    decreases bytes.len(),
{
    if bytes.len() > 0 {
        lemma_le_value_bound(bytes.drop_first());
    }
}

/// Encoding a number that fits and decoding again gives the number back.
pub proof fn lemma_le_value_of_le_bytes(value: nat, width: nat)
    requires
        value < radix(width),
    ensures
        le_value(le_bytes(value, width)) == value,
    decreases width,
{
    if width > 0 {
        let rest = le_bytes(value / 256, (width - 1) as nat);
        lemma_le_value_of_le_bytes(value / 256, (width - 1) as nat);
        assert(le_bytes(value, width).drop_first() =~= rest);
    }
}

/// A longer byte string can hold at least as many values.
pub proof fn lemma_radix_monotonic(shorter: nat, longer: nat)
    requires
        shorter <= longer,
    ensures
        radix(shorter) <= radix(longer),
    decreases longer,
{
    if shorter < longer {
        lemma_radix_monotonic(shorter, (longer - 1) as nat);
    }
}

/// Four bytes hold exactly the `u32` values, eight bytes the `u64` values.
pub proof fn lemma_radix_of_field_widths()
    ensures
        radix(4) == 0x1_0000_0000,
        radix(8) == 0x1_0000_0000_0000_0000,
{
    reveal_with_fuel(radix, 9);
}

/// The eight bytes of a logical block address as the header stores it.
///
/// Calls `gpt_disk_types::LbaLe::from_u64` and hands out the bytes it holds.
/// Trusted: that these are the little-endian bytes of `value`, as
/// `u64::to_le_bytes` gives them.
#[verifier::external_body]
pub(crate) fn lba_le_bytes(value: u64) -> (bytes: [u8; 8])
    ensures
        bytes@ == le_bytes(value as nat, 8),
{
    LbaLe::from_u64(value).0.0
}

/// The four bytes of a 32-bit number as the header stores it.
///
/// Calls `gpt_disk_types::U32Le::from_u32` and hands out the bytes it holds.
/// Trusted: that these are the little-endian bytes of `value`, as
/// `u32::to_le_bytes` gives them.
#[verifier::external_body]
pub(crate) fn u32_le_bytes(value: u32) -> (bytes: [u8; 4])
    ensures
        bytes@ == le_bytes(value as nat, 4),
{
    U32Le::from_u32(value).0
}

/// A slice is no longer than `usize` can count.
pub(crate) proof fn lemma_len_fits(buffer: &[u8])
    ensures
        buffer@.len() <= usize::MAX,
{
    vstd::slice::axiom_spec_len(buffer);
}

/// Reads the little-endian number in the `width` bytes of `buffer` from `offset` on.
pub fn read_le(buffer: &[u8], offset: usize, width: usize) -> (value: u64)
    requires
        width <= 8,
        offset + width <= buffer@.len(),
    ensures
        value == le_value(buffer@.subrange(offset as int, offset + width)),
{
    let mut value: u64 = 0;
    let mut i: usize = width;
    proof {
        lemma_len_fits(buffer);
    }
    while i > 0
        invariant
            i <= width <= 8,
            offset + width <= buffer@.len() <= usize::MAX,
            value == le_value(buffer@.subrange(offset + i, offset + width)),
        decreases i,
    {
        let ghost tail = buffer@.subrange(offset + i, offset + width);
        let ghost longer = buffer@.subrange(offset + i - 1, offset + width);
        proof {
            lemma_le_value_bound(tail);
            lemma_le_value_bound(longer);
            reveal_with_fuel(radix, 9);
            assert(longer.drop_first() =~= tail);
            assert(radix(longer.len()) <= radix(8)) by {
                lemma_radix_monotonic(longer.len(), 8);
            }
        }
        i = i - 1;
        value = value * 256 + buffer[offset + i] as u64;
    }
    assert(buffer@.subrange(offset as int, offset + width) =~= buffer@.subrange(
        offset + 0,
        offset + width,
    ));
    value
}

} // verus!
