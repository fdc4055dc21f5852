//! Bit fields: that the field which the index arithmetic cuts out of the
//! octets of an address holds the bits of the address, and that its top
//! bits under a leading 1 are a heap index.

use vstd::prelude::*;
use vstd::arithmetic::power2::{lemma2_to64, lemma_pow2_unfold, pow2};
use crate::heap::heap_index;
use crate::prefix::bit_at;

verus! {

/// Bit facts about the top `d` bits of a `bits`-wide field `k`.
proof fn lemma_field_step(k: u32, bits: u32, d: u32)
    by (bit_vector)
    requires
        1 <= bits <= 30,
        1 <= d <= bits,
        k < (1u32 << bits),
    ensures
        (k >> ((bits - d) as u32)) == 2 * (k >> ((bits - d + 1) as u32)) + ((k >> ((bits - d) as u32))
            & 1),
        (1u32 << d) == 2 * (1u32 << ((d - 1) as u32)),
        (k >> ((bits - d) as u32)) < (1u32 << d),
        ((k >> ((bits - d) as u32)) & 1) <= 1,
        (1u32 << d) <= 0x4000_0000,
{
}

proof fn lemma_field_top(k: u32, bits: u32)
    by (bit_vector)
    requires
        1 <= bits <= 30,
        k < (1u32 << bits),
    ensures
        (k >> bits) == 0,
        (1u32 << 0) == 1,
{
}

/// A left shift of 1 is a power of two.
pub proof fn lemma_shl_pow2(d: u32)
    requires
        d <= 30,
    ensures
        (1u32 << d) == pow2(d as nat),
        (1u32 << d) <= 0x4000_0000,
    decreases d,
{
    if d == 0 {
        lemma2_to64();
        assert((1u32 << 0u32) == 1) by (bit_vector);
    } else {
        lemma_shl_pow2((d - 1) as u32);
        lemma_pow2_unfold(d as nat);
        assert((1u32 << d) == 2 * (1u32 << ((d - 1) as u32)) && (1u32 << d) <= 0x4000_0000) by (bit_vector)
            requires
                1 <= d <= 30,
        ;
    }
}

/// Where bit `off + j` lies, counted from the octet that holds bit `off`.
pub proof fn lemma_bit_place(off: int, j: int)
    requires
        0 <= off,
        0 <= j,
    ensures
        (off + j) / 8 == off / 8 + (off % 8 + j) / 8,
        (off + j) % 8 == (off % 8 + j) % 8,
{
}

/// Bit `j`, counted from the top, of the `bits`-wide field `k`.
pub open spec fn field_bit(k: u32, bits: u32, j: int) -> bool {
    ((k >> ((bits - 1 - j) as u32)) & 1) == 1
}

/// Whether bit `j` of the `bits`-wide field `k` is bit `off + j` of `o`, for
/// every `j`.
pub open spec fn field_matches(o: Seq<u8>, off: int, bits: u32, k: u32) -> bool {
    forall|j: int| 0 <= j < bits ==> bit_at(o, off + j) == #[trigger] field_bit(k, bits, j)
}

/// The top `d` bits of a field that matches `o`, put under a leading 1, are
/// the heap index of those `d` bits.
pub proof fn lemma_field_heap_index(o: Seq<u8>, off: int, bits: u32, k: u32, d: u32)
    requires
        1 <= bits <= 30,
        d <= bits,
        k < (1u32 << bits),
        field_matches(o, off, bits, k),
    ensures
        (k >> ((bits - d) as u32)) + (1u32 << d) == heap_index(o, off, d as nat),
        (k >> ((bits - d) as u32)) < (1u32 << d),
        (1u32 << d) <= 0x4000_0000,
    decreases d,
{
    if d == 0 {
        lemma_field_top(k, bits);
    } else {
        lemma_field_heap_index(o, off, bits, k, (d - 1) as u32);
        lemma_field_step(k, bits, d);
        let j: int = d - 1;
        assert(bit_at(o, off + j) == field_bit(k, bits, j));
    }
}

/// A field put together from four octets holds the bits of those octets.
pub proof fn lemma_field_four(a0: u32, a1: u32, a2: u32, a3: u32, boff: u32, bits: u32, j: u32)
    by (bit_vector)
    requires
        a0 < 256,
        a1 < 256,
        a2 < 256,
        a3 < 256,
        boff < 8,
        1 <= bits <= 30,
        24 < boff + bits,
        boff + bits <= 32,
        j < bits,
    ensures
        ({
            let bend = (boff + bits) as u32;
            let k = ((a0 & (((1u32 << ((8 - boff) as u32)) - 1) as u32)) << ((bend - 8) as u32)) | (a1
                << ((bend - 16) as u32)) | (a2 << ((bend - 24) as u32)) | (a3 >> ((32
                - bend) as u32));
            let pos = (boff + j) as u32;
            let byte = if pos < 8 {
                a0
            } else if pos < 16 {
                a1
            } else if pos < 24 {
                a2
            } else {
                a3
            };
            &&& (1u32 << ((8 - boff) as u32)) >= 1
            &&& k < (1u32 << bits)
            &&& (k >> ((bits - 1 - j) as u32)) & 1 == (byte >> ((7 - (pos % 8)) as u32)) & 1
        }),
{
}

/// A field put together from three octets holds the bits of those octets.
pub proof fn lemma_field_three(a0: u32, a1: u32, a2: u32, boff: u32, bits: u32, j: u32)
    by (bit_vector)
    requires
        a0 < 256,
        a1 < 256,
        a2 < 256,
        boff < 8,
        1 <= bits <= 30,
        16 < boff + bits,
        boff + bits <= 24,
        j < bits,
    ensures
        ({
            let bend = (boff + bits) as u32;
            let k = ((a0 & (((1u32 << ((8 - boff) as u32)) - 1) as u32)) << ((bend - 8) as u32)) | (a1
                << ((bend - 16) as u32)) | (a2 >> ((24 - bend) as u32));
            let pos = (boff + j) as u32;
            let byte = if pos < 8 {
                a0
            } else if pos < 16 {
                a1
            } else {
                a2
            };
            &&& (1u32 << ((8 - boff) as u32)) >= 1
            &&& k < (1u32 << bits)
            &&& (k >> ((bits - 1 - j) as u32)) & 1 == (byte >> ((7 - (pos % 8)) as u32)) & 1
        }),
{
}

/// A field put together from two octets holds the bits of those octets.
pub proof fn lemma_field_two(a0: u32, a1: u32, boff: u32, bits: u32, j: u32)
    by (bit_vector)
    requires
        a0 < 256,
        a1 < 256,
        boff < 8,
        1 <= bits <= 30,
        8 < boff + bits,
        boff + bits <= 16,
        j < bits,
    ensures
        ({
            let bend = (boff + bits) as u32;
            let k = ((a0 & (((1u32 << ((8 - boff) as u32)) - 1) as u32)) << ((bend - 8) as u32)) | (a1
                >> ((16 - bend) as u32));
            let pos = (boff + j) as u32;
            let byte = if pos < 8 {
                a0
            } else {
                a1
            };
            &&& (1u32 << ((8 - boff) as u32)) >= 1
            &&& k < (1u32 << bits)
            &&& (k >> ((bits - 1 - j) as u32)) & 1 == (byte >> ((7 - (pos % 8)) as u32)) & 1
        }),
{
}

/// A field cut out of one octet holds the bits of that octet.
pub proof fn lemma_field_one(a0: u32, boff: u32, bits: u32, j: u32)
    by (bit_vector)
    requires
        a0 < 256,
        boff < 8,
        1 <= bits <= 30,
        boff + bits <= 8,
        j < bits,
    ensures
        ({
            let bend = (boff + bits) as u32;
            let k = (a0 >> ((8 - bend) as u32)) & (((1u32 << bits) - 1) as u32);
            let pos = (boff + j) as u32;
            &&& (1u32 << bits) >= 1
            &&& k < (1u32 << bits)
            &&& (k >> ((bits - 1 - j) as u32)) & 1 == (a0 >> ((7 - (pos % 8)) as u32)) & 1
        }),
{
}

} // verus!
