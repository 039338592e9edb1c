//! Bit addressing inside display rows and sprite bytes.
//!
//! Bits are numbered from the most significant end: bit 0 of a byte is its
//! highest bit, bit 7 its lowest; bit 0 of a 64-bit display row is the
//! leftmost pixel, bit 63 the rightmost.
use vstd::prelude::*;
use vstd::arithmetic::power2::{pow2, lemma2_to64};

verus! {

/// The pixel `x` (0 = leftmost) of a 64-pixel display row.
pub open spec fn row_bit(row: u64, x: u8) -> bool {
    (row >> ((63 - x) as u64)) & 1 == 1
}

/// The mask that selects pixel `x` of a display row.
pub open spec fn row_mask(x: u8) -> u64 {
    1u64 << ((63 - x) as u64)
}

/// The bit `x` (0 = most significant) of a byte.
pub open spec fn byte_bit(b: u8, x: u8) -> bool {
    (b >> ((7 - x) as u8)) & 1 == 1
}

/// The mask that selects bit `x` (0 = most significant) of a byte.
pub open spec fn byte_mask(x: u8) -> u8 {
    1u8 << ((7 - x) as u8)
}

/// Reads pixel `x` of a display row.
pub fn check_bit_64(row: u64, x: u8) -> (r: bool)
    requires
        x < 64,
    ensures
        r == row_bit(row, x),
{
    let shl = 63 - x;
    (row >> shl & 1_u64) == 1
}

/// Sets pixel `x` of a display row to `v`, leaving the other pixels as they were.
pub fn set_bit_64(row: &mut u64, x: u8, v: bool)
    requires
        x < 64,
    ensures
        *final(row) == if v { *old(row) | row_mask(x) } else { *old(row) & !row_mask(x) },
{
    let mask = 1_u64 << (63 - x);
    if v {
        *row |= mask;
    } else {
        *row &= !mask;
    }
}

/// Reads bit `x` (0 = most significant) of a byte.
pub fn check_bit_8(row: u8, x: u8) -> (r: bool)
    requires
        x < 8,
    ensures
        r == byte_bit(row, x),
{
    let shl = 7 - x;
    (row >> shl & 1_u8) == 1
}

/// Sets bit `x` (0 = most significant) of a byte to `v`, leaving the other bits as they were.
pub fn set_bit_8(row: &mut u8, x: u8, v: bool)
    requires
        x < 8,
    ensures
        *final(row) == if v { *old(row) | byte_mask(x) } else { *old(row) & !byte_mask(x) },
{
    let mask = 1_u8 << (7 - x);
    if v {
        *row |= mask;
    } else {
        *row &= !mask;
    }
}

/// Setting pixel `x` of a row and reading it back gives the value set; every
/// other pixel keeps its value.
pub proof fn lemma_set_then_check_64(row: u64, x: u8, y: u8, v: bool)
    requires
        x < 64,
        y < 64,
    ensures
        row_bit(if v { row | row_mask(x) } else { row & !row_mask(x) }, x) == v,
        x != y ==> row_bit(if v { row | row_mask(x) } else { row & !row_mask(x) }, y)
            == row_bit(row, y),
{
    let xs = (63 - x) as u64;
    let ys = (63 - y) as u64;
    assert(((row | (1u64 << xs)) >> xs) & 1 == 1) by (bit_vector)
        requires xs < 64;
    assert(((row & !(1u64 << xs)) >> xs) & 1 == 0) by (bit_vector)
        requires xs < 64;
    assert(xs != ys ==> ((row | (1u64 << xs)) >> ys) & 1 == (row >> ys) & 1) by (bit_vector)
        requires xs < 64, ys < 64;
    assert(xs != ys ==> ((row & !(1u64 << xs)) >> ys) & 1 == (row >> ys) & 1) by (bit_vector)
        requires xs < 64, ys < 64;
}

/// Setting bit `x` of a byte and reading it back gives the value set; every
/// other bit keeps its value.
pub proof fn lemma_set_then_check_8(b: u8, x: u8, y: u8, v: bool)
    requires
        x < 8,
        y < 8,
    ensures
        byte_bit(if v { b | byte_mask(x) } else { b & !byte_mask(x) }, x) == v,
        x != y ==> byte_bit(if v { b | byte_mask(x) } else { b & !byte_mask(x) }, y)
            == byte_bit(b, y),
{
    let xs = (7 - x) as u8;
    let ys = (7 - y) as u8;
    assert(((b | (1u8 << xs)) >> xs) & 1 == 1) by (bit_vector)
        requires xs < 8;
    assert(((b & !(1u8 << xs)) >> xs) & 1 == 0) by (bit_vector)
        requires xs < 8;
    assert(xs != ys ==> ((b | (1u8 << xs)) >> ys) & 1 == (b >> ys) & 1) by (bit_vector)
        requires xs < 8, ys < 8;
    assert(xs != ys ==> ((b & !(1u8 << xs)) >> ys) & 1 == (b >> ys) & 1) by (bit_vector)
        requires xs < 8, ys < 8;
}


/// Packs the first eight flags of `bits` into a byte, the first flag in the
/// most significant bit.
pub fn from_bit_array(bits: &[bool]) -> (r: u8)
    requires
        bits@.len() >= 8,
    ensures
        forall|k: u8| k < 8 ==> byte_bit(r, k) == bits@[k as int],
{
    let mut ret = 0_u8;
    let mut i: u8 = 0;
    assert(forall|k: u8| k < 8 ==> !byte_bit(0u8, k)) by {
        assert forall|k: u8| k < 8 implies !byte_bit(0u8, k) by {
            let ks = (7 - k) as u8;
            assert((0u8 >> ks) & 1 == 0) by (bit_vector);
        }
    }
    while i < 8
        invariant
            i <= 8,
            bits@.len() >= 8,
            forall|k: u8| k < i ==> byte_bit(ret, k) == bits@[k as int],
            forall|k: u8| i <= k < 8 ==> !byte_bit(ret, k),
        decreases 8 - i,
    {
        let old_ret = ret;
        set_bit_8(&mut ret, i, bits[i as usize]);
        proof {
            assert forall|k: u8| k < 8 && k != i implies byte_bit(ret, k) == byte_bit(old_ret, k) by {
                lemma_set_then_check_8(old_ret, i, k, bits@[i as int]);
            }
            lemma_set_then_check_8(old_ret, i, i, bits@[i as int]);
        }
        i += 1;
    }
    ret
}

/// The number of significant bits of `b`: the least `n` with `b < 2^n`.
pub open spec fn bit_length(b: u8) -> nat {
    if b == 0 { 0 }
    else if b < 2 { 1 }
    else if b < 4 { 2 }
    else if b < 8 { 3 }
    else if b < 16 { 4 }
    else if b < 32 { 5 }
    else if b < 64 { 6 }
    else if b < 128 { 7 }
    else { 8 }
}

/// The number of significant bits of `b`.
pub fn num_bits(b: u8) -> (r: u8)
    ensures
        r == bit_length(b),
        (b as int) < pow2(r as nat),
        r == 0 || pow2((r - 1) as nat) <= b,
{
    proof {
        lemma2_to64();
    }
    match b {
        0 => 0,
        1 => 1,
        2..4 => 2,
        4..8 => 3,
        8..16 => 4,
        16..32 => 5,
        32..64 => 6,
        64..128 => 7,
        128..=255 => 8,
    }
}

} // verus!
