//! Operations on 32-bit words: rotation, wrapping addition, the two
//! expansion mixers and the little-endian byte split.

use vstd::prelude::*;
use vstd::wrapping::u32_specs::wrapping_add;

verus! {

/// `x` rotated right by `n` bit positions, for `0 < n < 32`.
pub open spec fn rotr(x: u32, n: u32) -> u32 {
    (x >> n) | (x << ((32 - n) as u32))
}

/// Sum of two words modulo 2^32.
pub open spec fn add32(x: u32, y: u32) -> u32 {
    wrapping_add(x, y)
}

/// First mixer of the table expansion.
pub open spec fn spec_f1(x: u32) -> u32 {
    rotr(x, 7) ^ rotr(x, 18) ^ (x >> 3)
}

/// Second mixer of the table expansion.
pub open spec fn spec_f2(x: u32) -> u32 {
    rotr(x, 17) ^ rotr(x, 19) ^ (x >> 10)
}

/// Byte `i` (0 is least significant) of a word.
pub open spec fn le_byte(w: u32, i: int) -> u8 {
    ((w >> ((8 * i) as u32)) & 0xff) as u8
}

/// The four bytes of a word, least significant first.
pub open spec fn le_bytes(w: u32) -> Seq<u8> {
    seq![le_byte(w, 0), le_byte(w, 1), le_byte(w, 2), le_byte(w, 3)]
}

/// The word whose little-endian bytes are `b[at .. at + 4]`.
pub open spec fn le_word(b: Seq<u8>, at: int) -> u32 {
    (b[at] as u32) | ((b[at + 1] as u32) << 8) | ((b[at + 2] as u32) << 16) | ((b[at + 3] as u32)
        << 24)
}

pub fn rotate_right(x: u32, n: u32) -> (r: u32)
    requires
        0 < n < 32,
    ensures
        r == rotr(x, n),
{
    (x >> n) | (x << (32 - n))
}

pub fn f1(x: u32) -> (r: u32)
    ensures
        r == spec_f1(x),
{
    rotate_right(x, 7) ^ rotate_right(x, 18) ^ (x >> 3)
}

pub fn f2(x: u32) -> (r: u32)
    ensures
        r == spec_f2(x),
{
    rotate_right(x, 17) ^ rotate_right(x, 19) ^ (x >> 10)
}

pub fn to_le_bytes(w: u32) -> (b: [u8; 4])
    ensures
        b@ == le_bytes(w),
{
    let b: [u8; 4] = [
        (w & 0xff) as u8,
        ((w >> 8) & 0xff) as u8,
        ((w >> 16) & 0xff) as u8,
        ((w >> 24) & 0xff) as u8,
    ];
    assert(w >> 0u32 == w) by (bit_vector);
    assert(b@ =~= le_bytes(w));
    b
}

pub fn from_le_bytes(b: &[u8; 32], at: usize) -> (w: u32)
    requires
        at + 4 <= 32,
    ensures
        w == le_word(b@, at as int),
{
    (b[at] as u32) | ((b[at + 1] as u32) << 8) | ((b[at + 2] as u32) << 16) | ((b[at + 3] as u32)
        << 24)
}

} // verus!
