//! Small bit and byte helpers shared by the block parsers.

use vstd::prelude::*;

verus! {

/// Whether bit `n` of `input` is set; positions past bit 63 are never set.
pub open spec fn bit_at(input: u64, n: u64) -> bool {
    n < 64 && (input & (1u64 << n)) != 0
}

/// Returns true if the bit at position `n` is set.
pub fn get_bit_at(input: u64, n: u64) -> (r: bool)
    ensures
        r == bit_at(input, n),
{
    if n < 64 {
        input & (1u64 << n) != 0
    } else {
        false
    }
}

/// Byte `i` of `x`, counted from the most significant byte.
pub open spec fn be_byte(x: u64, i: int) -> u8 {
    ((x >> ((8 * (7 - i)) as u64)) & 0xff) as u8
}

/// Splits a 64-bit number into its eight bytes, most significant first.
pub fn split_u64(x: u64) -> (r: [u8; 8])
    ensures
        forall|i: int| 0 <= i < 8 ==> r@[i] == be_byte(x, i),
{
    let b1: u8 = ((x >> 56u64) & 0xff) as u8;
    let b2: u8 = ((x >> 48u64) & 0xff) as u8;
    let b3: u8 = ((x >> 40u64) & 0xff) as u8;
    let b4: u8 = ((x >> 32u64) & 0xff) as u8;
    let b5: u8 = ((x >> 24u64) & 0xff) as u8;
    let b6: u8 = ((x >> 16u64) & 0xff) as u8;
    let b7: u8 = ((x >> 8u64) & 0xff) as u8;
    let b8: u8 = ((x >> 0u64) & 0xff) as u8;
    [b1, b2, b3, b4, b5, b6, b7, b8]
}

/// Returns true when the value is greater than zero.
pub fn to_bool(i: u8) -> (r: bool)
    ensures
        r == (i > 0),
{
    i > 0
}

/// Copies sixteen bytes into an array.
pub fn array16(src: &[u8]) -> (r: [u8; 16])
    requires
        src@.len() == 16,
    ensures
        r@ == src@,
{
    let mut out = [0u8;16];
    let mut i: usize = 0;
    while i < 16
        invariant
            i <= 16,
            src@.len() == 16,
            forall|j: int| 0 <= j < i ==> out@[j] == src@[j],
        decreases 16 - i,
    {
        out[i] = src[i];
        i += 1;
    }
    assert(out@ =~= src@);
    out
}

/// Copies twelve bytes into an array.
pub fn array12(src: &[u8]) -> (r: [u8; 12])
    requires
        src@.len() == 12,
    ensures
        r@ == src@,
{
    let mut out = [0u8;12];
    let mut i: usize = 0;
    while i < 12
        invariant
            i <= 12,
            src@.len() == 12,
            forall|j: int| 0 <= j < i ==> out@[j] == src@[j],
        decreases 12 - i,
    {
        out[i] = src[i];
        i += 1;
    }
    assert(out@ =~= src@);
    out
}

/// Whether two byte strings are the same.
pub fn bytes_eq(a: &[u8], b: &[u8]) -> (r: bool)
    ensures
        r == (a@ == b@),
{
    if a.len() != b.len() {
        return false;
    }
    let mut i: usize = 0;
    while i < a.len()
        invariant
            i <= a@.len(),
            a@.len() == b@.len(),
            forall|j: int| 0 <= j < i ==> a@[j] == b@[j],
        decreases a@.len() - i,
    {
        if a[i] != b[i] {
            return false;
        }
        i += 1;
    }
    assert(a@ =~= b@);
    true
}

} // verus!
