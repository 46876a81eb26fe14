//! The checksum that identifies an entry whose name is not stored.
//!
//! The format contract fixes CRC-32 (the IEEE polynomial in its reflected
//! form, initial state and final mask both `0xFFFF_FFFF`) over the UTF-8
//! bytes of the name. No case folding or other normalization is applied:
//! the bytes of the name are hashed exactly as they are.

use vstd::prelude::*;
use vstd::utf8::encode_utf8;

verus! {

/// The reflected IEEE CRC-32 polynomial.
pub open spec fn crc_poly() -> u32 {
    0xEDB88320u32
}

/// One shift-and-conditionally-xor round of the bitwise CRC-32 update.
pub open spec fn crc_shift(s: u32) -> u32 {
    if s & 1 == 1 {
        (s >> 1) ^ crc_poly()
    } else {
        s >> 1
    }
}

/// `crc_shift` applied `n` times to `s`.
pub open spec fn crc_rounds(s: u32, n: nat) -> u32
    decreases n,
{
    if n == 0 {
        s
    } else {
        crc_shift(crc_rounds(s, (n - 1) as nat))
    }
}

/// The CRC-32 state after absorbing one byte.
pub open spec fn crc_byte(s: u32, b: u8) -> u32 {
    crc_rounds(s ^ (b as u32), 8)
}

/// The CRC-32 state after absorbing `bytes` left to right, starting from `s`.
pub open spec fn crc_fold(s: u32, bytes: Seq<u8>) -> u32
    decreases bytes.len(),
{
    if bytes.len() == 0 {
        s
    } else {
        crc_byte(crc_fold(s, bytes.drop_last()), bytes.last())
    }
}

/// The CRC-32 checksum of a byte sequence.
pub open spec fn spec_crc32(bytes: Seq<u8>) -> u32 {
    crc_fold(0xFFFFFFFFu32, bytes) ^ 0xFFFFFFFFu32
}

/// The checksum of a name string: CRC-32 of its UTF-8 encoding.
pub open spec fn spec_hash_name(name: Seq<char>) -> u32 {
    spec_crc32(encode_utf8(name))
}

/// Absorbs one byte into a CRC-32 state.
fn crc_push(s: u32, b: u8) -> (r: u32)
    ensures
        r == crc_byte(s, b),
{
    let mut st: u32 = s ^ (b as u32);
    let mut k: usize = 0;
    while k < 8
        invariant
            k <= 8,
            st == crc_rounds(s ^ (b as u32), k as nat),
        decreases 8 - k,
    {
        st = if st & 1 == 1 {
            (st >> 1) ^ 0xEDB88320u32
        } else {
            st >> 1
        };
        k = k + 1;
    }
    st
}

/// The CRC-32 checksum of a byte slice.
pub fn crc32(bytes: &[u8]) -> (r: u32)
    ensures
        r == spec_crc32(bytes@),
{
    let n = bytes.len();
    let mut state: u32 = 0xFFFFFFFFu32;
    let mut i: usize = 0;
    while i < n
        invariant
            i <= n,
            n == bytes@.len(),
            state == crc_fold(0xFFFFFFFFu32, bytes@.take(i as int)),
        decreases n - i,
    {
        let b = *vstd::slice::slice_index_get(bytes, i);
        state = crc_push(state, b);
        proof {
            assert(bytes@.take(i + 1).drop_last() =~= bytes@.take(i as int));
            assert(bytes@.take(i + 1).last() == bytes@[i as int]);
        }
        i = i + 1;
    }
    proof {
        assert(bytes@.take(n as int) =~= bytes@);
    }
    state ^ 0xFFFFFFFFu32
}

/// The 32-bit identifier that stands for `name` when the name itself is not
/// recorded. Deterministic: the result is a pure function of the characters
/// of `name`, so repeated calls on equal strings give equal values.
pub fn hash_name(name: &str) -> (r: u32)
    ensures
        r == spec_hash_name(name@),
{
    crc32(name.as_bytes())
}

} // verus!
