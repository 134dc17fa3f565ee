//! Eight-byte little-endian words read out of a byte sequence.

use vstd::prelude::*;

verus! {

/// Eight bytes as one little-endian word.
pub open spec fn pack(b0: u8, b1: u8, b2: u8, b3: u8, b4: u8, b5: u8, b6: u8, b7: u8) -> u64 {
    (b0 as u64) | (b1 as u64) << 8 | (b2 as u64) << 16 | (b3 as u64) << 24 | (b4 as u64) << 32 | (
    b5 as u64) << 40 | (b6 as u64) << 48 | (b7 as u64) << 56
}

/// The byte of `s` at `i`, zero outside of `s`.
pub open spec fn byte_or_zero(s: Seq<u8>, i: int) -> u8 {
    if 0 <= i < s.len() {
        s[i]
    } else {
        0
    }
}

/// The little-endian word that starts at `i` in `s`, with zeros where `s` has ended.
pub open spec fn word_at(s: Seq<u8>, i: int) -> u64 {
    pack(
        byte_or_zero(s, i),
        byte_or_zero(s, i + 1),
        byte_or_zero(s, i + 2),
        byte_or_zero(s, i + 3),
        byte_or_zero(s, i + 4),
        byte_or_zero(s, i + 5),
        byte_or_zero(s, i + 6),
        byte_or_zero(s, i + 7),
    )
}

/// The eight bytes that start at `i` in `s`, with zeros where `s` has ended.
pub open spec fn window(s: Seq<u8>, i: int) -> Seq<u8> {
    Seq::new(8, |j: int| byte_or_zero(s, i + j))
}

/// The word that starts at `p` in `buf`; past the end of `buf` it reads zeros.
pub fn read_word_at(buf: &[u8], p: usize) -> (w: u64)
    ensures
        w == word_at(buf@, p as int),
{
    let avail: usize = if p < buf.len() {
        buf.len() - p
    } else {
        0
    };
    let b0: u8 = if avail > 0 { buf[p] } else { 0 };
    let b1: u8 = if avail > 1 { buf[p + 1] } else { 0 };
    let b2: u8 = if avail > 2 { buf[p + 2] } else { 0 };
    let b3: u8 = if avail > 3 { buf[p + 3] } else { 0 };
    let b4: u8 = if avail > 4 { buf[p + 4] } else { 0 };
    let b5: u8 = if avail > 5 { buf[p + 5] } else { 0 };
    let b6: u8 = if avail > 6 { buf[p + 6] } else { 0 };
    let b7: u8 = if avail > 7 { buf[p + 7] } else { 0 };
    (b0 as u64) | (b1 as u64) << 8 | (b2 as u64) << 16 | (b3 as u64) << 24 | (b4 as u64) << 32 | (
    b5 as u64) << 40 | (b6 as u64) << 48 | (b7 as u64) << 56
}

} // verus!
