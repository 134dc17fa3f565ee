//! Decoding of a short decimal number, held in an eight-byte window, into
//! tenths.

use crate::word::{read_word_at, window, word_at};
use vstd::prelude::*;

verus! {

/// The byte `-`.
pub const MINUS: u8 = 0x2d;

/// The byte `.`.
pub const POINT: u8 = 0x2e;

/// Whether `b` is an ASCII digit.
pub open spec fn is_digit(b: u8) -> bool {
    0x30 <= b <= 0x39
}

/// The value of the ASCII digit `b`.
pub open spec fn digit(b: u8) -> int {
    b - 0x30
}

/// Whether `s` starts with an unsigned number: one or two digits, a point, one digit.
pub open spec fn is_magnitude(s: Seq<u8>) -> bool {
    &&& s.len() >= 4
    &&& is_digit(s[0])
    &&& {
        ||| s[1] == POINT && is_digit(s[2])
        ||| is_digit(s[1]) && s[2] == POINT && is_digit(s[3])
    }
}

/// Ten times the unsigned number that `s` starts with.
pub open spec fn magnitude(s: Seq<u8>) -> int {
    if s[1] == POINT {
        10 * digit(s[0]) + digit(s[2])
    } else {
        100 * digit(s[0]) + 10 * digit(s[1]) + digit(s[3])
    }
}

/// Whether the window `w` starts with a number of the form `-? D D? . D`.
/// What follows the number is not constrained.
pub open spec fn is_decimal(w: Seq<u8>) -> bool {
    &&& w.len() == 8
    &&& if w[0] == MINUS {
        is_magnitude(w.skip(1))
    } else {
        is_magnitude(w)
    }
}

/// Ten times the number that the window `w` starts with.
pub open spec fn decimal_tenths(w: Seq<u8>) -> int {
    if w[0] == MINUS {
        -magnitude(w.skip(1))
    } else {
        magnitude(w)
    }
}

/// The eight bytes of `w` read as one little-endian word.
pub open spec fn le_word(w: Seq<u8>) -> u64 {
    (w[0] as u64) | (w[1] as u64) << 8 | (w[2] as u64) << 16 | (w[3] as u64) << 24
        | (w[4] as u64) << 32 | (w[5] as u64) << 40 | (w[6] as u64) << 48 | (w[7] as u64) << 56
}

/// The bit index at which the point's marker bit is looked for: among the
/// bytes one to three, the lowest whose bit four is clear; 64 if none is.
pub open spec fn point_bit(word: u64) -> u32 {
    if word & 0x1000 == 0 {
        12
    } else if word & 0x10_0000 == 0 {
        20
    } else if word & 0x1000_0000 == 0 {
        28
    } else {
        64
    }
}

/// All ones if bit four of the word's first byte is clear, as it is in `-`
/// and in no digit; zero otherwise.
pub open spec fn sign_mask(word: u64) -> u64 {
    if word & 0x10 == 0 {
        0xffff_ffff_ffff_ffff
    } else {
        0
    }
}

/// The three digits of the word, moved to fixed places: the tenths in byte
/// four, the units in byte two, the tens in byte one.
pub open spec fn aligned_digits(pos: u32, word: u64) -> u64 {
    ((word & !(sign_mask(word) & 0xff)) << (28u32.wrapping_sub(pos) & 63)) & 0x0f_000f_0f00
}

/// The magnitude that the aligned digits `d` stand for, below 1024.
pub open spec fn packed_value(d: u64) -> u64 {
    (d.wrapping_mul(0x640a_0001) >> 32) & 0x3ff
}

/// What the word stands for if the point's marker is at bit `pos`: the
/// magnitude of its aligned digits, below zero if the first byte is a minus sign.
pub open spec fn converted(pos: u32, word: u64) -> int {
    let m = packed_value(aligned_digits(pos, word));
    if word & 0x10 == 0 {
        -(m as int)
    } else {
        m as int
    }
}

/// What the decoder makes of any word, well formed or not.
pub open spec fn word_value(word: u64) -> int {
    converted(point_bit(word), word)
}

/// The marker bits of `!word`, one per byte from the second to the fourth.
pub open spec fn markers(word: u64) -> u64 {
    !word & 0x1010_1000
}

proof fn lemma_marker_places(x: u64, t: u64)
    by (bit_vector)
    requires
        x & 0x1010_1000 == x,
        t < 64,
        (x >> t) & 1 == 1,
    ensures
        t == 12 || t == 20 || t == 28,
{
}

proof fn lemma_marker_set(word: u64)
    by (bit_vector)
    ensures
        word & 0x1000 == 0 ==> (markers(word) >> 12) & 1 == 1,
        word & 0x10_0000 == 0 ==> (markers(word) >> 20) & 1 == 1,
        word & 0x1000_0000 == 0 ==> (markers(word) >> 28) & 1 == 1,
        word & 0x1000 != 0 ==> (markers(word) >> 12) & 1 == 0,
        word & 0x10_0000 != 0 ==> (markers(word) >> 20) & 1 == 0,
        word & 0x1000_0000 != 0 ==> (markers(word) >> 28) & 1 == 0,
        markers(word) & 0x1010_1000 == markers(word),
        markers(word) == 0 <==> word & 0x1000 != 0 && word & 0x10_0000 != 0 && word
            & 0x1000_0000 != 0,
{
}

/// Counting the trailing zeros of the marker bits finds the point.
pub proof fn lemma_point_bit(word: u64)
    ensures
        markers(word).trailing_zeros() == point_bit(word),
{
    let x = markers(word);
    let t = x.trailing_zeros();
    vstd::std_specs::bits::axiom_u64_trailing_zeros(x);
    lemma_marker_set(word);
    if t < 64 {
        lemma_marker_places(x, t as u64);
        assert((x >> 12u64) & 1 == 0 || t <= 12);
        assert((x >> 20u64) & 1 == 0 || t <= 20);
    }
}

/// Reads the window as one little-endian word.
pub fn read_word(bytes: &[u8; 8]) -> (word: u64)
    ensures
        word == le_word(bytes@),
{
    (bytes[0] as u64) | (bytes[1] as u64) << 8 | (bytes[2] as u64) << 16 | (bytes[3] as u64) << 24
        | (bytes[4] as u64) << 32 | (bytes[5] as u64) << 40 | (bytes[6] as u64) << 48 | (
    bytes[7] as u64) << 56
}

proof fn lemma_sign(word: u64, abs_value: u64)
    by (bit_vector)
    requires
        abs_value <= 0x3ff,
    ensures
        word & 0x10 == 0 ==> 0u64.wrapping_sub((!word >> 4) & 1) == 0xffff_ffff_ffff_ffffu64,
        word & 0x10 != 0 ==> 0u64.wrapping_sub((!word >> 4) & 1) == 0u64,
        (abs_value ^ 0xffff_ffff_ffff_ffffu64).wrapping_sub(0xffff_ffff_ffff_ffffu64) as i64 == -(
        abs_value as i64),
        (abs_value ^ 0u64).wrapping_sub(0u64) as i64 == abs_value as i64,
{
}

/// Turns the word into tenths, given the bit index of the point's marker.
pub fn convert_into_number(decimal_sep_pos: u32, word: u64) -> (r: i64)
    ensures
        r == converted(decimal_sep_pos, word),
        -1023 <= r <= 1023,
{
    let shift: u32 = 28u32.wrapping_sub(decimal_sep_pos) & 63;
    assert(shift < 64) by (bit_vector)
        requires
            shift == 28u32.wrapping_sub(decimal_sep_pos) & 63,
    ;
    // all ones if negative, zero otherwise
    let signed: u64 = 0u64.wrapping_sub((!word >> 4) & 1);
    let design_mask: u64 = !(signed & 0xff);
    // the digits at fixed places, each reduced to its value
    let digits: u64 = ((word & design_mask) << shift) & 0x0f_000f_0f00;
    // one multiplication weighs tenths, units and tens by 1, 10 and 100
    let abs_value: u64 = (digits.wrapping_mul(0x640a_0001) >> 32) & 0x3ff;
    proof {
        assert(abs_value <= 0x3ff) by (bit_vector)
            requires
                abs_value == (digits.wrapping_mul(0x640a_0001) >> 32) & 0x3ff,
        ;
        lemma_sign(word, abs_value);
    }
    #[verifier::truncate]
    ((abs_value ^ signed).wrapping_sub(signed) as i64)
}

/// Decodes the number at the start of the window into tenths.
///
/// For a window that starts with `-? D D? . D` the result is ten times the
/// number, whatever follows it. Any other window gives the value that the
/// same bit operations make of it, between -1023 and 1023.
pub fn parse_number(bytes: &[u8; 8]) -> (r: i64)
    ensures
        r == word_value(le_word(bytes@)),
        is_decimal(bytes@) ==> r == decimal_tenths(bytes@),
        -1023 <= r <= 1023,
{
    let word = read_word(bytes);
    proof {
        if is_decimal(bytes@) {
            lemma_decimal_value(bytes@);
        }
    }
    parse_word(word)
}

/// Decodes the number in the low bytes of `word` into tenths.
pub fn parse_word(word: u64) -> (r: i64)
    ensures
        r == word_value(word),
        -1023 <= r <= 1023,
{
    let decimal_sep_pos = (!word & 0x1010_1000).trailing_zeros();
    proof {
        lemma_point_bit(word);
    }
    convert_into_number(decimal_sep_pos, word)
}

/// Decodes the number that starts at `p` in `buf` into tenths. Where `buf`
/// ends within eight bytes of `p`, the window is filled up with zeros.
pub fn parse_at(buf: &[u8], p: usize) -> (r: i64)
    ensures
        r == word_value(word_at(buf@, p as int)),
        is_decimal(window(buf@, p as int)) ==> r == decimal_tenths(window(buf@, p as int)),
        -1023 <= r <= 1023,
{
    proof {
        let w = window(buf@, p as int);
        assert(le_word(w) == word_at(buf@, p as int));
        if is_decimal(w) {
            lemma_decimal_value(w);
        }
    }
    parse_word(read_word_at(buf, p))
}

/// On a window that starts with a number, the decoder gives its tenths.
pub proof fn lemma_decimal_value(w: Seq<u8>)
    requires
        is_decimal(w),
    ensures
        word_value(le_word(w)) == decimal_tenths(w),
{
    lemma_word_of_digits(w[0], w[1], w[2], w[3], w[4], w[5], w[6], w[7]);
}

proof fn lemma_word_of_digits(b0: u8, b1: u8, b2: u8, b3: u8, b4: u8, b5: u8, b6: u8, b7: u8)
    by (bit_vector)
    ensures
        ({
            let word = (b0 as u64) | (b1 as u64) << 8 | (b2 as u64) << 16 | (b3 as u64) << 24 | (
            b4 as u64) << 32 | (b5 as u64) << 40 | (b6 as u64) << 48 | (b7 as u64) << 56;
            &&& is_digit(b0) && b1 == POINT && is_digit(b2) ==> word_value(word) == 10 * (b0
                - 0x30) + (b2 - 0x30)
            &&& is_digit(b0) && is_digit(b1) && b2 == POINT && is_digit(b3) ==> word_value(word)
                == 100 * (b0 - 0x30) + 10 * (b1 - 0x30) + (b3 - 0x30)
            &&& b0 == MINUS && is_digit(b1) && b2 == POINT && is_digit(b3) ==> word_value(word)
                == -(10 * (b1 - 0x30) + (b3 - 0x30))
            &&& b0 == MINUS && is_digit(b1) && is_digit(b2) && b3 == POINT && is_digit(b4)
                ==> word_value(word) == -(100 * (b1 - 0x30) + 10 * (b2 - 0x30) + (b4 - 0x30))
        }),
{
}

} // verus!
