//! A checksum of a key: the exclusive or of its eight-byte little-endian
//! words, the last one padded with zeros. Distinct keys may share a checksum.

use crate::word::{byte_or_zero, pack, read_word_at, word_at};
use vstd::prelude::*;

verus! {

/// `MASKS[i]` keeps the low `i + 1` bytes of a word.
pub const MASKS: [u64; 8] = [
    0xff,
    0xffff,
    0xff_ffff,
    0xffff_ffff,
    0xff_ffff_ffff,
    0xffff_ffff_ffff,
    0xff_ffff_ffff_ffff,
    0xffff_ffff_ffff_ffff,
];

/// The exclusive or of the words of `key` from offset `i` on, eight bytes apart.
pub open spec fn fold_from(key: Seq<u8>, i: int) -> u64
    decreases key.len() + 8 - i,
{
    if i < 0 || i >= key.len() {
        0
    } else {
        word_at(key, i) ^ fold_from(key, i + 8)
    }
}

/// The checksum of `key`.
pub open spec fn key_hash(key: Seq<u8>) -> u64 {
    fold_from(key, 0)
}

proof fn lemma_masked_pack(b0: u8, b1: u8, b2: u8, b3: u8, b4: u8, b5: u8, b6: u8, b7: u8)
    by (bit_vector)
    ensures
        pack(b0, b1, b2, b3, b4, b5, b6, b7) & 0xff == pack(b0, 0, 0, 0, 0, 0, 0, 0),
        pack(b0, b1, b2, b3, b4, b5, b6, b7) & 0xffff == pack(b0, b1, 0, 0, 0, 0, 0, 0),
        pack(b0, b1, b2, b3, b4, b5, b6, b7) & 0xff_ffff == pack(b0, b1, b2, 0, 0, 0, 0, 0),
        pack(b0, b1, b2, b3, b4, b5, b6, b7) & 0xffff_ffff == pack(b0, b1, b2, b3, 0, 0, 0, 0),
        pack(b0, b1, b2, b3, b4, b5, b6, b7) & 0xff_ffff_ffff == pack(b0, b1, b2, b3, b4, 0, 0, 0),
        pack(b0, b1, b2, b3, b4, b5, b6, b7) & 0xffff_ffff_ffff == pack(
            b0,
            b1,
            b2,
            b3,
            b4,
            b5,
            0,
            0,
        ),
        pack(b0, b1, b2, b3, b4, b5, b6, b7) & 0xff_ffff_ffff_ffff == pack(
            b0,
            b1,
            b2,
            b3,
            b4,
            b5,
            b6,
            0,
        ),
        pack(b0, b1, b2, b3, b4, b5, b6, b7) & 0xffff_ffff_ffff_ffff == pack(
            b0,
            b1,
            b2,
            b3,
            b4,
            b5,
            b6,
            b7,
        ),
        pack(b0, b1, b2, b3, b4, b5, b6, b7) & 0 == pack(0, 0, 0, 0, 0, 0, 0, 0),
        pack(0, 0, 0, 0, 0, 0, 0, 0) == 0,
{
}

proof fn lemma_xor(a: u64, b: u64, c: u64)
    by (bit_vector)
    ensures
        (a ^ b) ^ c == a ^ (b ^ c),
        a ^ b == b ^ a,
        a ^ 0 == a,
        a & 0xffff_ffff_ffff_ffff == a,
{
}

/// A word read from `buf` at `i` and cut down to the `n` bytes of it that lie
/// below `len` is the word of the first `len` bytes at `i`: what follows the
/// key in `buf` does not show.
pub proof fn lemma_masked_word(buf: Seq<u8>, len: int, i: int, n: int)
    requires
        0 <= i < len <= buf.len(),
        1 <= n <= 8,
        n == if len - i < 8 { len - i } else { 8 },
    ensures
        word_at(buf, i) & MASKS[n - 1] == word_at(buf.take(len), i),
{
    let key = buf.take(len);
    lemma_masked_pack(
        byte_or_zero(buf, i),
        byte_or_zero(buf, i + 1),
        byte_or_zero(buf, i + 2),
        byte_or_zero(buf, i + 3),
        byte_or_zero(buf, i + 4),
        byte_or_zero(buf, i + 5),
        byte_or_zero(buf, i + 6),
        byte_or_zero(buf, i + 7),
    );
    assert forall|j: int| i <= j < i + n implies byte_or_zero(key, j) == byte_or_zero(buf, j) by {}
    assert forall|j: int| i + n <= j < i + 8 implies byte_or_zero(key, j) == 0 by {}
}

/// Two buffers that start with the same `len` bytes give the same masked
/// word at each place within them, and so the same checksum: what follows
/// the key does not count.
pub proof fn lemma_rest_ignored(a: Seq<u8>, b: Seq<u8>, len: int, i: int)
    requires
        0 <= i < len <= a.len(),
        len <= b.len(),
        a.take(len) == b.take(len),
    ensures
        ({
            let n = if len - i < 8 { len - i } else { 8 };
            word_at(a, i) & MASKS[n - 1] == word_at(b, i) & MASKS[n - 1]
        }),
        key_hash(a.take(len)) == key_hash(b.take(len)),
{
    let n = if len - i < 8 { len - i } else { 8 };
    lemma_masked_word(a, len, i, n);
    lemma_masked_word(b, len, i, n);
}

/// The checksum of the first `len` bytes of `buf`.
///
/// Words are read whole, also where they reach past the key into the rest of
/// `buf`, and cut down to the key by a mask.
pub fn fold_words(buf: &[u8], len: usize) -> (hash: u64)
    requires
        len <= buf.len(),
    ensures
        hash == key_hash(buf@.take(len as int)),
{
    let ghost key = buf@.take(len as int);
    if len == 0 {
        return 0;
    }
    let first_word = read_word_at(buf, 0);
    let second_word = read_word_at(buf, 8);
    if len < 17 {
        let n1: usize = if len - 1 < 7 { len - 1 } else { 7 };
        let first_mask = MASKS[n1];
        let masked_first = first_word & first_mask;
        let n2: usize = (if len > 9 { len } else { 9 }) - 9;
        let second_mask = MASKS[n2] & if len > 8 { u64::MAX } else { 0 };
        let masked_second = second_word & second_mask;
        proof {
            reveal_with_fuel(fold_from, 3);
            lemma_masked_word(buf@, len as int, 0, n1 + 1);
            lemma_xor(masked_first, 0, 0);
            if len > 8 {
                lemma_masked_word(buf@, len as int, 8, n2 + 1);
                lemma_xor(MASKS[n2 as int], 0, 0);
                assert(fold_from(key, 16) == 0);
                lemma_xor(word_at(key, 8), 0, 0);
            } else {
                assert(second_word & 0 == 0) by (bit_vector);
                assert(MASKS[n2 as int] & 0 == 0) by (bit_vector);
                assert(fold_from(key, 8) == 0);
            }
        }
        masked_first ^ masked_second
    } else {
        let mut hash = first_word ^ second_word;
        let mut i: usize = 16;
        proof {
            reveal_with_fuel(fold_from, 3);
            lemma_masked_word(buf@, len as int, 0, 8);
            lemma_masked_word(buf@, len as int, 8, 8);
            lemma_xor(first_word, 0, 0);
            lemma_xor(second_word, 0, 0);
            lemma_xor(word_at(key, 0), word_at(key, 8), fold_from(key, 16));
        }
        while i < len
            invariant
                16 <= i <= len <= buf.len(),
                key == buf@.take(len as int),
                key_hash(key) == hash ^ fold_from(key, i as int),
            decreases len - i,
        {
            let n: usize = if len - i - 1 < 7 { len - i - 1 } else { 7 };
            let name_chunk = read_word_at(buf, i);
            proof {
                lemma_masked_word(buf@, len as int, i as int, n + 1);
                lemma_xor(hash, word_at(key, i as int), fold_from(key, i + 8));
            }
            hash ^= name_chunk & MASKS[n];
            i += n + 1;
        }
        proof {
            lemma_xor(hash, 0, 0);
        }
        hash
    }
}

/// Takes one key and keeps its checksum.
pub struct NameHasher {
    pub hash: Option<u64>,
}

impl Default for NameHasher {
    /// A hasher that has taken no key yet.
    fn default() -> (hasher: Self)
        ensures
            hasher.hash is None,
    {
        NameHasher { hash: None }
    }
}

impl NameHasher {
    /// A hasher that has taken no key yet.
    pub fn new() -> (hasher: Self)
        ensures
            hasher.hash is None,
    {
        NameHasher { hash: None }
    }

    /// Takes the key `bytes`. A hasher takes one key only.
    pub fn write(&mut self, bytes: &[u8])
        requires
            old(self).hash is None,
        ensures
            final(self).hash == Some(key_hash(bytes@)),
    {
        assert(bytes@.take(bytes@.len() as int) == bytes@);
        self.hash = Some(fold_words(bytes, bytes.len()));
    }

    /// Does nothing: the length of a key is no part of its checksum.
    pub fn write_length_prefix(&mut self, _len: usize)
        ensures
            *final(self) == *old(self),
    {
    }

    /// The checksum of the key that was taken.
    pub fn finish(&self) -> (hash: u64)
        requires
            self.hash is Some,
        ensures
            Some(hash) == self.hash,
    {
        self.hash.unwrap()
    }
}

/// The checksum of `name`.
pub fn hash_name(name: &[u8]) -> (hash: u64)
    ensures
        hash == key_hash(name@),
{
    let mut hasher = NameHasher::default();
    hasher.write(name);
    hasher.finish()
}

} // verus!
