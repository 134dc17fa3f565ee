use measurements::hash::{fold_words, hash_name, NameHasher, MASKS};
use measurements::word::read_word_at;

#[test]
fn hash_name_1() {
    assert_eq!(hash_name(b"a"), 0x61);
}

#[test]
fn hash_name_lt8() {
    assert_eq!(hash_name(b"abcdefgh"), 0x6867666564636261);
}

#[test]
fn hash_name_lt16() {
    assert_eq!(hash_name(b"abcdefghij"), 0x6867666564636261 ^ 0x6a69);
}

#[test]
fn hash_name_gte16() {
    assert_eq!(
        hash_name(b"abcdefghijklmnopqr"),
        0x6867666564636261 ^ 0x706f6e6d6c6b6a69 ^ 0x7271
    );
}

#[test]
fn hash_name_gte24() {
    assert_eq!(
        hash_name(b"abcdefghijklmnopqrstuvwxyz{"),
        0x6867666564636261 ^ 0x706f6e6d6c6b6a69 ^ 0x7877767574737271 ^ 0x7b7a79
    );
}

#[test]
fn hash_of_sixteen_and_seventeen_bytes() {
    assert_eq!(hash_name(b"abcdefghijklmnop"), 0x6867666564636261 ^ 0x706f6e6d6c6b6a69);
    assert_eq!(
        hash_name(b"abcdefghijklmnopq"),
        0x6867666564636261 ^ 0x706f6e6d6c6b6a69 ^ 0x71
    );
    assert_eq!(
        hash_name(b"abcdefghijklmnopqrstuvwx"),
        0x6867666564636261 ^ 0x706f6e6d6c6b6a69 ^ 0x7877767574737271
    );
}

#[test]
fn hash_of_nine_bytes() {
    assert_eq!(hash_name(b"abcdefghi"), 0x6867666564636261 ^ 0x69);
}

#[test]
fn hash_of_no_bytes_is_zero() {
    assert_eq!(hash_name(b""), 0);
    assert_eq!(fold_words(b"abc", 0), 0);
}

#[test]
fn bytes_after_the_key_do_not_count() {
    let lengths = [1usize, 7, 8, 9, 10, 15, 16, 17, 18, 23, 24, 25, 27, 40];
    let text = b"abcdefghijklmnopqrstuvwxyz{ABCDEFGHIJKLMNOPQRSTUVWXYZ";
    for len in lengths {
        let alone = hash_name(&text[..len]);
        assert_eq!(fold_words(text, len), alone);
        let mut other = text[..len].to_vec();
        other.extend_from_slice(b";-12.3\n\xff\xff\xff\xff\xff\xff\xff\xff\xff\xff\xff\xff");
        assert_eq!(fold_words(&other, len), alone);
    }
}

#[test]
fn a_zero_byte_at_the_end_collides() {
    assert_eq!(hash_name(b"a"), hash_name(b"a\0"));
    assert_ne!(hash_name(b"a"), hash_name(b"b"));
}

#[test]
fn hasher_takes_one_key() {
    let mut hasher = NameHasher::new();
    assert_eq!(hasher.hash, None);
    hasher.write_length_prefix(3);
    assert_eq!(hasher.hash, None);
    hasher.write(b"abc");
    assert_eq!(hasher.finish(), 0x636261);
    hasher.write_length_prefix(3);
    assert_eq!(hasher.finish(), 0x636261);
}

#[test]
fn masks_keep_low_bytes() {
    assert_eq!(MASKS[0], 0xff);
    assert_eq!(MASKS[3], 0xffff_ffff);
    assert_eq!(MASKS[7], u64::MAX);
    for i in 0..7 {
        assert_eq!(MASKS[i], !(u64::MAX << ((i + 1) * 8)));
    }
}

#[test]
fn words_past_the_end_are_zero() {
    assert_eq!(read_word_at(b"abcdefghij", 0), 0x6867666564636261);
    assert_eq!(read_word_at(b"abcdefghij", 8), 0x6a69);
    assert_eq!(read_word_at(b"abcdefghij", 9), 0x6a);
    assert_eq!(read_word_at(b"abcdefghij", 10), 0);
    assert_eq!(read_word_at(b"abcdefghij", 100), 0);
    assert_eq!(read_word_at(b"abcdefghij", usize::MAX), 0);
}
