use measurements::parse::{convert_into_number, parse_at, parse_number, parse_word, read_word};

#[test]
fn zero() {
    assert_eq!(parse_number(b"0.0abcde"), 0)
}

#[test]
fn neg_one() {
    assert_eq!(parse_number(b"-1.0abcd"), -10)
}

#[test]
fn neg_zero() {
    assert_eq!(parse_number(b"-0.0abcd"), -0)
}

#[test]
fn high() {
    assert_eq!(parse_number(b"54.3abcd"), 543)
}

#[test]
fn low() {
    assert_eq!(parse_number(b"-99.9abc"), -999)
}

#[test]
fn every_layout() {
    assert_eq!(parse_number(b"7.5\nabcd"), 75);
    assert_eq!(parse_number(b"12.3\nabc"), 123);
    assert_eq!(parse_number(b"-7.5\nabc"), -75);
    assert_eq!(parse_number(b"-12.3\nab"), -123);
    assert_eq!(parse_number(b"99.9\n\n\n\n"), 999);
    assert_eq!(parse_number(b"0.1\0\0\0\0\0"), 1);
}

#[test]
fn every_number_of_the_grammar() {
    for tenths in 0..1000i64 {
        let text = format!("{}.{}", tenths / 10, tenths % 10);
        let mut window = [b'\n'; 8];
        window[..text.len()].copy_from_slice(text.as_bytes());
        assert_eq!(parse_number(&window), tenths);
        let text = format!("-{}.{}", tenths / 10, tenths % 10);
        let mut window = [b';'; 8];
        window[..text.len()].copy_from_slice(text.as_bytes());
        assert_eq!(parse_number(&window), -tenths);
    }
}

#[test]
fn what_follows_the_number_does_not_count() {
    assert_eq!(parse_number(b"54.3abcd"), parse_number(b"54.3\n9.9"));
    assert_eq!(parse_number(b"-1.0\xff\xff\xff\xff"), -10);
    assert_eq!(parse_number(b"1.0\0\0\0\0\0"), 10);
}

#[test]
fn word_is_little_endian() {
    assert_eq!(read_word(b"abcdefgh"), 0x6867666564636261);
    assert_eq!(read_word(&[1, 0, 0, 0, 0, 0, 0, 0x80]), 0x8000000000000001);
}

#[test]
fn parse_word_agrees_with_parse_number() {
    assert_eq!(parse_word(read_word(b"-12.3\nab")), -123);
    assert_eq!(parse_word(u64::from_le_bytes(*b"54.3abcd")), 543);
}

#[test]
fn convert_takes_the_point_position() {
    let word = read_word(b"0.5;;;;;");
    assert_eq!(convert_into_number(12, word), 5);
    let word = read_word(b"10.5;;;;");
    assert_eq!(convert_into_number(20, word), 105);
    let word = read_word(b"-10.5;;;");
    assert_eq!(convert_into_number(28, word), -105);
}

#[test]
fn parse_at_reads_inside_a_line() {
    assert_eq!(parse_at(b"StationA;12.3", 9), 123);
    assert_eq!(parse_at(b"a;-4.5", 2), -45);
    assert_eq!(parse_at(b"a;0.0", 2), 0);
    assert_eq!(parse_at(b"key;-99.9\nnext;1.0", 4), -999);
}

#[test]
fn malformed_windows_stay_in_range() {
    let windows: [&[u8; 8]; 5] =
        [b"abcdefgh", b"\0\0\0\0\0\0\0\0", b"\xff\xff\xff\xff\xff\xff\xff\xff", b"1234.567", b"--------"];
    for window in windows {
        let value = parse_number(window);
        assert!((-1023..=1023).contains(&value));
        assert_eq!(value, parse_number(window));
    }
    assert_eq!(parse_at(b"", 0), parse_number(&[0; 8]));
    assert_eq!(parse_at(b"ab", 7), parse_number(&[0; 8]));
}
