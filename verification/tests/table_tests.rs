use measurements::local::LocalTable;
use measurements::hash::hash_name;
use measurements::order::{compare_names, Rank};
use measurements::pipeline::{aggregate, find_byte, fold_buffer, fold_line};
use measurements::record::City;
use measurements::render::{push_digits, push_tenths, render_table};
use measurements::table::{merge_tables, Table};

fn text(buf: &[u8]) -> String {
    String::from_utf8(render_table(&aggregate(buf))).unwrap()
}

fn fields(city: &City) -> (u64, i64, i64, i128) {
    (city.count, city.min, city.max, city.sum)
}

fn city(name: &[u8], values: &[i64]) -> City {
    let mut city = City::new(name.to_vec(), values[0]);
    for value in &values[1..] {
        city.observe(*value);
    }
    city
}

#[test]
fn end_to_end() {
    assert_eq!(
        text(b"StationA;12.3\nStationB;-4.5\nStationA;15.0\n"),
        "{StationA=12.3/13.7/15.0, StationB=-4.5/-4.5/-4.5}"
    );
}

#[test]
fn empty_input_gives_empty_table() {
    assert_eq!(text(b""), "{}");
    let table = aggregate(b"");
    assert_eq!(table.cities.len(), 0);
    assert_eq!(table.records, 0);
}

#[test]
fn line_without_separator_is_passed_over() {
    assert_eq!(
        text(b"StationA;12.3\nno separator here\nStationA;15.0\n"),
        text(b"StationA;12.3\nStationA;15.0\n")
    );
    assert_eq!(text(b"garbage\n\n\nmore"), "{}");
    let table = aggregate(b"a;1.0\nbad\na;2.0");
    assert_eq!(table.records, 2);
    assert_eq!(fields(&table.cities[0]), (2, 10, 20, 30));
}

#[test]
fn last_line_needs_no_newline() {
    assert_eq!(text(b"a;1.0\nb;2.0"), "{a=1.0/1.0/1.0, b=2.0/2.0/2.0}");
    assert_eq!(text(b"a;1.0"), "{a=1.0/1.0/1.0}");
}

#[test]
fn keys_come_out_in_byte_order() {
    assert_eq!(
        text(b"b;1.0\nab;2.0\na;3.0\nB;4.0\nabc;5.0\n"),
        "{B=4.0/4.0/4.0, a=3.0/3.0/3.0, ab=2.0/2.0/2.0, abc=5.0/5.0/5.0, b=1.0/1.0/1.0}"
    );
}

#[test]
fn only_the_first_separator_splits() {
    let table = aggregate(b"a;1.5;zzz\n");
    assert_eq!(table.cities.len(), 1);
    assert_eq!(table.cities[0].name, b"a".to_vec());
    assert_eq!(fields(&table.cities[0]), (1, 15, 15, 15));
}

#[test]
fn chunks_merge_to_the_whole() {
    let whole = b"StationA;12.3\nStationB;-4.5\nStationA;15.0\nStationC;0.0\nStationB;99.9\nStationA;-99.9";
    let expected = text(whole);
    let lines: Vec<&[u8]> = whole.split(|b| *b == b'\n').collect();
    for cut in 0..=lines.len() {
        for cut2 in cut..=lines.len() {
            let mut parts = Vec::new();
            for chunk in [&lines[..cut], &lines[cut..cut2], &lines[cut2..]] {
                let mut local = LocalTable::new();
                for line in chunk {
                    fold_line(&mut local, line);
                }
                parts.push(local);
            }
            let third = parts.pop().unwrap().into_table();
            let second = parts.pop().unwrap().into_table();
            let first = parts.pop().unwrap().into_table();
            let left = merge_tables(merge_tables(first, second), third);
            assert_eq!(String::from_utf8(render_table(&left)).unwrap(), expected);
        }
    }
    let a = aggregate(b"x;1.0\ny;2.0");
    let b = aggregate(b"y;3.0\nz;4.0");
    let ab = render_table(&merge_tables(a, b));
    let a = aggregate(b"x;1.0\ny;2.0");
    let b = aggregate(b"y;3.0\nz;4.0");
    let ba = render_table(&merge_tables(b, a));
    assert_eq!(ab, ba);
    assert_eq!(ab, render_table(&aggregate(b"x;1.0\ny;2.0\ny;3.0\nz;4.0")));
}

#[test]
fn keys_with_one_checksum_share_a_record() {
    assert_eq!(hash_name(b"a"), hash_name(b"a\0"));
    let table = aggregate(b"a;1.0\na\0;3.0\n");
    assert_eq!(table.cities.len(), 1);
    assert_eq!(table.cities[0].name, b"a".to_vec());
    assert_eq!(fields(&table.cities[0]), (2, 10, 30, 40));
}

#[test]
fn fold_buffer_counts_records() {
    let local = fold_buffer(b"a;1.0\nb;2.0\na;3.0\nnothing\n");
    assert_eq!(local.records, 3);
    assert_eq!(local.cities.len(), 2);
    assert_eq!(local.cities[0].name, b"a".to_vec());
    assert_eq!(fields(&local.cities[0]), (2, 10, 30, 40));
    assert_eq!(fields(&local.cities[1]), (1, 20, 20, 20));
    assert_eq!(local.index[&hash_name(b"b")], 1);
}

#[test]
fn find_byte_stops_at_the_first() {
    assert_eq!(find_byte(b"ab;cd;ef", 0, b';'), 2);
    assert_eq!(find_byte(b"ab;cd;ef", 3, b';'), 5);
    assert_eq!(find_byte(b"ab;cd;ef", 6, b';'), 8);
    assert_eq!(find_byte(b"", 0, b';'), 0);
}

#[test]
fn merge_adds_counts_and_sums() {
    let mut a = city(b"k", &[10, -20, 30]);
    let b = city(b"other", &[-50, 5]);
    a.merge(&b);
    assert_eq!(a.name, b"k".to_vec());
    assert_eq!(fields(&a), (5, -50, 30, -25));
}

#[test]
fn merge_is_associative_and_commutative() {
    let sets: [&[i64]; 3] = [&[10, -20, 30], &[-50, 5], &[999, -999, 0, 1]];
    let mut ab_c = city(b"a", sets[0]);
    ab_c.merge(&city(b"b", sets[1]));
    ab_c.merge(&city(b"c", sets[2]));
    let mut bc = city(b"b", sets[1]);
    bc.merge(&city(b"c", sets[2]));
    let mut a_bc = city(b"a", sets[0]);
    a_bc.merge(&bc);
    assert_eq!(fields(&ab_c), fields(&a_bc));
    let mut ab = city(b"a", sets[0]);
    ab.merge(&city(b"b", sets[1]));
    let mut ba = city(b"b", sets[1]);
    ba.merge(&city(b"a", sets[0]));
    assert_eq!(fields(&ab), fields(&ba));
    assert_eq!(fields(&ab_c), (9, -999, 999, -24));
}

#[test]
fn mean_rounds_ties_away_from_zero() {
    assert_eq!(city(b"k", &[123, 150]).mean(), 137);
    assert_eq!(city(b"k", &[2, 3]).mean(), 3);
    assert_eq!(city(b"k", &[-2, -3]).mean(), -3);
    assert_eq!(city(b"k", &[1, 1, 2]).mean(), 1);
    assert_eq!(city(b"k", &[1, 2, 2]).mean(), 2);
    assert_eq!(city(b"k", &[-1, -1, -2]).mean(), -1);
    assert_eq!(city(b"k", &[-1, -2, -2]).mean(), -2);
    assert_eq!(city(b"k", &[-1, 0]).mean(), -1);
    assert_eq!(city(b"k", &[-1, 0, 0]).mean(), 0);
    assert_eq!(city(b"k", &[-45]).mean(), -45);
    assert_eq!(city(b"k", &[1023, 1023]).mean(), 1023);
    assert_eq!(city(b"k", &[-1023, -1023, -1023]).mean(), -1023);
}

#[test]
fn record_text() {
    assert_eq!(city(b"StationA", &[123, 150]).to_bytes(), b"StationA=12.3/13.7/15.0".to_vec());
    assert_eq!(city(b"", &[-4]).to_bytes(), b"=-0.4/-0.4/-0.4".to_vec());
}

#[test]
fn tenths_text() {
    let cases: [(i64, &str); 9] = [
        (0, "0.0"),
        (-45, "-4.5"),
        (137, "13.7"),
        (-4, "-0.4"),
        (1023, "102.3"),
        (-999, "-99.9"),
        (7, "0.7"),
        (i64::MAX, "922337203685477580.7"),
        (i64::MIN, "-922337203685477580.8"),
    ];
    for (tenths, expected) in cases {
        let mut out = b"x".to_vec();
        push_tenths(&mut out, tenths);
        assert_eq!(String::from_utf8(out).unwrap(), format!("x{}", expected));
    }
    let mut out = Vec::new();
    push_digits(&mut out, 0);
    push_digits(&mut out, 1234567890);
    push_digits(&mut out, u64::MAX);
    assert_eq!(out, b"0123456789018446744073709551615".to_vec());
}

#[test]
fn names_compare_byte_by_byte() {
    assert!(matches!(compare_names(b"a", b"b"), Rank::Before));
    assert!(matches!(compare_names(b"b", b"a"), Rank::After));
    assert!(matches!(compare_names(b"abc", b"abc"), Rank::Same));
    assert!(matches!(compare_names(b"ab", b"abc"), Rank::Before));
    assert!(matches!(compare_names(b"abc", b"ab"), Rank::After));
    assert!(matches!(compare_names(b"", b""), Rank::Same));
    assert!(matches!(compare_names(b"", b"\0"), Rank::Before));
    assert!(matches!(compare_names(b"Z", b"a"), Rank::Before));
    assert!(matches!(compare_names(b"\xff", b"a"), Rank::After));
}

#[test]
fn absorb_keeps_order_and_merges() {
    let mut table = Table::new();
    for (name, value) in [(&b"m"[..], 10), (b"c", 20), (b"x", 30), (b"m", -10), (b"a", 5), (b"x", 0)] {
        table.absorb(City::new(name.to_vec(), value));
    }
    let names: Vec<Vec<u8>> = table.cities.iter().map(|c| c.name.clone()).collect();
    assert_eq!(names, vec![b"a".to_vec(), b"c".to_vec(), b"m".to_vec(), b"x".to_vec()]);
    assert_eq!(fields(&table.cities[2]), (2, -10, 10, 0));
    assert_eq!(fields(&table.cities[3]), (2, 0, 30, 30));
    assert_eq!(table.records, 6);
}

#[test]
fn merge_tables_keeps_both_sides() {
    let l = aggregate(b"a;1.0\nc;3.0\n");
    let r = aggregate(b"b;2.0\nc;-3.0\nd;4.0\n");
    let table = merge_tables(l, r);
    assert_eq!(
        String::from_utf8(render_table(&table)).unwrap(),
        "{a=1.0/1.0/1.0, b=2.0/2.0/2.0, c=-3.0/0.0/3.0, d=4.0/4.0/4.0}"
    );
    assert_eq!(table.records, 5);
    let table = merge_tables(Table::new(), Table::new());
    assert_eq!(table.cities.len(), 0);
    let mut one = Table::new();
    one.absorb_all(vec![City::new(b"z".to_vec(), 1), City::new(b"y".to_vec(), 2)]);
    assert_eq!(String::from_utf8(render_table(&one)).unwrap(), "{y=0.2/0.2/0.2, z=0.1/0.1/0.1}");
}

#[test]
fn local_table_observes_by_checksum() {
    let mut local = LocalTable::new();
    local.observe(hash_name(b"k"), b"k", 12);
    local.observe(hash_name(b"k"), b"k", -7);
    local.observe(hash_name(b"j"), b"j", 3);
    assert_eq!(local.records, 3);
    let table = local.into_table();
    assert_eq!(String::from_utf8(render_table(&table)).unwrap(), "{j=0.3/0.3/0.3, k=-0.7/0.3/1.2}");
}
