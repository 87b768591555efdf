use onebrc::fixed::{rounded_mean, Float};
use onebrc::keys::key_less;
use onebrc::reader::Reader;
use onebrc::report::{format_result, render, sorted_rows, Row};
use onebrc::table::HashMap;

fn table_of<'a>(records: &[(&'a [u8], i64)]) -> HashMap<'a> {
    let mut table = HashMap::new();
    for (key, value) in records {
        let mut line = key.to_vec();
        line.push(b';');
        let hash = Reader::new(&line).next().unwrap().0;
        table.update(hash, key, *value);
    }
    table
}

fn text(bytes: Vec<u8>) -> String {
    String::from_utf8(bytes).unwrap()
}

#[test]
fn a_half_is_rounded_away_from_zero() {
    assert_eq!(rounded_mean(7, 2), 4);
    assert_eq!(rounded_mean(35, 10), 4);
    assert_eq!(rounded_mean(-35, 10), -4);
    assert_eq!(rounded_mean(-7, 2), -4);
    assert_eq!(rounded_mean(5, 10), 1);
    assert_eq!(rounded_mean(-5, 10), -1);
    assert_eq!(rounded_mean(1, 2), 1);
    assert_eq!(rounded_mean(-1, 2), -1);
}

#[test]
fn less_than_a_half_is_rounded_towards_zero() {
    assert_eq!(rounded_mean(34, 10), 3);
    assert_eq!(rounded_mean(-34, 10), -3);
    assert_eq!(rounded_mean(4, 10), 0);
    assert_eq!(rounded_mean(-4, 10), 0);
    assert_eq!(rounded_mean(1, 3), 0);
    assert_eq!(rounded_mean(-1, 3), 0);
    assert_eq!(rounded_mean(2, 3), 1);
    assert_eq!(rounded_mean(-2, 3), -1);
    assert_eq!(rounded_mean(0, 7), 0);
}

#[test]
fn the_mean_of_one_value_is_the_value() {
    assert_eq!(rounded_mean(123, 1), 123);
    assert_eq!(rounded_mean(-123, 1), -123);
    assert_eq!(rounded_mean(i64::MAX, 1), i64::MAX);
    assert_eq!(rounded_mean(i64::MIN, 1), i64::MIN);
}

#[test]
fn the_mean_is_exact_where_the_count_divides_the_sum() {
    assert_eq!(rounded_mean(194, 2), 97);
    assert_eq!(rounded_mean(-300, 3), -100);
    assert_eq!(rounded_mean(i64::MAX, i64::MAX), 1);
    assert_eq!(rounded_mean(i64::MIN, i64::MAX), -1);
    assert_eq!(rounded_mean(i64::MAX, 2), i64::MAX / 2 + 1);
    assert_eq!(rounded_mean(i64::MIN, 2), i64::MIN / 2);
}

#[test]
fn a_value_is_written_with_one_decimal_place() {
    assert_eq!(Float(123).to_string(), "12.3");
    assert_eq!(Float(-25).to_string(), "-2.5");
    assert_eq!(Float(0).to_string(), "0.0");
    assert_eq!(Float(7).to_string(), "0.7");
    assert_eq!(Float(10).to_string(), "1.0");
    assert_eq!(Float(-10).to_string(), "-1.0");
    assert_eq!(Float(999).to_string(), "99.9");
    assert_eq!(Float(-1000).to_string(), "-100.0");
    assert_eq!(Float(1234567).to_string(), "123456.7");
}

#[test]
fn the_sign_is_kept_where_the_integer_part_is_zero() {
    assert_eq!(Float(-5).to_string(), "-0.5");
    assert_eq!(Float(-1).to_string(), "-0.1");
    assert_eq!(Float(-9).to_bytes(), b"-0.9".to_vec());
}

#[test]
fn the_greatest_and_the_least_value_are_written_in_full() {
    assert_eq!(Float(i64::MAX).to_string(), "922337203685477580.7");
    assert_eq!(Float(i64::MIN).to_string(), "-922337203685477580.8");
    assert_eq!(Float(i64::MIN).to_bytes(), b"-922337203685477580.8".to_vec());
}

#[test]
fn write_appends_to_what_is_there() {
    let mut out = b"x=".to_vec();
    Float(-5).write(&mut out);
    out.push(b'/');
    Float(1005).write(&mut out);
    assert_eq!(out, b"x=-0.5/100.5".to_vec());
}

#[test]
fn to_bytes_and_to_string_write_alike() {
    for value in [0, 1, -1, 9, 10, -10, 11, 99, 100, 101, -12345, 98765, i64::MAX, i64::MIN] {
        assert_eq!(Float(value).to_string().into_bytes(), Float(value).to_bytes());
    }
}

#[test]
fn keys_are_ordered_by_their_bytes() {
    assert!(key_less(b"Berlin", b"Oslo"));
    assert!(!key_less(b"Oslo", b"Berlin"));
    assert!(!key_less(b"Oslo", b"Oslo"));
    assert!(key_less(b"Osl", b"Oslo"));
    assert!(!key_less(b"Oslo", b"Osl"));
    assert!(key_less(b"", b"a"));
    assert!(!key_less(b"", b""));
    assert!(key_less(b"Z", b"a"));
    assert!(key_less(b"a", "é".as_bytes()));
    assert!(key_less(b"a\x7f", b"a\x80"));
    assert!(key_less(b"ab", b"b"));
}

#[test]
fn the_rows_come_in_the_order_of_their_keys() {
    let table = table_of(&[
        (b"Oslo", 123),
        (b"berlin", 1),
        (b"Berlin", -25),
        (b"Oslo", 71),
        (b"", 5),
        (b"Osl", 9),
        (b"Zagreb", 0),
    ]);
    let rows = sorted_rows(table);
    let keys: Vec<&[u8]> = rows.iter().map(|row| row.key).collect();
    assert_eq!(keys, vec![&b""[..], b"Berlin", b"Osl", b"Oslo", b"Zagreb", b"berlin"]);
    for pair in rows.windows(2) {
        assert!(pair[0].key < pair[1].key);
    }
    let oslo = rows[3];
    assert_eq!((oslo.min.0, oslo.mean.0, oslo.max.0), (71, 97, 123));
}

#[test]
fn many_rows_come_in_order_too() {
    let names: Vec<Vec<u8>> = (0..5000u32)
        .map(|i| format!("k{}", i.wrapping_mul(2654435761) % 100000).into_bytes())
        .collect();
    let mut table = HashMap::new();
    for name in &names {
        let mut line = name.clone();
        line.push(b';');
        let hash = Reader::new(&line).next().unwrap().0;
        table.update(hash, name, 1);
    }
    let mut expected: Vec<&[u8]> = names.iter().map(|name| &name[..]).collect();
    expected.sort();
    expected.dedup();
    let rows = sorted_rows(table);
    let keys: Vec<&[u8]> = rows.iter().map(|row| row.key).collect();
    assert_eq!(keys, expected);
}

#[test]
fn render_writes_rows_between_braces() {
    let rows = vec![
        Row { key: b"Berlin", min: Float(-25), mean: Float(-25), max: Float(-25) },
        Row { key: b"Oslo", min: Float(71), mean: Float(97), max: Float(123) },
    ];
    assert_eq!(text(render(&rows)), "{Berlin=-2.5/-2.5/-2.5, Oslo=7.1/9.7/12.3}");
    assert_eq!(text(render(&rows[..1].to_vec())), "{Berlin=-2.5/-2.5/-2.5}");
    assert_eq!(text(render(&Vec::new())), "{}");
}

#[test]
fn render_writes_the_rows_as_they_come() {
    let rows = vec![
        Row { key: b"b", min: Float(1), mean: Float(2), max: Float(3) },
        Row { key: b"a", min: Float(-3), mean: Float(-2), max: Float(-1) },
        Row { key: b"", min: Float(0), mean: Float(0), max: Float(0) },
    ];
    assert_eq!(text(render(&rows)), "{b=0.1/0.2/0.3, a=-0.3/-0.2/-0.1, =0.0/0.0/0.0}");
}

#[test]
fn the_report_of_a_table_is_sorted_and_rounded() {
    let table = table_of(&[(b"Oslo", 123), (b"Oslo", 71), (b"Berlin", -25)]);
    assert_eq!(text(format_result(table)), "{Berlin=-2.5/-2.5/-2.5, Oslo=7.1/9.7/12.3}");
    let table = table_of(&[(b"x", 3), (b"x", 4), (b"y", -3), (b"y", -4)]);
    assert_eq!(text(format_result(table)), "{x=0.3/0.4/0.4, y=-0.4/-0.4/-0.3}");
}

#[test]
fn the_report_of_an_empty_table_is_a_pair_of_braces() {
    assert_eq!(text(format_result(HashMap::new())), "{}");
}

#[test]
fn a_key_is_written_byte_for_byte() {
    let key: &[u8] = &[0xff, b'=', b'/', b',', b' ', 0x00];
    let table = table_of(&[(key, 10)]);
    let mut expected = vec![b'{'];
    expected.extend_from_slice(key);
    expected.extend_from_slice(b"=1.0/1.0/1.0}");
    assert_eq!(format_result(table), expected);
}

#[test]
fn the_hash_of_a_key_does_not_show_in_the_report() {
    let mut table = HashMap::new();
    table.update(1, b"a", 10);
    table.update(2, b"B", 20);
    table.update(3, b"Abc", 40);
    table.update(4, b"Ab", 30);
    assert_eq!(
        text(format_result(table)),
        "{Ab=3.0/3.0/3.0, Abc=4.0/4.0/4.0, B=2.0/2.0/2.0, a=1.0/1.0/1.0}"
    );
}

#[test]
fn the_mean_in_the_report_is_rounded_not_cut() {
    let mut table = HashMap::new();
    table.update(0, b"A", 3);
    table.update(0, b"A", 4);
    assert_eq!(text(format_result(table)), "{A=0.3/0.4/0.4}");
    let mut table = HashMap::new();
    for _ in 0..5 {
        table.update(0, b"A", 3);
        table.update(0, b"A", 4);
    }
    assert_eq!(text(format_result(table)), "{A=0.3/0.4/0.4}");
    let mut table = HashMap::new();
    for _ in 0..5 {
        table.update(0, b"A", -3);
        table.update(0, b"A", -4);
    }
    assert_eq!(text(format_result(table)), "{A=-0.4/-0.4/-0.3}");
}
