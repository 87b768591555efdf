use onebrc::reader::Reader;

#[test]
fn reads_the_records_of_a_range_in_order() {
    let mut reader = Reader::new(b"Oslo;12.3\nOslo;7.1\nBerlin;-2.5\n");
    let (first_hash, key, value) = reader.next().unwrap();
    assert_eq!(key, b"Oslo");
    assert_eq!(value, 123);
    let (second_hash, key, value) = reader.next().unwrap();
    assert_eq!(key, b"Oslo");
    assert_eq!(value, 71);
    assert_eq!(first_hash, second_hash);
    let (_, key, value) = reader.next().unwrap();
    assert_eq!(key, b"Berlin");
    assert_eq!(value, -25);
    assert!(reader.next().is_none());
    assert!(reader.next().is_none());
}

#[test]
fn an_empty_range_has_no_record() {
    let mut reader = Reader::new(b"");
    assert!(reader.next().is_none());
    assert!(reader.try_next().is_none());
}

#[test]
fn the_hash_folds_each_byte_shifted_by_its_place() {
    let mut reader = Reader::new(b"a;0.0\nab;0.0\n");
    let (hash, _, _) = reader.next().unwrap();
    assert_eq!(hash, 97);
    let (hash, _, _) = reader.next().unwrap();
    assert_eq!(hash, 97 ^ (98 << 1));
}

#[test]
fn the_shift_of_the_hash_starts_over_after_64_bytes() {
    let mut line = vec![0u8; 64];
    line.push(5);
    line.extend_from_slice(b";1.0\n");
    let mut reader = Reader::new(&line);
    let (hash, key, value) = reader.next().unwrap();
    assert_eq!(key.len(), 65);
    assert_eq!(hash, 5);
    assert_eq!(value, 10);
}

#[test]
fn the_fraction_point_scales_nothing() {
    let mut reader = Reader::new(b"k;0.0\nk;-0.5\nk;99.9\nk;-99.9\nk;1234.5\n");
    assert_eq!(reader.next().unwrap().2, 0);
    assert_eq!(reader.next().unwrap().2, -5);
    assert_eq!(reader.next().unwrap().2, 999);
    assert_eq!(reader.next().unwrap().2, -999);
    assert_eq!(reader.next().unwrap().2, 12345);
    assert!(reader.next().is_none());
}

#[test]
fn a_key_may_be_empty_or_hold_any_other_byte() {
    let mut reader = Reader::new(b";1.5\nS\xc3\xa3o Paulo;22.0\n a=b/c ;3.0\n");
    let (hash, key, value) = reader.next().unwrap();
    assert_eq!(hash, 0);
    assert_eq!(key, b"");
    assert_eq!(value, 15);
    let (_, key, value) = reader.next().unwrap();
    assert_eq!(key, "São Paulo".as_bytes());
    assert_eq!(value, 220);
    let (_, key, value) = reader.next().unwrap();
    assert_eq!(key, b" a=b/c ");
    assert_eq!(value, 30);
}

#[test]
fn the_last_line_needs_no_terminator() {
    let mut reader = Reader::new(b"Oslo;12.3\nBergen;4.0");
    assert_eq!(reader.next().unwrap().2, 123);
    let (_, key, value) = reader.next().unwrap();
    assert_eq!(key, b"Bergen");
    assert_eq!(value, 40);
    assert!(reader.next().is_none());
}

#[test]
fn a_line_without_delimiter_is_a_key_with_the_value_zero() {
    let mut reader = Reader::new(b"Oslo\n\nBergen;1.0\nTromso");
    let (_, key, value) = reader.next().unwrap();
    assert_eq!(key, b"Oslo");
    assert_eq!(value, 0);
    let (_, key, value) = reader.next().unwrap();
    assert_eq!(key, b"");
    assert_eq!(value, 0);
    let (_, key, value) = reader.next().unwrap();
    assert_eq!(key, b"Bergen");
    assert_eq!(value, 10);
    let (_, key, value) = reader.next().unwrap();
    assert_eq!(key, b"Tromso");
    assert_eq!(value, 0);
    assert!(reader.next().is_none());
}

#[test]
fn an_empty_value_field_is_zero() {
    let mut reader = Reader::new(b"Oslo;\nBergen;-\n");
    assert_eq!(reader.next().unwrap(), (reader_hash(b"Oslo"), &b"Oslo"[..], 0));
    assert_eq!(reader.next().unwrap().2, 0);
    assert!(reader.next().is_none());
}

#[test]
fn only_a_leading_minus_and_the_digits_count_in_a_value() {
    let mut reader = Reader::new(b"a;1x2.3\nb;1-2\nc;+4.5\nd;1;2\ne; 7.0 \nf;--1.0\n");
    assert_eq!(reader.next().unwrap().2, 123);
    assert_eq!(reader.next().unwrap().2, 12);
    assert_eq!(reader.next().unwrap().2, 45);
    let (_, key, value) = reader.next().unwrap();
    assert_eq!(key, b"d");
    assert_eq!(value, 12);
    assert_eq!(reader.next().unwrap().2, 70);
    assert_eq!(reader.next().unwrap().2, -10);
    assert!(reader.next().is_none());
}

#[test]
fn a_value_may_have_any_number_of_digits_that_fit() {
    let mut reader = Reader::new(b"a;7\nb;00000000000000000000000001.5\nc;922337203685477580.7\n");
    assert_eq!(reader.try_next().unwrap().2, Some(7));
    assert_eq!(reader.try_next().unwrap().2, Some(15));
    assert_eq!(reader.try_next().unwrap().2, Some(i64::MAX));
    assert!(reader.try_next().is_none());
}

#[test]
fn a_value_that_does_not_fit_comes_as_none() {
    let mut reader =
        Reader::new(b"a;922337203685477580.8\nb;-922337203685477580.7\nc;-922337203685477580.8\nd;99999999999999999999.9\ne;1.0\n");
    let (_, key, value) = reader.try_next().unwrap();
    assert_eq!(key, b"a");
    assert_eq!(value, None);
    assert_eq!(reader.try_next().unwrap().2, Some(-i64::MAX));
    assert_eq!(reader.try_next().unwrap().2, None);
    assert_eq!(reader.try_next().unwrap().2, None);
    let (_, key, value) = reader.try_next().unwrap();
    assert_eq!(key, b"e");
    assert_eq!(value, Some(10));
    assert!(reader.try_next().is_none());
}

#[test]
fn try_next_and_next_read_alike() {
    let input = b"Oslo;12.3\nBerlin;-2.5\nx\n";
    let mut plain = Reader::new(input);
    let mut checked = Reader::new(input);
    loop {
        let a = plain.next();
        let b = checked.try_next();
        match (a, b) {
            (None, None) => break,
            (Some((h1, k1, v1)), Some((h2, k2, v2))) => {
                assert_eq!(h1, h2);
                assert_eq!(k1, k2);
                assert_eq!(Some(v1), v2);
            }
            _ => panic!("one reader ended before the other"),
        }
    }
}

fn reader_hash(key: &[u8]) -> usize {
    let mut line = key.to_vec();
    line.extend_from_slice(b";0.0\n");
    let mut reader = Reader::new(&line);
    reader.next().unwrap().0
}
