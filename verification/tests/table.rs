use onebrc::reader::Reader;
use onebrc::keys::{hash_key, same_bytes};
use onebrc::table::{join_maps, try_join_maps, HashMap, HASH_CAP};

fn hash_of(key: &[u8]) -> usize {
    let mut line = key.to_vec();
    line.push(b';');
    let mut reader = Reader::new(&line);
    reader.next().unwrap().0
}

fn sorted_items<'a>(table: HashMap<'a>) -> Vec<(&'a [u8], (i64, i64, i64, i64))> {
    let mut items = table.into_iter();
    items.sort();
    items
}

fn table_of<'a>(records: &[(&'a [u8], i64)]) -> HashMap<'a> {
    let mut table = HashMap::new();
    for (key, value) in records {
        table.update(hash_of(key), key, *value);
    }
    table
}

#[test]
fn a_new_table_is_empty() {
    assert_eq!(HASH_CAP, 1024);
    assert!(HashMap::new().into_iter().is_empty());
}

#[test]
fn the_first_value_of_a_key_is_its_sum_its_least_and_its_greatest() {
    let table = table_of(&[(b"Oslo", 123)]);
    assert_eq!(sorted_items(table), vec![(&b"Oslo"[..], (1, 123, 123, 123))]);
}

#[test]
fn update_counts_adds_and_keeps_the_extremes() {
    let table = table_of(&[(b"Oslo", 123), (b"Oslo", 71), (b"Berlin", -25), (b"Oslo", -300), (b"Oslo", 71)]);
    assert_eq!(
        sorted_items(table),
        vec![(&b"Berlin"[..], (1, -25, -25, -25)), (&b"Oslo"[..], (4, -35, -300, 123))]
    );
}

#[test]
fn keys_are_told_apart_byte_for_byte() {
    let table = table_of(&[(b"ab", 1), (b"abc", 2), (b"Ab", 3), (b"", 4), (b"ab", 5)]);
    assert_eq!(
        sorted_items(table),
        vec![
            (&b""[..], (1, 4, 4, 4)),
            (&b"Ab"[..], (1, 3, 3, 3)),
            (&b"ab"[..], (2, 6, 1, 5)),
            (&b"abc"[..], (1, 2, 2, 2)),
        ]
    );
}

#[test]
fn keys_that_share_a_bucket_stay_apart() {
    // The hash of one byte is the byte, so these two differ by a multiple of
    // the number of buckets only when shifted: two bytes reach it.
    let a: &[u8] = &[0, 0];
    let b: &[u8] = &[0, 0, 0];
    assert_eq!(hash_of(a) % HASH_CAP, hash_of(b) % HASH_CAP);
    let table = table_of(&[(a, 1), (b, 2), (a, 3)]);
    assert_eq!(sorted_items(table), vec![(a, (2, 4, 1, 3)), (b, (1, 2, 2, 2))]);
}

#[test]
fn try_update_takes_what_fits() {
    let mut table = HashMap::new();
    let hash = hash_of(b"k");
    assert!(table.try_update(hash, b"k", i64::MAX - 1));
    assert!(table.try_update(hash, b"k", 1));
    assert_eq!(sorted_items(table), vec![(&b"k"[..], (2, i64::MAX, 1, i64::MAX - 1))]);
}

#[test]
fn try_update_leaves_the_table_alone_where_the_sum_does_not_fit() {
    let mut table = HashMap::new();
    let hash = hash_of(b"k");
    assert!(table.try_update(hash, b"k", i64::MAX));
    assert!(!table.try_update(hash, b"k", 1));
    assert!(table.try_update(hash, b"k", -5));
    assert!(table.try_update(hash_of(b"other"), b"other", 1));
    assert_eq!(
        sorted_items(table),
        vec![(&b"k"[..], (2, i64::MAX - 5, -5, i64::MAX)), (&b"other"[..], (1, 1, 1, 1))]
    );
    let mut table = HashMap::new();
    assert!(table.try_update(hash, b"k", i64::MIN));
    assert!(!table.try_update(hash, b"k", -1));
    assert_eq!(sorted_items(table), vec![(&b"k"[..], (1, i64::MIN, i64::MIN, i64::MIN))]);
}

#[test]
fn join_combines_what_both_hold_and_takes_over_the_rest() {
    let mut left = table_of(&[(b"Oslo", 123), (b"Berlin", -25), (b"Oslo", 71)]);
    let right = table_of(&[(b"Oslo", -10), (b"Rome", 300), (b"Oslo", 200)]);
    assert!(left.can_join(&right));
    left.join(right);
    assert_eq!(
        sorted_items(left),
        vec![
            (&b"Berlin"[..], (1, -25, -25, -25)),
            (&b"Oslo"[..], (4, 384, -10, 200)),
            (&b"Rome"[..], (1, 300, 300, 300)),
        ]
    );
}

#[test]
fn joining_an_empty_table_changes_nothing() {
    let mut left = table_of(&[(b"Oslo", 123)]);
    left.join(HashMap::new());
    let mut empty = HashMap::new();
    empty.join(left);
    assert_eq!(sorted_items(empty), vec![(&b"Oslo"[..], (1, 123, 123, 123))]);
}

#[test]
fn the_order_of_a_join_does_not_show() {
    let a = [(&b"x"[..], 5), (&b"y"[..], -5), (&b"x"[..], 7)];
    let b = [(&b"y"[..], 1), (&b"z"[..], 2)];
    let mut ab = table_of(&a);
    ab.join(table_of(&b));
    let mut ba = table_of(&b);
    ba.join(table_of(&a));
    assert_eq!(sorted_items(ab), sorted_items(ba));
}

#[test]
fn can_join_tells_when_a_sum_or_a_count_would_not_fit() {
    let left = table_of(&[(b"k", i64::MAX), (b"other", 1)]);
    assert!(left.can_join(&table_of(&[(b"k", 0), (b"other", i64::MAX - 1)])));
    assert!(!left.can_join(&table_of(&[(b"k", 1)])));
    assert!(!left.can_join(&table_of(&[(b"other", i64::MAX)])));
    assert!(left.can_join(&table_of(&[(b"new", i64::MAX)])));
    assert!(left.can_join(&HashMap::new()));
}

#[test]
fn join_maps_takes_all_tables_together() {
    let maps = vec![
        table_of(&[(b"Oslo", 123)]),
        HashMap::new(),
        table_of(&[(b"Oslo", 71), (b"Berlin", -25)]),
        table_of(&[(b"Berlin", -30), (b"Oslo", 0)]),
    ];
    assert_eq!(
        sorted_items(join_maps(maps)),
        vec![(&b"Berlin"[..], (2, -55, -30, -25)), (&b"Oslo"[..], (3, 194, 0, 123))]
    );
    assert!(join_maps(Vec::new()).into_iter().is_empty());
}

#[test]
fn try_join_maps_joins_what_fits() {
    let maps = vec![table_of(&[(b"k", i64::MAX)]), table_of(&[(b"k", -1)]), table_of(&[(b"k", 1)])];
    let joined = try_join_maps(maps).unwrap();
    assert_eq!(sorted_items(joined), vec![(&b"k"[..], (3, i64::MAX, -1, i64::MAX))]);
    assert!(try_join_maps(Vec::new()).unwrap().into_iter().is_empty());
}

#[test]
fn try_join_maps_gives_up_where_a_sum_does_not_fit_on_the_way() {
    let maps = vec![table_of(&[(b"k", i64::MAX)]), table_of(&[(b"k", 1)]), table_of(&[(b"k", -1)])];
    assert!(try_join_maps(maps).is_none());
}

#[test]
fn into_iter_hands_out_each_key_once() {
    let mut records: Vec<(Vec<u8>, i64)> = Vec::new();
    for i in 0..3000i64 {
        records.push((format!("station-{}", i % 1500).into_bytes(), i));
    }
    let mut table = HashMap::new();
    for (key, value) in &records {
        table.update(hash_of(key), key, *value);
    }
    let items = sorted_items(table);
    assert_eq!(items.len(), 1500);
    for pair in items.windows(2) {
        assert!(pair[0].0 < pair[1].0);
    }
    for (key, (count, sum, min, max)) in items {
        let i: i64 = String::from_utf8(key[8..].to_vec()).unwrap().parse().unwrap();
        assert_eq!((count, sum, min, max), (2, i + i + 1500, i, i + 1500));
    }
}

#[test]
fn same_bytes_compares_byte_for_byte() {
    assert!(same_bytes(b"", b""));
    assert!(same_bytes(b"Oslo", b"Oslo"));
    assert!(!same_bytes(b"Oslo", b"Osla"));
    assert!(!same_bytes(b"Oslo", b"Osl"));
    assert!(!same_bytes(b"", b"O"));
}

#[test]
fn any_hash_will_do_as_long_as_a_key_keeps_it() {
    let mut table = HashMap::new();
    table.update(5, b"Oslo", 123);
    table.update(5, b"Oslo", 71);
    assert_eq!(table.into_iter(), vec![(&b"Oslo"[..], (2, 194, 71, 123))]);
    let mut table = HashMap::new();
    table.update(usize::MAX, b"Oslo", -1);
    table.update(usize::MAX, b"Oslo", -3);
    table.update(0, b"Bergen", 4);
    assert_eq!(
        sorted_items(table),
        vec![(&b"Bergen"[..], (1, 4, 4, 4)), (&b"Oslo"[..], (2, -4, -3, -1))]
    );
}

#[test]
fn two_keys_under_one_hash_stay_apart() {
    let mut table = HashMap::new();
    table.update(7, b"a", 1);
    table.update(7, b"b", 2);
    table.update(7, b"a", 5);
    assert_eq!(
        sorted_items(table),
        vec![(&b"a"[..], (2, 6, 1, 5)), (&b"b"[..], (1, 2, 2, 2))]
    );
}

#[test]
fn hashes_that_agree_on_the_bucket_are_one_hash_to_the_table() {
    let mut table = HashMap::new();
    table.update(3, b"k", 1);
    table.update(3 + HASH_CAP, b"k", 2);
    table.update(3 + 5 * HASH_CAP, b"k", 3);
    assert_eq!(table.into_iter(), vec![(&b"k"[..], (3, 6, 1, 3))]);
}

#[test]
fn the_least_and_the_greatest_do_not_start_at_zero() {
    let mut table = HashMap::new();
    for value in [-30, -10, -20] {
        table.update(9, b"cold", value);
    }
    for value in [30, 10, 20] {
        table.update(9, b"warm", value);
    }
    assert_eq!(
        sorted_items(table),
        vec![(&b"cold"[..], (3, -60, -30, -10)), (&b"warm"[..], (3, 60, 10, 30))]
    );
}

#[test]
fn tables_filed_under_a_hash_of_the_callers_are_joined() {
    let mut left = HashMap::new();
    left.update(1, b"Oslo", 123);
    let mut right = HashMap::new();
    right.update(1, b"Oslo", 71);
    right.update(2, b"Berlin", -25);
    assert!(left.can_join(&right));
    left.join(right);
    assert_eq!(
        sorted_items(left),
        vec![(&b"Berlin"[..], (1, -25, -25, -25)), (&b"Oslo"[..], (2, 194, 71, 123))]
    );
}

#[test]
fn hash_key_is_the_hash_of_the_reader() {
    assert_eq!(hash_key(b""), 0);
    assert_eq!(hash_key(b"a"), 97);
    assert_eq!(hash_key(b"ab"), 97 ^ (98 << 1));
    assert_eq!(hash_key(b"Oslo"), 609);
    for key in [&b"Oslo"[..], b"Berlin", b"", b"a key with blanks", &[0xff; 70]] {
        assert_eq!(hash_key(key), hash_of(key));
    }
}
