//! The meaning of an input range: which records its bytes hold.
//!
//! A range is read line by line. A line ends at a `\n` or at the end of the
//! range. Inside a line the key runs up to the first `;`; the rest of the line
//! is the value field. Every byte string has a meaning under these rules, so
//! nothing here rejects an input: a line without `;` is a key with the value 0,
//! and in a value field only a leading `-` and the decimal digits count.
use vstd::prelude::*;

verus! {

/// The byte that ends a key: `;`.
pub const DELIMITER: u8 = 0x3b;

/// The byte that ends a line: `\n`.
pub const TERMINATOR: u8 = 0x0a;

/// The byte that marks a negative value when it opens a value field: `-`.
pub const MINUS: u8 = 0x2d;

/// The digit `0`; the other digits follow it.
pub const ZERO: u8 = 0x30;

/// One line of input: the key's bytes and the value scaled by ten.
pub struct Record {
    pub key: Seq<u8>,
    pub value: int,
}

/// The least index at or after `from` at which `s` holds `b`, or the length of
/// `s` where it holds none there.
pub open spec fn first(s: Seq<u8>, b: u8, from: int) -> int
    decreases s.len() - from,
{
    if from >= s.len() || s[from] == b {
        from
    } else {
        first(s, b, from + 1)
    }
}

/// `first(s, b, from)` is `at` exactly when no byte of `s` in `from..at` is `b`
/// and `at` is the end of `s` or holds `b`.
pub proof fn lemma_first_is(s: Seq<u8>, b: u8, from: int, at: int)
    requires
        0 <= from <= at <= s.len(),
        forall|j: int| from <= j < at ==> s[j] != b,
        at == s.len() || s[at] == b,
    ensures
        first(s, b, from) == at,
    decreases at - from,
{
    if from < at {
        lemma_first_is(s, b, from + 1, at);
    }
}

/// Where `first` lands: inside the bounds, behind bytes that differ from `b`.
pub proof fn lemma_first_bounds(s: Seq<u8>, b: u8, from: int)
    requires
        0 <= from <= s.len(),
    ensures
        from <= first(s, b, from) <= s.len(),
        forall|j: int| from <= j < first(s, b, from) ==> s[j] != b,
        first(s, b, from) == s.len() || s[first(s, b, from)] == b,
    decreases s.len() - from,
{
    if from < s.len() && s[from] != b {
        lemma_first_bounds(s, b, from + 1);
    }
}

/// Looking for `b` in what is left of `s` behind its first `m` bytes is looking
/// for it in `s` from `m` on.
pub proof fn lemma_first_skip(s: Seq<u8>, b: u8, m: int)
    requires
        0 <= m <= s.len(),
    ensures
        first(s.skip(m), b, 0) + m == first(s, b, m),
{
    lemma_first_bounds(s, b, m);
    let at = first(s, b, m);
    lemma_first_is(s.skip(m), b, 0, at - m);
}

/// Whether `b` is one of the ten decimal digits.
pub open spec fn is_digit(b: u8) -> bool {
    ZERO <= b <= ZERO + 9
}

/// The number that the decimal digits of `field` spell when every other byte
/// is passed over.
pub open spec fn digits_value(field: Seq<u8>) -> nat
    decreases field.len(),
{
    if field.len() == 0 {
        0
    } else if is_digit(field.last()) {
        digits_value(field.drop_last()) * 10 + (field.last() - ZERO) as nat
    } else {
        digits_value(field.drop_last())
    }
}

/// The value of a value field: its digits, negated where the field opens with
/// `-`. The fraction point is one of the bytes passed over, so `12.3` is 123.
pub open spec fn number(field: Seq<u8>) -> int {
    if field.len() > 0 && field[0] == MINUS {
        -(digits_value(field) as int)
    } else {
        digits_value(field) as int
    }
}

/// Whether the value of `field` can be held in an `i64` the way the scanner
/// builds it: as a magnitude that is negated at the end.
pub open spec fn field_fits(field: Seq<u8>) -> bool {
    digits_value(field) <= i64::MAX
}

/// Whether a value can be held in an `i64` the way the scanner builds it. The
/// least `i64` cannot: its magnitude is one more than an `i64` holds.
pub open spec fn value_fits(value: int) -> bool {
    -i64::MAX <= value <= i64::MAX
}

/// The value of `field` as the scanner hands it out.
pub open spec fn scanned(field: Seq<u8>) -> Option<i64> {
    if field_fits(field) {
        Some(number(field) as i64)
    } else {
        None
    }
}

/// The rolling hash of a key: each byte, shifted left by its position modulo
/// 64, folded in with exclusive or.
pub open spec fn hash_fold(key: Seq<u8>) -> u64
    decreases key.len(),
{
    if key.len() == 0 {
        0
    } else {
        hash_fold(key.drop_last()) ^ ((key.last() as u64) << (((key.len() - 1) % 64) as u64))
    }
}

/// The hash that the scanner makes of a key while it looks for the key's end.
/// A table takes any hash; the tables that `aggregate` fills are all filed
/// under this one, which is what lets them be merged bucket by bucket.
pub open spec fn key_hash(key: Seq<u8>) -> usize {
    hash_fold(key) as usize
}

/// The length of the first line of `s`, its terminator not counted.
pub open spec fn line_len(s: Seq<u8>) -> int {
    first(s, TERMINATOR, 0)
}

/// The first line of `s`, without its terminator.
pub open spec fn head_line(s: Seq<u8>) -> Seq<u8> {
    s.take(line_len(s))
}

/// What follows the first line of `s` and its terminator.
pub open spec fn after_line(s: Seq<u8>) -> Seq<u8> {
    if line_len(s) < s.len() {
        s.skip(line_len(s) + 1)
    } else {
        Seq::empty()
    }
}

/// The key of a line: its bytes before the first `;`, or all of them.
pub open spec fn line_key(line: Seq<u8>) -> Seq<u8> {
    line.take(first(line, DELIMITER, 0))
}

/// The value field of a line: its bytes behind the first `;`, or none.
pub open spec fn line_field(line: Seq<u8>) -> Seq<u8> {
    if first(line, DELIMITER, 0) < line.len() {
        line.skip(first(line, DELIMITER, 0) + 1)
    } else {
        Seq::empty()
    }
}

/// The record that a line holds.
pub open spec fn parse_line(line: Seq<u8>) -> Record {
    Record { key: line_key(line), value: number(line_field(line)) }
}

/// The records of a range, in the order of its lines.
pub open spec fn records(s: Seq<u8>) -> Seq<Record>
    decreases s.len(),
{
    if s.len() == 0 {
        Seq::empty()
    } else {
        proof {
            lemma_first_bounds(s, TERMINATOR, 0);
        }
        seq![parse_line(head_line(s))] + records(after_line(s))
    }
}

/// Whether a range stops where a line stops: it is empty or ends in `\n`.
pub open spec fn line_aligned(s: Seq<u8>) -> bool {
    s.len() == 0 || s.last() == TERMINATOR
}

/// A range that stops where a line stops can be read apart from what follows
/// it: the records of the whole are its records, then those of the rest. The
/// same holds, for want of a rest, where nothing follows.
pub proof fn lemma_records_concat(a: Seq<u8>, b: Seq<u8>)
    requires
        line_aligned(a) || b.len() == 0,
    ensures
        records(a + b) =~= records(a) + records(b),
    decreases a.len(),
{
    if b.len() == 0 {
        assert(a + b =~= a);
    } else if a.len() == 0 {
        assert(a + b =~= b);
    } else {
        let n = line_len(a);
        lemma_first_bounds(a, TERMINATOR, 0);
        assert(n < a.len());
        lemma_first_is(a + b, TERMINATOR, 0, n);
        assert(head_line(a + b) =~= head_line(a));
        assert(after_line(a + b) =~= after_line(a) + b);
        lemma_records_concat(after_line(a), b);
    }
}

} // verus!
