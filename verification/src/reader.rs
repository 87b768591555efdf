//! A cursor over one byte range that hands out its records one by one, as
//! borrowed key bytes with their hash and the scaled value.
use crate::record::{
    after_line, digits_value, field_fits, first, hash_fold, head_line, key_hash, lemma_first_bounds,
    lemma_first_is, lemma_first_skip, line_field, line_key, line_len, parse_line, scanned,
    DELIMITER, MINUS, TERMINATOR, ZERO,
};
use vstd::prelude::*;
use vstd::slice::slice_subrange;

verus! {

/// A cursor over a byte range. What it holds is what it has not read yet.
pub struct Reader<'a> {
    slice: &'a [u8],
}

impl<'a> View for Reader<'a> {
    type V = Seq<u8>;

    /// The bytes that are still to be read.
    closed spec fn view(&self) -> Seq<u8> {
        self.slice@
    }
}

/// The length of the key that opens `s`: the bytes before the first `;` or
/// `\n`, whichever comes first.
spec fn key_len(s: Seq<u8>) -> int {
    first(head_line(s), DELIMITER, 0)
}

/// Scans the key that opens `s` and hashes it on the way.
fn scan_key(s: &[u8]) -> (r: (usize, usize))
    ensures
        r.1 == key_len(s@),
        r.1 <= line_len(s@) <= s@.len(),
        r.0 == key_hash(s@.take(r.1 as int)),
        r.1 < s@.len() ==> s@[r.1 as int] == DELIMITER || s@[r.1 as int] == TERMINATOR,
        (r.1 < s@.len() && s@[r.1 as int] == DELIMITER) <==> r.1 < line_len(s@),
{
    let mut count: usize = 0;
    let mut hash: u64 = 0;
    while count < s.len() && s[count] != DELIMITER && s[count] != TERMINATOR
        invariant
            count <= s@.len(),
            forall|j: int| 0 <= j < count ==> s@[j] != DELIMITER && s@[j] != TERMINATOR,
            hash == hash_fold(s@.take(count as int)),
        decreases s@.len() - count,
    {
        proof {
            assert(s@.take(count + 1).drop_last() =~= s@.take(count as int));
        }
        hash = hash ^ ((s[count] as u64) << ((count % 64) as u64));
        count += 1;
    }
    proof {
        let line = head_line(s@);
        lemma_first_bounds(s@, TERMINATOR, 0);
        if count < s@.len() && s@[count as int] == DELIMITER {
            assert(count < line_len(s@));
        } else {
            lemma_first_is(s@, TERMINATOR, 0, count as int);
        }
        lemma_first_is(line, DELIMITER, 0, count as int);
    }
    (#[verifier::truncate] (hash as usize), count)
}

/// Scans the value field that opens `s`, up to the line's end.
fn scan_value(s: &[u8]) -> (r: (Option<i64>, usize))
    ensures
        r.1 == line_len(s@),
        r.1 <= s@.len(),
        r.0 == scanned(head_line(s@)),
{
    let negative = s.len() > 0 && s[0] == MINUS;
    let mut n: i64 = 0;
    let mut fits = true;
    let mut count: usize = 0;
    while count < s.len() && s[count] != TERMINATOR
        invariant
            count <= s@.len(),
            forall|j: int| 0 <= j < count ==> s@[j] != TERMINATOR,
            0 <= n,
            fits ==> n == digits_value(s@.take(count as int)),
            !fits ==> digits_value(s@.take(count as int)) > i64::MAX,
        decreases s@.len() - count,
    {
        proof {
            assert(s@.take(count + 1).drop_last() =~= s@.take(count as int));
        }
        let c = s[count];
        if ZERO <= c && c <= ZERO + 9 {
            let d: i64 = (c - ZERO) as i64;
            if fits && n <= (i64::MAX - d) / 10 {
                n = n * 10 + d;
            } else {
                fits = false;
            }
        }
        count += 1;
    }
    proof {
        lemma_first_is(s@, TERMINATOR, 0, count as int);
    }
    let value = if !fits {
        None
    } else if negative {
        Some(-n)
    } else {
        Some(n)
    };
    (value, count)
}

impl<'a> Reader<'a> {
    /// A cursor at the start of `slice`.
    pub fn new(slice: &'a [u8]) -> (r: Self)
        ensures
            r@ == slice@,
    {
        Self { slice }
    }

    /// Takes the next `count` bytes and steps over the byte behind them, the
    /// delimiter that ended the scan, where there is one.
    fn advance(&mut self, count: usize) -> (part: &'a [u8])
        requires
            count <= old(self)@.len(),
        ensures
            part@ == old(self)@.take(count as int),
            final(self)@ == if count < old(self)@.len() {
                old(self)@.skip(count + 1)
            } else {
                Seq::empty()
            },
    {
        let part = slice_subrange(self.slice, 0, count);
        let len = self.slice.len();
        let from = if count < len {
            count + 1
        } else {
            len
        };
        self.slice = slice_subrange(self.slice, from, len);
        part
    }

    /// Reads the next record: the key's hash, the key's bytes and the value,
    /// which is `None` where its digits spell more than an `i64` holds. The
    /// answer is `None` once the range is used up. The key is a part of the
    /// range itself, and its hash is made in the one pass that finds its end.
    pub fn try_next(&mut self) -> (r: Option<(usize, &'a [u8], Option<i64>)>)
        ensures
            old(self)@.len() == 0 ==> r is None && final(self)@ == old(self)@,
            old(self)@.len() > 0 ==> r is Some && final(self)@ == after_line(old(self)@),
            r matches Some(found) ==> {
                &&& found.0 == key_hash(found.1@)
                &&& found.1@ == parse_line(head_line(old(self)@)).key
                &&& found.2 == scanned(line_field(head_line(old(self)@)))
            },
    {
        if self.slice.len() == 0 {
            return None;
        }
        let ghost s = self.slice@;
        let (hash, count) = scan_key(self.slice);
        let has_field = count < self.slice.len() && self.slice[count] == DELIMITER;
        let name = self.advance(count);
        proof {
            lemma_first_bounds(s, TERMINATOR, 0);
            assert(name@ =~= line_key(head_line(s)));
        }
        let measurement = if has_field {
            let ghost rest = self.slice@;
            let (value, count) = scan_value(self.slice);
            self.advance(count);
            proof {
                lemma_first_skip(s, TERMINATOR, key_len(s) + 1);
                lemma_first_is(s, TERMINATOR, key_len(s) + 1, line_len(s));
                assert(head_line(rest) =~= line_field(head_line(s)));
                assert(self.slice@ =~= after_line(s));
            }
            value
        } else {
            proof {
                assert(line_field(head_line(s)) =~= Seq::<u8>::empty());
                assert(self.slice@ =~= after_line(s));
            }
            Some(0)
        };
        Some((hash, name, measurement))
    }

    /// Whether the value of the next record fits in an `i64`, if there is a
    /// next record.
    pub open spec fn next_fits(&self) -> bool {
        self@.len() > 0 ==> field_fits(line_field(head_line(self@)))
    }

    /// Reads the next record: the key's hash, the key's bytes and the value.
    /// The answer is `None` once the range is used up. The value must fit in
    /// an `i64`; where that is not known of the input, `try_next` reads the
    /// same without asking for it.
    pub fn next(&mut self) -> (r: Option<(usize, &'a [u8], i64)>)
        requires
            old(self).next_fits(),
        ensures
            old(self)@.len() == 0 ==> r is None && final(self)@ == old(self)@,
            old(self)@.len() > 0 ==> r is Some && final(self)@ == after_line(old(self)@),
            r matches Some(found) ==> {
                &&& found.0 == key_hash(found.1@)
                &&& found.1@ == parse_line(head_line(old(self)@)).key
                &&& found.2 == parse_line(head_line(old(self)@)).value
            },
    {
        match self.try_next() {
            None => None,
            Some((hash, name, measurement)) => Some((hash, name, measurement.unwrap())),
        }
    }
}

} // verus!
