//! Values with one decimal place, held as integers scaled by ten: how a mean
//! is rounded to such a value and how such a value is written.
use crate::record::{MINUS, ZERO};
use crate::stats::Stats;
use vstd::prelude::*;

verus! {

/// The byte that parts the integer from the fraction: `.`.
pub const POINT: u8 = 0x2e;

/// A value with one decimal place, scaled by ten: `Float(-5)` is -0.5.
#[derive(Clone, Copy)]
pub struct Float(pub i64);

/// The quotient of `sum` by `count`, rounded to the nearest integer, a half
/// away from zero.
pub open spec fn mean_of(sum: int, count: int) -> int {
    if sum < 0 {
        -((-sum + count / 2) / count)
    } else {
        (sum + count / 2) / count
    }
}

/// The rounded mean of valid statistics lies between the least and the
/// greatest value.
pub proof fn lemma_mean_between(stats: Stats)
    requires
        stats.valid(),
    ensures
        stats.min <= mean_of(stats.sum, stats.count) <= stats.max,
{
    let c = stats.count;
    let s = stats.sum;
    if s < 0 {
        let q = (-s + c / 2) / c;
        assert(-stats.max <= q <= -stats.min) by (nonlinear_arith)
            requires
                c >= 1,
                s < 0,
                q == (-s + c / 2) / c,
                c * stats.min <= s <= c * stats.max,
        {
            assert(q * c <= -s + c / 2 < q * c + c);
        }
    } else {
        let q = (s + c / 2) / c;
        assert(stats.min <= q <= stats.max) by (nonlinear_arith)
            requires
                c >= 1,
                s >= 0,
                q == (s + c / 2) / c,
                c * stats.min <= s <= c * stats.max,
        {
            assert(q * c <= s + c / 2 < q * c + c);
        }
    }
}

/// The rounded mean is never farther from zero than the sum.
pub proof fn lemma_mean_bounded(sum: int, count: int)
    requires
        count >= 1,
    ensures
        sum >= 0 ==> 0 <= mean_of(sum, count) <= sum,
        sum < 0 ==> sum <= mean_of(sum, count) <= 0,
{
    let m = if sum < 0 {
        -sum
    } else {
        sum
    };
    let q = (m + count / 2) / count;
    assert(0 <= q <= m) by (nonlinear_arith)
        requires
            count >= 1,
            m >= 0,
            q == (m + count / 2) / count,
    {
        assert(q * count <= m + count / 2 < q * count + count);
        if m == 0 {
            assert(q == 0);
        }
    }
}

/// The mean of `n` values that add up to `total`, rounded a half away from
/// zero.
pub fn rounded_mean(total: i64, n: i64) -> (mean: i64)
    requires
        n >= 1,
    ensures
        mean == mean_of(total as int, n as int),
{
    proof {
        lemma_mean_bounded(total as int, n as int);
    }
    let t: i128 = total as i128;
    let c: i128 = n as i128;
    if t < 0 {
        (0 - ((0 - t) + c / 2) / c) as i64
    } else {
        ((t + c / 2) / c) as i64
    }
}

/// The decimal digits of `n`, the first not 0 unless `n` is.
pub open spec fn digits(n: nat) -> Seq<u8>
    decreases n,
{
    if n < 10 {
        seq![(ZERO + n) as u8]
    } else {
        digits(n / 10).push((ZERO + n % 10) as u8)
    }
}

/// How a scaled value is written: a `-` where it is negative, the integer
/// part, a point and one digit.
pub open spec fn fixed_text(value: int) -> Seq<u8> {
    let magnitude = if value < 0 {
        -value
    } else {
        value
    };
    let sign = if value < 0 {
        seq![MINUS]
    } else {
        Seq::empty()
    };
    sign + digits((magnitude / 10) as nat) + seq![POINT, (ZERO + magnitude % 10) as u8]
}

/// Bytes as characters, one for one.
pub open spec fn as_chars(bytes: Seq<u8>) -> Seq<char> {
    Seq::new(bytes.len(), |i: int| bytes[i] as char)
}

/// Whether `b` is a byte that written values are made of.
spec fn is_glyph(b: u8) -> bool {
    b == MINUS || b == POINT || (ZERO <= b <= ZERO + 9)
}

/// The digits of a number are digits.
proof fn lemma_digits_bytes(n: nat, i: int)
    requires
        0 <= i < digits(n).len(),
    ensures
        ZERO <= digits(n)[i] <= ZERO + 9,
    decreases n,
{
    if n >= 10 && i < digits(n / 10).len() {
        lemma_digits_bytes(n / 10, i);
    }
}

/// A written value is made of a sign, digits and a point.
proof fn lemma_fixed_text_bytes(value: int, i: int)
    requires
        0 <= i < fixed_text(value).len(),
    ensures
        is_glyph(fixed_text(value)[i]),
{
    let magnitude = if value < 0 {
        -value
    } else {
        value
    };
    let sign: Seq<u8> = if value < 0 {
        seq![MINUS]
    } else {
        Seq::empty()
    };
    let whole = digits((magnitude / 10) as nat);
    if sign.len() <= i < sign.len() + whole.len() {
        lemma_digits_bytes((magnitude / 10) as nat, i - sign.len());
    }
}

/// The text of one byte of a written value.
fn glyph(b: u8) -> (s: &'static str)
    requires
        is_glyph(b),
    ensures
        s@ == seq![b as char],
{
    proof {
        reveal_strlit("-");
        reveal_strlit(".");
        reveal_strlit("0");
        reveal_strlit("1");
        reveal_strlit("2");
        reveal_strlit("3");
        reveal_strlit("4");
        reveal_strlit("5");
        reveal_strlit("6");
        reveal_strlit("7");
        reveal_strlit("8");
        reveal_strlit("9");
    }
    let s = if b == MINUS {
        "-"
    } else if b == POINT {
        "."
    } else if b == ZERO {
        "0"
    } else if b == ZERO + 1 {
        "1"
    } else if b == ZERO + 2 {
        "2"
    } else if b == ZERO + 3 {
        "3"
    } else if b == ZERO + 4 {
        "4"
    } else if b == ZERO + 5 {
        "5"
    } else if b == ZERO + 6 {
        "6"
    } else if b == ZERO + 7 {
        "7"
    } else if b == ZERO + 8 {
        "8"
    } else {
        "9"
    };
    assert(s@ =~= seq![b as char]);
    s
}

/// Appends the decimal digits of `n` to `out`.
fn push_digits(out: &mut Vec<u8>, n: u64)
    ensures
        final(out)@ == old(out)@ + digits(n as nat),
    decreases n,
{
    if n >= 10 {
        push_digits(out, n / 10);
    }
    out.push(ZERO + (n % 10) as u8);
}

impl Float {
    /// Appends the value, as it is written, to `out`.
    pub fn write(&self, out: &mut Vec<u8>)
        ensures
            final(out)@ == old(out)@ + fixed_text(self.0 as int),
    {
        let ghost start = out@;
        let magnitude: u64 = if self.0 < 0 {
            out.push(MINUS);
            (0 - self.0 as i128) as u64
        } else {
            self.0 as u64
        };
        push_digits(out, magnitude / 10);
        out.push(POINT);
        out.push(ZERO + (magnitude % 10) as u8);
        proof {
            assert(out@ =~= start + fixed_text(self.0 as int));
        }
    }

    /// The value as it is written, as text.
    pub fn to_string(&self) -> (text: String)
        ensures
            text@ == as_chars(fixed_text(self.0 as int)),
    {
        let bytes = self.to_bytes();
        let mut text = String::new();
        let mut i: usize = 0;
        while i < bytes.len()
            invariant
                bytes@ == fixed_text(self.0 as int),
                i <= bytes@.len(),
                text@ == as_chars(bytes@.take(i as int)),
            decreases bytes@.len() - i,
        {
            proof {
                lemma_fixed_text_bytes(self.0 as int, i as int);
            }
            text.append(glyph(bytes[i]));
            proof {
                assert(text@ =~= as_chars(bytes@.take(i + 1)));
            }
            i += 1;
        }
        proof {
            assert(bytes@.take(bytes@.len() as int) =~= bytes@);
        }
        text
    }

    /// The value as it is written.
    pub fn to_bytes(&self) -> (text: Vec<u8>)
        ensures
            text@ == fixed_text(self.0 as int),
    {
        let mut text: Vec<u8> = Vec::new();
        self.write(&mut text);
        proof {
            assert(Seq::<u8>::empty() + fixed_text(self.0 as int) =~= fixed_text(self.0 as int));
        }
        text
    }
}

} // verus!
