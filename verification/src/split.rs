//! Cutting the input into ranges that workers can read apart from each other:
//! every range begins where a line begins.
use crate::record::{
    first, lemma_first_bounds, lemma_first_is, lemma_records_concat, records, TERMINATOR,
};
use crate::stats::{lemma_summary_concat, merge_all, summary_of, Summary};
use vstd::prelude::*;
use vstd::slice::slice_subrange;

verus! {

/// Whether a range that stops at `at` in `s` can be read apart from what
/// follows: `at` is where `s` begins or ends, or the byte before it ends a line.
pub open spec fn clean_cut(s: Seq<u8>, at: int) -> bool {
    at == 0 || at == s.len() || (0 < at < s.len() && s[at - 1] == TERMINATOR)
}

/// Whether `cuts` cuts `s` into ranges, the first to the last, that can be
/// read apart: the cuts run from 0 to the length of `s` without turning back,
/// and each is clean.
pub open spec fn clean_cuts(s: Seq<u8>, cuts: Seq<int>) -> bool {
    &&& cuts.len() >= 1
    &&& cuts[0] == 0
    &&& cuts.last() == s.len()
    &&& forall|i: int, j: int| 0 <= i <= j < cuts.len() ==> cuts[i] <= cuts[j]
    &&& forall|i: int| 0 <= i < cuts.len() ==> clean_cut(s, #[trigger] cuts[i])
}

/// The ranges into which `cuts` cuts `s`.
pub open spec fn pieces(s: Seq<u8>, cuts: Seq<int>) -> Seq<Seq<u8>> {
    Seq::new((cuts.len() - 1) as nat, |i: int| s.subrange(cuts[i], cuts[i + 1]))
}

/// The summary of each of `chunks`, read by itself.
pub open spec fn summaries(chunks: Seq<Seq<u8>>) -> Seq<Summary> {
    Seq::new(chunks.len(), |i: int| summary_of(records(chunks[i])))
}

/// However the input is cut into ranges at line ends, and however many ranges
/// there are: summing up each range by itself and merging the summaries gives
/// the summary of the whole input.
pub proof fn lemma_pieces_merge(s: Seq<u8>, cuts: Seq<int>)
    requires
        clean_cuts(s, cuts),
    ensures
        merge_all(summaries(pieces(s, cuts))) =~= summary_of(records(s)),
{
    lemma_pieces_merge_to(s, cuts, cuts.len() - 1);
    assert(pieces(s, cuts).take(cuts.len() - 1) =~= pieces(s, cuts));
    assert(s.take(s.len() as int) =~= s);
}

/// The first `n` ranges, merged, are the summary of the input up to cut `n`.
proof fn lemma_pieces_merge_to(s: Seq<u8>, cuts: Seq<int>, n: int)
    requires
        clean_cuts(s, cuts),
        0 <= n < cuts.len(),
    ensures
        merge_all(summaries(pieces(s, cuts).take(n))) =~= summary_of(records(s.take(cuts[n]))),
    decreases n,
{
    let parts = summaries(pieces(s, cuts).take(n));
    if n == 0 {
        assert(s.take(0) =~= Seq::<u8>::empty());
    } else {
        lemma_pieces_merge_to(s, cuts, n - 1);
        let front = s.take(cuts[n - 1]);
        let piece = s.subrange(cuts[n - 1], cuts[n]);
        assert(cuts[0] <= cuts[n - 1] <= cuts[n] <= cuts[cuts.len() - 1]);
        assert(clean_cut(s, cuts[n - 1]));
        assert(s.take(cuts[n]) =~= front + piece);
        assert(parts.drop_last() =~= summaries(pieces(s, cuts).take(n - 1)));
        assert(parts.last() == summary_of(records(piece)));
        lemma_records_concat(front, piece);
        lemma_summary_concat(records(front), records(piece));
    }
}

/// The place in a buffer of `len` bytes near which boundary `i` of `count`
/// falls.
pub open spec fn candidate(len: int, count: int, i: int) -> int {
    len * i / count
}

/// Where the line that holds byte `from` of `s` is over: behind the first
/// terminator at or after `from`, or at the end of `s`.
pub open spec fn line_start_after(s: Seq<u8>, from: int) -> int {
    if first(s, TERMINATOR, from) < s.len() {
        first(s, TERMINATOR, from) + 1
    } else {
        s.len() as int
    }
}

/// Boundary `i` of the split of `s` into `count` ranges: the start of range
/// `i`, which is the end of the range before it.
pub open spec fn boundary(s: Seq<u8>, count: int, i: int) -> int {
    if i <= 0 {
        0
    } else if i >= count {
        s.len() as int
    } else {
        line_start_after(s, candidate(s.len() as int, count, i))
    }
}

/// The boundaries of the split of `s` into `count` ranges. A split into no
/// ranges is a split into one.
pub open spec fn boundaries(s: Seq<u8>, count: int) -> Seq<int> {
    Seq::new(
        if count < 1 {
            2
        } else {
            (count + 1) as nat
        },
        |i: int| boundary(s, count, i),
    )
}

/// The candidates lie inside the buffer and do not turn back.
pub proof fn lemma_candidates_ordered(len: int, count: int, i: int, j: int)
    by (nonlinear_arith)
    requires
        0 <= len,
        0 <= i <= j <= count,
        0 < count,
    ensures
        0 <= candidate(len, count, i) <= candidate(len, count, j) <= len,
{
    assert(len * i <= len * j);
    assert(len * j <= len * count);
    assert(len * count / count == len);
}

/// Starting later never ends the line earlier.
pub proof fn lemma_line_start_ordered(s: Seq<u8>, from: int, to: int)
    requires
        0 <= from <= to <= s.len(),
    ensures
        from <= line_start_after(s, from) <= line_start_after(s, to) <= s.len(),
        clean_cut(s, line_start_after(s, from)),
{
    lemma_first_bounds(s, TERMINATOR, from);
    lemma_first_bounds(s, TERMINATOR, to);
    if first(s, TERMINATOR, from) >= to {
        lemma_first_is(s, TERMINATOR, to, first(s, TERMINATOR, from));
    }
}

/// The boundaries of a split cut the input cleanly.
pub proof fn lemma_boundaries_clean(s: Seq<u8>, count: int)
    requires
        0 <= count,
    ensures
        clean_cuts(s, boundaries(s, count)),
{
    let cuts = boundaries(s, count);
    let len = s.len() as int;
    assert forall|i: int, j: int| 0 <= i <= j < cuts.len() implies cuts[i] <= cuts[j]
        && clean_cut(s, cuts[i]) by {
        if 0 < i < count {
            lemma_candidates_ordered(len, count, i, i);
            lemma_line_start_ordered(s, candidate(len, count, i), candidate(len, count, i));
        }
        if 0 < j < count {
            lemma_candidates_ordered(len, count, j, j);
            lemma_line_start_ordered(s, candidate(len, count, j), candidate(len, count, j));
        }
        if 0 < i && j < count {
            lemma_candidates_ordered(len, count, i, j);
            lemma_line_start_ordered(s, candidate(len, count, i), candidate(len, count, j));
        }
    }
    assert forall|i: int| 0 <= i < cuts.len() implies clean_cut(s, #[trigger] cuts[i]) by {
        assert(cuts[i] <= cuts[i]);
    }
}

/// However many ranges the input is split into: summing up each range by
/// itself and merging the summaries gives the summary of the whole input.
pub proof fn lemma_split_merge(s: Seq<u8>, count: int)
    requires
        0 <= count,
    ensures
        merge_all(summaries(pieces(s, boundaries(s, count)))) =~= summary_of(records(s)),
{
    lemma_boundaries_clean(s, count);
    lemma_pieces_merge(s, boundaries(s, count));
}

/// The ranges of a cut, laid end to end, are the input.
pub proof fn lemma_pieces_cover(s: Seq<u8>, cuts: Seq<int>)
    requires
        clean_cuts(s, cuts),
    ensures
        pieces(s, cuts).flatten() =~= s,
{
    lemma_pieces_cover_to(s, cuts, cuts.len() - 1);
    assert(pieces(s, cuts).take(cuts.len() - 1) =~= pieces(s, cuts));
    assert(s.take(s.len() as int) =~= s);
}

/// The first `n` ranges of a cut, laid end to end, are the input up to cut `n`.
proof fn lemma_pieces_cover_to(s: Seq<u8>, cuts: Seq<int>, n: int)
    requires
        clean_cuts(s, cuts),
        0 <= n < cuts.len(),
    ensures
        pieces(s, cuts).take(n).flatten() =~= s.take(cuts[n]),
    decreases n,
{
    if n > 0 {
        lemma_pieces_cover_to(s, cuts, n - 1);
        let front = pieces(s, cuts).take(n - 1);
        let piece = s.subrange(cuts[n - 1], cuts[n]);
        assert(cuts[0] <= cuts[n - 1] <= cuts[n] <= cuts[cuts.len() - 1]);
        assert(pieces(s, cuts).take(n) =~= front.push(piece));
        front.lemma_flatten_push(piece);
        assert(s.take(cuts[n]) =~= s.take(cuts[n - 1]) + piece);
    }
}

/// Cuts `file` into `count` ranges of about the same length, each starting
/// where a line starts, that follow each other and cover the file. A range is
/// empty where its boundaries fall into the same line. For a `count` of 0 the
/// file comes back as one range.
pub fn split_map<'a>(file: &'a [u8], count: usize) -> (chunks: Vec<&'a [u8]>)
    ensures
        chunks@.len() == pieces(file@, boundaries(file@, count as int)).len(),
        forall|i: int|
            0 <= i < chunks@.len() ==> (#[trigger] chunks@[i])@ == pieces(
                file@,
                boundaries(file@, count as int),
            )[i],
{
    let len = file.len();
    let ghost cuts = boundaries(file@, count as int);
    proof {
        lemma_boundaries_clean(file@, count as int);
    }
    let mut chunks: Vec<&'a [u8]> = Vec::new();
    let mut begin: usize = 0;
    let mut i: usize = 1;
    while i < count
        invariant
            len == file@.len(),
            cuts == boundaries(file@, count as int),
            clean_cuts(file@, cuts),
            1 <= i,
            i <= count || (count == 0 && i == 1),
            begin == cuts[i - 1],
            chunks@.len() == i - 1,
            forall|k: int|
                0 <= k < chunks@.len() ==> (#[trigger] chunks@[k])@ == pieces(file@, cuts)[k],
        decreases count - i,
    {
        proof {
            lemma_candidates_ordered(len as int, count as int, i as int, i as int);
            assert(len * i <= usize::MAX * usize::MAX) by (nonlinear_arith)
                requires
                    0 <= len <= usize::MAX,
                    0 <= i <= usize::MAX,
            ;
        }
        let mut cur: usize = ((len as u128) * (i as u128) / (count as u128)) as usize;
        let ghost from = cur;
        while cur < len && file[cur] != TERMINATOR
            invariant
                len == file@.len(),
                from <= cur <= len,
                forall|j: int| from <= j < cur ==> file@[j] != TERMINATOR,
            decreases len - cur,
        {
            cur += 1;
        }
        let end = if cur < len {
            cur + 1
        } else {
            len
        };
        proof {
            lemma_first_is(file@, TERMINATOR, from as int, cur as int);
            assert(end == cuts[i as int]);
            assert(cuts[i - 1] <= cuts[i as int]);
        }
        chunks.push(slice_subrange(file, begin, end));
        begin = end;
        i += 1;
    }
    proof {
        assert(cuts[i - 1] <= cuts[cuts.len() - 1]);
    }
    chunks.push(slice_subrange(file, begin, len));
    chunks
}

} // verus!
