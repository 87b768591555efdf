//! The report: one line for each key, in the order of the keys, written as
//! `{key=min/mean/max, key=min/mean/max}`.
use crate::fixed::{fixed_text, mean_of, rounded_mean, Float};
use crate::keys::{
    before, key_less, lemma_before_asymmetric, lemma_before_total, lemma_before_transitive,
};
use crate::stats::{Stats, Summary};
use crate::table::{lists, stats_from, HashMap};
use vstd::prelude::*;

verus! {

/// The byte between a key and its values: `=`.
pub const EQUALS: u8 = 0x3d;

/// The byte between two values: `/`.
pub const SLASH: u8 = 0x2f;

/// The byte that opens the report: `{`.
pub const OPEN: u8 = 0x7b;

/// The byte that closes the report: `}`.
pub const CLOSE: u8 = 0x7d;

/// The first of the two bytes between two lines: `,`.
pub const COMMA: u8 = 0x2c;

/// The second of the two bytes between two lines: a blank.
pub const BLANK: u8 = 0x20;

/// What one line of the report says: a key, the least value, the rounded mean
/// and the greatest value, each scaled by ten.
pub struct Line {
    pub key: Seq<u8>,
    pub min: int,
    pub mean: int,
    pub max: int,
}

/// One line of the report.
#[derive(Clone, Copy)]
pub struct Row<'a> {
    pub key: &'a [u8],
    pub min: Float,
    pub mean: Float,
    pub max: Float,
}

impl<'a> View for Row<'a> {
    type V = Line;

    open spec fn view(&self) -> Line {
        Line {
            key: self.key@,
            min: self.min.0 as int,
            mean: self.mean.0 as int,
            max: self.max.0 as int,
        }
    }
}

/// What rows say, row by row.
pub open spec fn lines(rows: Seq<Row>) -> Seq<Line> {
    Seq::new(rows.len(), |i: int| rows[i]@)
}

/// The line that reports `stats` under `key`.
pub open spec fn line_of(key: Seq<u8>, stats: Stats) -> Line {
    Line { key, min: stats.min, mean: mean_of(stats.sum, stats.count), max: stats.max }
}

/// Whether the keys of the lines go up strictly, which leaves no key twice.
pub open spec fn ascending(lines: Seq<Line>) -> bool {
    forall|i: int, j: int|
        0 <= i < j < lines.len() ==> before((#[trigger] lines[i]).key, (#[trigger] lines[j]).key)
}

/// Whether a line reports `key`.
pub open spec fn listed(lines: Seq<Line>, key: Seq<u8>) -> bool {
    exists|i: int| 0 <= i < lines.len() && (#[trigger] lines[i]).key == key
}

/// Whether `lines` is the report of `summary`: each line reports a key of the
/// summary, the keys go up strictly, and no key of the summary is left out.
pub open spec fn reports(lines: Seq<Line>, summary: Summary) -> bool {
    &&& forall|i: int|
        0 <= i < lines.len() ==> summary.contains_key((#[trigger] lines[i]).key) && lines[i]
            == line_of(lines[i].key, summary[lines[i].key])
    &&& ascending(lines)
    &&& forall|key: Seq<u8>| #[trigger] summary.contains_key(key) ==> listed(lines, key)
}

/// The report of `summary`. There is one whenever the summary has finitely
/// many keys, and never more than one: see `lemma_report_unique`.
pub open spec fn report_of(summary: Summary) -> Seq<Line> {
    choose|lines: Seq<Line>| reports(lines, summary)
}

/// In lines that go up, a key stands at one place only.
proof fn lemma_ascending_distinct(lines: Seq<Line>, i: int, j: int)
    requires
        ascending(lines),
        0 <= i < lines.len(),
        0 <= j < lines.len(),
        lines[i].key == lines[j].key,
    ensures
        i == j,
{
    crate::keys::lemma_before_irreflexive(lines[i].key);
    if i < j {
        assert(before(lines[i].key, lines[j].key));
    } else if j < i {
        assert(before(lines[j].key, lines[i].key));
    }
}

/// Two reports of one summary agree up to any place that both have.
proof fn lemma_reports_agree(summary: Summary, a: Seq<Line>, b: Seq<Line>, n: int)
    requires
        reports(a, summary),
        reports(b, summary),
        0 <= n <= a.len(),
        n <= b.len(),
    ensures
        forall|i: int| 0 <= i < n ==> a[i] == b[i],
    decreases n,
{
    if n > 0 {
        lemma_reports_agree(summary, a, b, n - 1);
        let i = n - 1;
        // The key of `a[i]` stands somewhere in `b`, and not before `i`.
        assert(summary.contains_key(a[i].key));
        let at = choose|at: int| 0 <= at < b.len() && (#[trigger] b[at]).key == a[i].key;
        if at < i {
            assert(a[at] == b[at]);
            lemma_ascending_distinct(a, at, i);
        }
        assert(summary.contains_key(b[i].key));
        let back = choose|back: int| 0 <= back < a.len() && (#[trigger] a[back]).key == b[i].key;
        if back < i {
            assert(a[back] == b[back]);
            lemma_ascending_distinct(b, back, i);
        }
        if at > i {
            // Then `b[i]` comes before `a[i]`, which comes before or at `a[back]`.
            assert(before(b[i].key, b[at].key));
            if back > i {
                assert(before(a[i].key, a[back].key));
                lemma_before_asymmetric(b[i].key, a[i].key);
            }
        }
    }
}

/// A summary has one report at most.
pub proof fn lemma_report_unique(summary: Summary, a: Seq<Line>, b: Seq<Line>)
    requires
        reports(a, summary),
        reports(b, summary),
    ensures
        a == b,
{
    if a.len() <= b.len() {
        lemma_reports_agree(summary, a, b, a.len() as int);
        if a.len() < b.len() {
            let extra = b[a.len() as int];
            assert(summary.contains_key(extra.key));
            let at = choose|at: int| 0 <= at < a.len() && (#[trigger] a[at]).key == extra.key;
            assert(a[at] == b[at]);
            lemma_ascending_distinct(b, at, a.len() as int);
        }
    } else {
        lemma_reports_agree(summary, a, b, b.len() as int);
        let extra = a[b.len() as int];
        assert(summary.contains_key(extra.key));
        let at = choose|at: int| 0 <= at < b.len() && (#[trigger] b[at]).key == extra.key;
        assert(a[at] == b[at]);
        lemma_ascending_distinct(a, at, b.len() as int);
    }
    assert(a =~= b);
}

/// What stands for a report is the report.
pub proof fn lemma_report_is(summary: Summary, found: Seq<Line>)
    requires
        reports(found, summary),
    ensures
        report_of(summary) == found,
{
    lemma_report_unique(summary, report_of(summary), found);
}

/// Whether the keys of the rows go up strictly.
spec fn sorted(rows: Seq<Row>) -> bool {
    forall|i: int, j: int|
        0 <= i < j < rows.len() ==> before((#[trigger] rows[i]).key@, (#[trigger] rows[j]).key@)
}

/// Whether no two of the rows have the same key.
spec fn distinct(rows: Seq<Row>) -> bool {
    forall|i: int, j: int|
        0 <= i < j < rows.len() ==> (#[trigger] rows[i]).key@ != (#[trigger] rows[j]).key@
}

/// Whether two sequences hold the same rows, in whatever order.
spec fn same_rows(a: Seq<Row>, b: Seq<Row>) -> bool {
    &&& a.len() == b.len()
    &&& forall|i: int| 0 <= i < a.len() ==> b.contains(#[trigger] a[i])
    &&& forall|i: int| 0 <= i < b.len() ==> a.contains(#[trigger] b[i])
}

/// Merges two sorted runs that share no key into one.
fn merge_rows<'a>(left: &Vec<Row<'a>>, right: &Vec<Row<'a>>) -> (out: Vec<Row<'a>>)
    requires
        sorted(left@),
        sorted(right@),
        forall|i: int, j: int|
            0 <= i < left@.len() && 0 <= j < right@.len() ==> (#[trigger] left@[i]).key@ != (
            #[trigger] right@[j]).key@,
    ensures
        sorted(out@),
        same_rows(out@, left@ + right@),
{
    let mut out: Vec<Row<'a>> = Vec::new();
    let mut i: usize = 0;
    let mut j: usize = 0;
    while i < left.len() || j < right.len()
        invariant
            sorted(left@),
            sorted(right@),
            forall|p: int, q: int|
                0 <= p < left@.len() && 0 <= q < right@.len() ==> (#[trigger] left@[p]).key@ != (
                #[trigger] right@[q]).key@,
            i <= left@.len(),
            j <= right@.len(),
            out@.len() == i + j,
            sorted(out@),
            forall|p: int|
                0 <= p < out@.len() && i < left@.len() ==> before(
                    (#[trigger] out@[p]).key@,
                    left@[i as int].key@,
                ),
            forall|p: int|
                0 <= p < out@.len() && j < right@.len() ==> before(
                    (#[trigger] out@[p]).key@,
                    right@[j as int].key@,
                ),
            forall|p: int|
                0 <= p < out@.len() ==> (left@ + right@).contains(#[trigger] out@[p]),
            forall|p: int| 0 <= p < i ==> out@.contains(#[trigger] left@[p]),
            forall|q: int| 0 <= q < j ==> out@.contains(#[trigger] right@[q]),
        decreases left@.len() - i + right@.len() - j,
    {
        let ghost merged = out@;
        let take_left = if j >= right.len() {
            true
        } else if i >= left.len() {
            false
        } else {
            key_less(left[i].key, right[j].key)
        };
        if take_left {
            let row = left[i];
            out.push(row);
            proof {
                assert((left@ + right@)[i as int] == row);
                assert(out@[merged.len() as int] == row);
                assert forall|p: int| 0 <= p < out@.len() && i + 1 < left@.len() implies before(
                    (#[trigger] out@[p]).key@,
                    left@[i + 1].key@,
                ) by {
                    assert(before(left@[i as int].key@, left@[i + 1].key@));
                    if p < merged.len() {
                        assert(out@[p] == merged[p]);
                        lemma_before_transitive(
                            merged[p].key@,
                            left@[i as int].key@,
                            left@[i + 1].key@,
                        );
                    }
                }
                assert forall|p: int| 0 <= p < i + 1 implies out@.contains(
                    #[trigger] left@[p],
                ) by {
                    if p < i {
                        let at = choose|at: int| 0 <= at < merged.len() && merged[at] == left@[p];
                        assert(out@[at] == left@[p]);
                    }
                }
                assert forall|q: int| 0 <= q < j implies out@.contains(#[trigger] right@[q]) by {
                    let at = choose|at: int| 0 <= at < merged.len() && merged[at] == right@[q];
                    assert(out@[at] == right@[q]);
                }
                assert forall|p: int| 0 <= p < out@.len() implies (left@ + right@).contains(
                    #[trigger] out@[p],
                ) by {
                    if p < merged.len() {
                        assert(out@[p] == merged[p]);
                    }
                }
            }
            i += 1;
        } else {
            let row = right[j];
            out.push(row);
            proof {
                assert((left@ + right@)[left@.len() + j] == row);
                assert(out@[merged.len() as int] == row);
                if i < left@.len() {
                    lemma_before_total(left@[i as int].key@, row.key@);
                }
                assert forall|p: int| 0 <= p < out@.len() && j + 1 < right@.len() implies before(
                    (#[trigger] out@[p]).key@,
                    right@[j + 1].key@,
                ) by {
                    assert(before(right@[j as int].key@, right@[j + 1].key@));
                    if p < merged.len() {
                        assert(out@[p] == merged[p]);
                        lemma_before_transitive(
                            merged[p].key@,
                            right@[j as int].key@,
                            right@[j + 1].key@,
                        );
                    }
                }
                assert forall|p: int| 0 <= p < i implies out@.contains(#[trigger] left@[p]) by {
                    let at = choose|at: int| 0 <= at < merged.len() && merged[at] == left@[p];
                    assert(out@[at] == left@[p]);
                }
                assert forall|q: int| 0 <= q < j + 1 implies out@.contains(
                    #[trigger] right@[q],
                ) by {
                    if q < j {
                        let at = choose|at: int| 0 <= at < merged.len() && merged[at] == right@[q];
                        assert(out@[at] == right@[q]);
                    }
                }
                assert forall|p: int| 0 <= p < out@.len() implies (left@ + right@).contains(
                    #[trigger] out@[p],
                ) by {
                    if p < merged.len() {
                        assert(out@[p] == merged[p]);
                    }
                }
            }
            j += 1;
        }
    }
    proof {
        let both = left@ + right@;
        assert forall|p: int| 0 <= p < both.len() implies out@.contains(#[trigger] both[p]) by {
            if p < left@.len() {
                assert(both[p] == left@[p]);
            } else {
                assert(both[p] == right@[p - left@.len()]);
            }
        }
    }
    out
}

/// Puts rows with distinct keys into the order of their keys.
fn sort_rows<'a>(rows: Vec<Row<'a>>) -> (out: Vec<Row<'a>>)
    requires
        distinct(rows@),
    ensures
        sorted(out@),
        same_rows(out@, rows@),
    decreases rows@.len(),
{
    let n = rows.len();
    if n <= 1 {
        proof {
            assert forall|i: int| 0 <= i < rows@.len() implies rows@.contains(
                #[trigger] rows@[i],
            ) by {}
        }
        return rows;
    }
    let mid = n / 2;
    let mut left: Vec<Row<'a>> = Vec::new();
    let mut right: Vec<Row<'a>> = Vec::new();
    let mut i: usize = 0;
    while i < n
        invariant
            n == rows@.len(),
            mid < n,
            i <= n,
            left@ =~= rows@.take(if i < mid {
                i as int
            } else {
                mid as int
            }),
            right@ =~= rows@.subrange(
                mid as int,
                if i < mid {
                    mid as int
                } else {
                    i as int
                },
            ),
        decreases n - i,
    {
        if i < mid {
            left.push(rows[i]);
        } else {
            right.push(rows[i]);
        }
        i += 1;
    }
    let ghost first = left@;
    let ghost second = right@;
    proof {
        assert(rows@ =~= first + second);
        assert forall|p: int, q: int| 0 <= p < q < first.len() implies (#[trigger] first[p]).key@
            != (#[trigger] first[q]).key@ by {
            assert(first[p] == rows@[p] && first[q] == rows@[q]);
        }
        assert forall|p: int, q: int| 0 <= p < q < second.len() implies (
        #[trigger] second[p]).key@ != (#[trigger] second[q]).key@ by {
            assert(second[p] == rows@[mid + p] && second[q] == rows@[mid + q]);
        }
    }
    let left = sort_rows(left);
    let right = sort_rows(right);
    proof {
        assert forall|p: int, q: int|
            0 <= p < left@.len() && 0 <= q < right@.len() implies (#[trigger] left@[p]).key@ != (
        #[trigger] right@[q]).key@ by {
            assert(first.contains(left@[p]));
            assert(second.contains(right@[q]));
            let a = choose|a: int| 0 <= a < first.len() && first[a] == left@[p];
            let b = choose|b: int| 0 <= b < second.len() && second[b] == right@[q];
            assert(first[a] == rows@[a] && second[b] == rows@[mid + b]);
        }
    }
    let out = merge_rows(&left, &right);
    proof {
        let both = left@ + right@;
        assert forall|p: int| 0 <= p < out@.len() implies rows@.contains(#[trigger] out@[p]) by {
            assert(both.contains(out@[p]));
            let at = choose|at: int| 0 <= at < both.len() && both[at] == out@[p];
            if at < left@.len() {
                assert(both[at] == left@[at]);
                assert(first.contains(left@[at]));
                let a = choose|a: int| 0 <= a < first.len() && first[a] == left@[at];
                assert(rows@[a] == out@[p]);
            } else {
                assert(both[at] == right@[at - left@.len()]);
                assert(second.contains(right@[at - left@.len()]));
                let b = choose|b: int|
                    0 <= b < second.len() && second[b] == right@[at - left@.len()];
                assert(rows@[mid + b] == out@[p]);
            }
        }
        assert forall|p: int| 0 <= p < rows@.len() implies out@.contains(#[trigger] rows@[p]) by {
            if p < mid {
                assert(first[p] == rows@[p]);
                assert(left@.contains(first[p]));
                let a = choose|a: int| 0 <= a < left@.len() && left@[a] == first[p];
                assert(both[a] == rows@[p]);
                assert(out@.contains(both[a]));
            } else {
                assert(second[p - mid] == rows@[p]);
                assert(right@.contains(second[p - mid]));
                let b = choose|b: int| 0 <= b < right@.len() && right@[b] == second[p - mid];
                assert(both[left@.len() + b] == rows@[p]);
                assert(out@.contains(both[left@.len() + b]));
            }
        }
    }
    out
}

/// The lines of the report of a table, in the order of their keys.
pub fn sorted_rows<'a>(stations: HashMap<'a>) -> (rows: Vec<Row<'a>>)
    requires
        stations.wf(),
    ensures
        reports(lines(rows@), stations@),
        lines(rows@) == report_of(stations@),
{
    let ghost summary = stations@;
    proof {
        assert forall|key: Seq<u8>| summary.contains_key(key) implies (#[trigger] summary[key]).valid() by {
            stations.lemma_valid(key);
        }
    }
    let items = stations.into_iter();
    let mut results: Vec<Row<'a>> = Vec::new();
    let mut i: usize = 0;
    while i < items.len()
        invariant
            lists(items@, summary),
            forall|key: Seq<u8>| summary.contains_key(key) ==> (#[trigger] summary[key]).valid(),
            i <= items@.len(),
            results@.len() == i,
            forall|p: int|
                0 <= p < i ==> (#[trigger] results@[p])@ == line_of(
                    items@[p].0@,
                    summary[items@[p].0@],
                ),
        decreases items@.len() - i,
    {
        let (s, (n, total, min, max)) = items[i];
        proof {
            assert(summary.contains_key(items@[i as int].0@));
            assert(summary[s@].valid());
        }
        let mean = rounded_mean(total, n);
        results.push(Row { key: s, min: Float(min), mean: Float(mean), max: Float(max) });
        i += 1;
    }
    let ghost unsorted = results@;
    proof {
        assert forall|p: int, q: int| 0 <= p < q < unsorted.len() implies (
        #[trigger] unsorted[p]).key@ != (#[trigger] unsorted[q]).key@ by {
            assert(unsorted[p]@.key == items@[p].0@);
            assert(unsorted[q]@.key == items@[q].0@);
        }
    }
    let rows = sort_rows(results);
    proof {
        let found = lines(rows@);
        assert forall|p: int| 0 <= p < found.len() implies summary.contains_key(
            (#[trigger] found[p]).key,
        ) && found[p] == line_of(found[p].key, summary[found[p].key]) by {
            assert(unsorted.contains(rows@[p]));
            let at = choose|at: int| 0 <= at < unsorted.len() && unsorted[at] == rows@[p];
            assert(unsorted[at]@ == line_of(items@[at].0@, summary[items@[at].0@]));
            assert(summary.contains_key(items@[at].0@));
        }
        assert forall|p: int, q: int| 0 <= p < q < found.len() implies before(
            (#[trigger] found[p]).key,
            (#[trigger] found[q]).key,
        ) by {
            assert(before(rows@[p].key@, rows@[q].key@));
        }
        assert forall|key: Seq<u8>| #[trigger] summary.contains_key(key) implies listed(
            found,
            key,
        ) by {
            let at = choose|at: int| 0 <= at < items@.len() && (#[trigger] items@[at]).0@ == key;
            assert(unsorted[at]@.key == key);
            assert(rows@.contains(unsorted[at]));
            let to = choose|to: int| 0 <= to < rows@.len() && rows@[to] == unsorted[at];
            assert(found[to].key == key);
        }
        lemma_report_is(summary, found);
    }
    rows
}

/// How one line is written: `key=min/mean/max`.
pub open spec fn line_text(line: Line) -> Seq<u8> {
    line.key + seq![EQUALS] + fixed_text(line.min) + seq![SLASH] + fixed_text(line.mean) + seq![
        SLASH,
    ] + fixed_text(line.max)
}

/// How lines are written one after the other: with `, ` between two of them.
pub open spec fn lines_text(lines: Seq<Line>) -> Seq<u8>
    decreases lines.len(),
{
    if lines.len() == 0 {
        Seq::empty()
    } else if lines.len() == 1 {
        line_text(lines[0])
    } else {
        lines_text(lines.drop_last()) + seq![COMMA, BLANK] + line_text(lines.last())
    }
}

/// How a report is written: its lines between `{` and `}`.
pub open spec fn report_text(lines: Seq<Line>) -> Seq<u8> {
    seq![OPEN] + lines_text(lines) + seq![CLOSE]
}

/// Appends `bytes` to `out`.
fn push_bytes(out: &mut Vec<u8>, bytes: &[u8])
    ensures
        final(out)@ == old(out)@ + bytes@,
{
    let ghost start = out@;
    let mut i: usize = 0;
    while i < bytes.len()
        invariant
            i <= bytes@.len(),
            out@ == start + bytes@.take(i as int),
        decreases bytes@.len() - i,
    {
        out.push(bytes[i]);
        proof {
            assert(out@ =~= start + bytes@.take(i + 1));
        }
        i += 1;
    }
    proof {
        assert(bytes@.take(bytes@.len() as int) =~= bytes@);
    }
}

/// Writes rows as a report.
pub fn render(rows: &Vec<Row>) -> (text: Vec<u8>)
    ensures
        text@ == report_text(lines(rows@)),
{
    let mut text: Vec<u8> = Vec::new();
    text.push(OPEN);
    let ghost all = lines(rows@);
    let mut i: usize = 0;
    while i < rows.len()
        invariant
            all == lines(rows@),
            i <= rows@.len(),
            text@ == seq![OPEN] + lines_text(all.take(i as int)),
        decreases rows@.len() - i,
    {
        let ghost start = text@;
        if i != 0 {
            text.push(COMMA);
            text.push(BLANK);
        }
        let row = rows[i];
        push_bytes(&mut text, row.key);
        text.push(EQUALS);
        row.min.write(&mut text);
        text.push(SLASH);
        row.mean.write(&mut text);
        text.push(SLASH);
        row.max.write(&mut text);
        proof {
            let upto = all.take(i + 1);
            assert(upto.drop_last() =~= all.take(i as int));
            assert(upto.last() == row@);
            if i == 0 {
                assert(lines_text(all.take(0)) =~= Seq::<u8>::empty());
                assert(text@ =~= seq![OPEN] + line_text(row@));
            } else {
                assert(text@ =~= start + seq![COMMA, BLANK] + line_text(row@));
            }
            assert(text@ =~= seq![OPEN] + lines_text(upto));
        }
        i += 1;
    }
    proof {
        assert(all.take(rows@.len() as int) =~= all);
    }
    text.push(CLOSE);
    text
}

/// Writes the report of a table: `{key=min/mean/max, ...}`, the keys in
/// ascending order of their bytes.
pub fn format_result(stations: HashMap) -> (text: Vec<u8>)
    requires
        stations.wf(),
    ensures
        reports(report_of(stations@), stations@),
        text@ == report_text(report_of(stations@)),
{
    let rows = sorted_rows(stations);
    render(&rows)
}

} // verus!
