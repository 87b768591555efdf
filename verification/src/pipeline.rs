//! The whole way from the bytes of the input to the bytes of the report, and
//! what the report has to do with the input.
use crate::aggregate::{aggregate, sums_fit};
use crate::fixed::{lemma_mean_between, mean_of};
use crate::keys::{before, lemma_before_irreflexive};
use crate::record::{records, Record};
use crate::report::{ascending, format_result, listed, report_of, report_text, reports, Line};
use crate::split::{boundaries, lemma_split_merge, pieces, split_map, summaries};
use crate::stats::{
    lemma_stats_valid, lemma_summary_keys, merges_fit, occurs, stats_of, summary_of, values_of,
};
use crate::table::{try_join_maps, views, HashMap};
use vstd::prelude::*;

verus! {

/// What a report has to do with the records it reports: it has the keys of
/// the records, no more and no less; the keys go up strictly, so that none
/// comes twice; and each line gives the least and the greatest of the values
/// of its key and, between the two, their mean rounded a half away from zero.
pub proof fn lemma_report_is_true(records: Seq<Record>, lines: Seq<Line>)
    requires
        reports(lines, summary_of(records)),
    ensures
        forall|key: Seq<u8>| listed(lines, key) <==> occurs(records, key),
        ascending(lines),
        forall|i: int, j: int|
            0 <= i < lines.len() && 0 <= j < lines.len() && i != j ==> (#[trigger] lines[i]).key
                != (#[trigger] lines[j]).key,
        forall|i: int|
            0 <= i < lines.len() ==> {
                let stats = stats_of(values_of(records, (#[trigger] lines[i]).key));
                &&& stats.count >= 1
                &&& lines[i].min == stats.min
                &&& lines[i].max == stats.max
                &&& lines[i].mean == mean_of(stats.sum, stats.count)
                &&& lines[i].min <= lines[i].mean <= lines[i].max
            },
{
    let summary = summary_of(records);
    assert forall|key: Seq<u8>| listed(lines, key) <==> occurs(records, key) by {
        lemma_summary_keys(records, key);
        if listed(lines, key) {
            let i = choose|i: int| 0 <= i < lines.len() && (#[trigger] lines[i]).key == key;
            assert(summary.contains_key(lines[i].key));
        }
        if occurs(records, key) {
            assert(summary.contains_key(key));
        }
    }
    assert forall|i: int, j: int|
        0 <= i < lines.len() && 0 <= j < lines.len() && i != j implies (#[trigger] lines[i]).key
        != (#[trigger] lines[j]).key by {
        lemma_before_irreflexive(lines[i].key);
        if i < j {
            assert(before(lines[i].key, lines[j].key));
        } else {
            assert(before(lines[j].key, lines[i].key));
        }
    }
    assert forall|i: int| 0 <= i < lines.len() implies {
        let stats = stats_of(values_of(records, (#[trigger] lines[i]).key));
        &&& stats.count >= 1
        &&& lines[i].min == stats.min
        &&& lines[i].max == stats.max
        &&& lines[i].mean == mean_of(stats.sum, stats.count)
        &&& lines[i].min <= lines[i].mean <= lines[i].max
    } by {
        let key = lines[i].key;
        assert(summary.contains_key(key));
        lemma_stats_valid(values_of(records, key));
        lemma_mean_between(stats_of(values_of(records, key)));
    }
}

/// Whether `s`, split into `count` ranges, can be summed up with numbers that
/// an `i64` holds: each range by itself, and the summaries of the ranges taken
/// together.
pub open spec fn can_summarize(s: Seq<u8>, count: int) -> bool {
    &&& forall|i: int|
        0 <= i < pieces(s, boundaries(s, count)).len() ==> sums_fit(
            records(#[trigger] pieces(s, boundaries(s, count))[i]),
        )
    &&& merges_fit(summaries(pieces(s, boundaries(s, count))))
}

/// Does the whole work in one go and on one thread: splits `file` into `count`
/// ranges, sums up each, merges the tables and writes the report. What comes
/// out is the report of the whole file, whatever `count` is. The answer is
/// `None` where the numbers do not fit on the way.
pub fn summarize(file: &[u8], count: usize) -> (text: Option<Vec<u8>>)
    ensures
        text is Some <==> can_summarize(file@, count as int),
        text matches Some(written) ==> {
            &&& written@ == report_text(report_of(summary_of(records(file@))))
            &&& reports(report_of(summary_of(records(file@))), summary_of(records(file@)))
        },
{
    let chunks = split_map(file, count);
    let ghost parts = pieces(file@, boundaries(file@, count as int));
    let mut maps: Vec<HashMap> = Vec::new();
    let mut i: usize = 0;
    while i < chunks.len()
        invariant
            parts == pieces(file@, boundaries(file@, count as int)),
            chunks@.len() == parts.len(),
            forall|k: int| 0 <= k < chunks@.len() ==> (#[trigger] chunks@[k])@ == parts[k],
            i <= chunks@.len(),
            maps@.len() == i,
            forall|k: int|
                0 <= k < i ==> (#[trigger] maps@[k]).wf() && maps@[k]@ == summary_of(
                    records(parts[k]),
                ) && sums_fit(records(parts[k])) && maps@[k].filed_by_key_hash(),
        decreases chunks@.len() - i,
    {
        match aggregate(chunks[i]) {
            Some(stations) => {
                maps.push(stations);
            },
            None => {
                proof {
                    assert(!sums_fit(records(parts[i as int])));
                }
                return None;
            },
        }
        i += 1;
    }
    proof {
        assert(views(maps@) =~= summaries(parts));
        assert forall|k: int| 0 <= k < parts.len() implies sums_fit(
            records(#[trigger] parts[k]),
        ) by {
            assert(maps@[k].wf());
        }
        lemma_split_merge(file@, count as int);
        HashMap::lemma_filed_alike(maps@);
    }
    match try_join_maps(maps) {
        Some(stations) => Some(format_result(stations)),
        None => None,
    }
}

} // verus!
