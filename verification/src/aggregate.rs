//! The work of one worker: reading a range and gathering its statistics in a
//! table of its own.
use crate::reader::Reader;
use crate::record::{
    after_line, head_line, lemma_first_bounds, line_field, parse_line, records, value_fits, Record,
    TERMINATOR,
};
use crate::stats::{can_tally, lemma_summary_push, summary_of, Stats};
use crate::table::HashMap;
use vstd::prelude::*;

verus! {

/// Whether the records can be gathered one after the other with numbers that
/// an `i64` holds: each value, and after each record the count and the sum of
/// its key.
pub open spec fn sums_fit(records: Seq<Record>) -> bool
    decreases records.len(),
{
    records.len() == 0 || {
        &&& sums_fit(records.drop_last())
        &&& value_fits(records.last().value)
        &&& can_tally(summary_of(records.drop_last()), records.last().key, records.last().value)
    }
}

/// Records that can be gathered can be gathered up to any point.
pub proof fn lemma_sums_fit_prefix(records: Seq<Record>, n: int)
    requires
        sums_fit(records),
        0 <= n <= records.len(),
    ensures
        sums_fit(records.take(n)),
    decreases records.len(),
{
    if n < records.len() {
        lemma_sums_fit_prefix(records.drop_last(), n);
        assert(records.drop_last().take(n) =~= records.take(n));
    } else {
        assert(records.take(n) =~= records);
    }
}

/// Reads `chunk` and gathers the statistics of its records in a table that
/// files each key under the hash that the reader makes of it. The answer is
/// `None` where a value, a count or a sum leaves the range of `i64` on the
/// way.
pub fn aggregate<'a>(chunk: &'a [u8]) -> (r: Option<HashMap<'a>>)
    ensures
        r is Some <==> sums_fit(records(chunk@)),
        r matches Some(table) ==> {
            &&& table.wf()
            &&& table@ == summary_of(records(chunk@))
            &&& table.filed_by_key_hash()
        },
{
    let mut stations = HashMap::new();
    let mut reader = Reader::new(chunk);
    let ghost mut done: Seq<Record> = Seq::empty();
    proof {
        assert(done + records(reader@) =~= records(chunk@));
        assert(summary_of(done) =~= Map::<Seq<u8>, Stats>::empty());
    }
    loop
        invariant
            stations.wf(),
            records(chunk@) == done + records(reader@),
            sums_fit(done),
            stations@ == summary_of(done),
            stations.filed_by_key_hash(),
        decreases reader@.len(),
    {
        let ghost rest = reader@;
        let found = reader.try_next();
        if found.is_none() {
            proof {
                assert(done + records(rest) =~= done);
            }
            return Some(stations);
        }
        let (hash, station, measurement) = found.unwrap();
        let ghost record = parse_line(head_line(rest));
        let ghost read = done.push(record);
        proof {
            lemma_first_bounds(rest, TERMINATOR, 0);
            assert(records(chunk@) =~= read + records(reader@));
            assert(read.drop_last() =~= done);
            assert(records(chunk@).take(read.len() as int) =~= read);
            lemma_summary_push(done, record);
            if sums_fit(records(chunk@)) {
                lemma_sums_fit_prefix(records(chunk@), read.len() as int);
            }
        }
        let taken = match measurement {
            Some(measure) => stations.try_update(hash, station, measure),
            None => false,
        };
        if !taken {
            return None;
        }
        proof {
            done = read;
        }
    }
}

} // verus!
