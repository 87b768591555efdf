//! What a set of records amounts to: for each key the count, the sum, the
//! least and the greatest of its values. Tables are held to this model, and
//! the rules by which summaries combine are proved here, over unbounded
//! integers.
use crate::record::Record;
use vstd::prelude::*;

verus! {

/// The statistics of one key.
pub struct Stats {
    pub count: int,
    pub sum: int,
    pub min: int,
    pub max: int,
}

/// The statistics of every key that occurs.
pub type Summary = Map<Seq<u8>, Stats>;

impl Stats {
    /// The statistics of a single value.
    pub open spec fn single(value: int) -> Stats {
        Stats { count: 1, sum: value, min: value, max: value }
    }

    /// The statistics of two groups of values taken together.
    pub open spec fn combine(self, other: Stats) -> Stats {
        Stats {
            count: self.count + other.count,
            sum: self.sum + other.sum,
            min: if other.min < self.min {
                other.min
            } else {
                self.min
            },
            max: if other.max > self.max {
                other.max
            } else {
                self.max
            },
        }
    }

    /// What holds of the statistics of any group of values that is not empty:
    /// the mean lies between the least and the greatest.
    pub open spec fn valid(self) -> bool {
        &&& self.count >= 1
        &&& self.min <= self.max
        &&& self.count * self.min <= self.sum <= self.count * self.max
    }

    /// Whether each of the four numbers can be held in an `i64`.
    pub open spec fn fits(self) -> bool {
        &&& i64::MIN <= self.count <= i64::MAX
        &&& i64::MIN <= self.sum <= i64::MAX
        &&& i64::MIN <= self.min <= i64::MAX
        &&& i64::MIN <= self.max <= i64::MAX
    }
}

/// The sum of a sequence of values.
pub open spec fn total(values: Seq<int>) -> int
    decreases values.len(),
{
    if values.len() == 0 {
        0
    } else {
        total(values.drop_last()) + values.last()
    }
}

/// The statistics of a sequence of values.
pub open spec fn stats_of(values: Seq<int>) -> Stats {
    Stats { count: values.len() as int, sum: total(values), min: values.min(), max: values.max() }
}

/// The values of the records that carry `key`, in the records' order.
pub open spec fn values_of(records: Seq<Record>, key: Seq<u8>) -> Seq<int>
    decreases records.len(),
{
    if records.len() == 0 {
        Seq::empty()
    } else if records.last().key == key {
        values_of(records.drop_last(), key).push(records.last().value)
    } else {
        values_of(records.drop_last(), key)
    }
}

/// The summary of a sequence of records: a key is in it when a record carries
/// it, with the statistics of the values of those records.
pub open spec fn summary_of(records: Seq<Record>) -> Summary {
    Map::new(
        |key: Seq<u8>| values_of(records, key).len() > 0,
        |key: Seq<u8>| stats_of(values_of(records, key)),
    )
}

/// `summary` with the statistics `stats` added under `key`.
pub open spec fn put(summary: Summary, key: Seq<u8>, stats: Stats) -> Summary {
    summary.insert(
        key,
        if summary.contains_key(key) {
            summary[key].combine(stats)
        } else {
            stats
        },
    )
}

/// Whether `stats` can be added under `key` with numbers that an `i64` holds.
pub open spec fn can_put(summary: Summary, key: Seq<u8>, stats: Stats) -> bool {
    summary.contains_key(key) ==> summary[key].combine(stats).fits()
}

/// Whether one more record leaves numbers that an `i64` holds.
pub open spec fn can_tally(summary: Summary, key: Seq<u8>, value: int) -> bool {
    can_put(summary, key, Stats::single(value))
}

/// `summary` after one more record.
pub open spec fn tally(summary: Summary, key: Seq<u8>, value: int) -> Summary {
    put(summary, key, Stats::single(value))
}

/// Two summaries taken together.
pub open spec fn merge(a: Summary, b: Summary) -> Summary {
    Map::new(
        |key: Seq<u8>| a.contains_key(key) || b.contains_key(key),
        |key: Seq<u8>|
            if a.contains_key(key) && b.contains_key(key) {
                a[key].combine(b[key])
            } else if a.contains_key(key) {
                a[key]
            } else {
                b[key]
            },
    )
}

/// Whether two summaries can be taken together with numbers that an `i64`
/// holds.
pub open spec fn can_merge(a: Summary, b: Summary) -> bool {
    forall|key: Seq<u8>|
        a.contains_key(key) && b.contains_key(key) ==> (#[trigger] a[key]).combine(b[key]).fits()
}

/// The summaries of `parts` taken together, from the first on.
pub open spec fn merge_all(parts: Seq<Summary>) -> Summary
    decreases parts.len(),
{
    if parts.len() == 0 {
        Map::empty()
    } else {
        merge(merge_all(parts.drop_last()), parts.last())
    }
}

/// Whether `parts` can be taken together, from the first on, with numbers that
/// an `i64` holds at every step.
pub open spec fn merges_fit(parts: Seq<Summary>) -> bool
    decreases parts.len(),
{
    parts.len() == 0 || (merges_fit(parts.drop_last()) && can_merge(
        merge_all(parts.drop_last()),
        parts.last(),
    ))
}

/// What can be taken together, can be taken together up to any point.
pub proof fn lemma_merges_fit_prefix(parts: Seq<Summary>, n: int)
    requires
        merges_fit(parts),
        0 <= n <= parts.len(),
    ensures
        merges_fit(parts.take(n)),
    decreases parts.len(),
{
    if n < parts.len() {
        lemma_merges_fit_prefix(parts.drop_last(), n);
        assert(parts.drop_last().take(n) =~= parts.take(n));
    } else {
        assert(parts.take(n) =~= parts);
    }
}

/// The sum of two sequences laid end to end is the sum of their sums.
pub proof fn lemma_total_concat(a: Seq<int>, b: Seq<int>)
    ensures
        total(a + b) == total(a) + total(b),
    decreases b.len(),
{
    if b.len() == 0 {
        assert(a + b =~= a);
    } else {
        assert((a + b).drop_last() =~= a + b.drop_last());
        lemma_total_concat(a, b.drop_last());
    }
}

/// The least of two sequences laid end to end is the lesser of their least
/// values, and likewise for the greatest.
pub proof fn lemma_extremes_concat(a: Seq<int>, b: Seq<int>)
    requires
        a.len() > 0,
        b.len() > 0,
    ensures
        (a + b).min() == if b.min() < a.min() {
            b.min()
        } else {
            a.min()
        },
        (a + b).max() == if b.max() > a.max() {
            b.max()
        } else {
            a.max()
        },
{
    a.min_ensures();
    b.min_ensures();
    (a + b).min_ensures();
    a.max_ensures();
    b.max_ensures();
    (a + b).max_ensures();
    let i = choose|i: int| 0 <= i < a.len() && a[i] == a.min();
    let j = choose|j: int| 0 <= j < b.len() && b[j] == b.min();
    assert((a + b)[i] == a.min());
    assert((a + b)[a.len() + j] == b.min());
    let k = choose|k: int| 0 <= k < (a + b).len() && (a + b)[k] == (a + b).min();
    assert(k < a.len() ==> (a + b)[k] == a[k]);
    assert(k >= a.len() ==> (a + b)[k] == b[k - a.len()]);
    let i = choose|i: int| 0 <= i < a.len() && a[i] == a.max();
    let j = choose|j: int| 0 <= j < b.len() && b[j] == b.max();
    assert((a + b)[i] == a.max());
    assert((a + b)[a.len() + j] == b.max());
    let k = choose|k: int| 0 <= k < (a + b).len() && (a + b)[k] == (a + b).max();
    assert(k < a.len() ==> (a + b)[k] == a[k]);
    assert(k >= a.len() ==> (a + b)[k] == b[k - a.len()]);
}

/// The statistics of two sequences laid end to end are the statistics of each,
/// combined.
pub proof fn lemma_stats_concat(a: Seq<int>, b: Seq<int>)
    requires
        a.len() > 0,
        b.len() > 0,
    ensures
        stats_of(a + b) == stats_of(a).combine(stats_of(b)),
{
    lemma_total_concat(a, b);
    lemma_extremes_concat(a, b);
}

/// The statistics of one value are those of `Stats::single`.
pub proof fn lemma_stats_single(value: int)
    ensures
        stats_of(seq![value]) == Stats::single(value),
        Stats::single(value).valid(),
{
    let one = seq![value];
    assert(one.drop_last() =~= Seq::<int>::empty());
    assert(total(one.drop_last()) == 0);
    assert(total(one) == value);
    assert(one.min() == value);
    assert(one.max() == value);
}

/// The statistics of values are valid as soon as there is a value.
pub proof fn lemma_stats_valid(values: Seq<int>)
    requires
        values.len() > 0,
    ensures
        stats_of(values).valid(),
    decreases values.len(),
{
    let back = seq![values.last()];
    lemma_stats_single(values.last());
    if values.len() == 1 {
        assert(values =~= back);
    } else {
        let front = values.drop_last();
        assert(values =~= front + back);
        lemma_stats_valid(front);
        lemma_stats_concat(front, back);
        lemma_combine_valid(stats_of(front), stats_of(back));
    }
}

/// Combining keeps statistics valid.
pub proof fn lemma_combine_valid(a: Stats, b: Stats)
    requires
        a.valid(),
        b.valid(),
    ensures
        a.combine(b).valid(),
{
    let c = a.combine(b);
    assert(a.count * c.min <= a.count * a.min) by (nonlinear_arith)
        requires
            a.count >= 1,
            c.min <= a.min,
    ;
    assert(b.count * c.min <= b.count * b.min) by (nonlinear_arith)
        requires
            b.count >= 1,
            c.min <= b.min,
    ;
    assert(a.count * a.max <= a.count * c.max) by (nonlinear_arith)
        requires
            a.count >= 1,
            a.max <= c.max,
    ;
    assert(b.count * b.max <= b.count * c.max) by (nonlinear_arith)
        requires
            b.count >= 1,
            b.max <= c.max,
    ;
    assert((a.count + b.count) * c.min == a.count * c.min + b.count * c.min)
        by (nonlinear_arith);
    assert((a.count + b.count) * c.max == a.count * c.max + b.count * c.max)
        by (nonlinear_arith);
}

/// The values of a key in two sequences of records laid end to end are its
/// values in the first, then its values in the second.
pub proof fn lemma_values_concat(a: Seq<Record>, b: Seq<Record>, key: Seq<u8>)
    ensures
        values_of(a + b, key) =~= values_of(a, key) + values_of(b, key),
    decreases b.len(),
{
    if b.len() == 0 {
        assert(a + b =~= a);
    } else {
        assert((a + b).drop_last() =~= a + b.drop_last());
        lemma_values_concat(a, b.drop_last(), key);
    }
}

/// Summaries can be built piece by piece: the summary of two sequences of
/// records laid end to end is the merge of their summaries.
pub proof fn lemma_summary_concat(a: Seq<Record>, b: Seq<Record>)
    ensures
        summary_of(a + b) =~= merge(summary_of(a), summary_of(b)),
{
    let whole = summary_of(a + b);
    let merged = merge(summary_of(a), summary_of(b));
    assert forall|key: Seq<u8>| #[trigger]
        whole.dom().contains(key) == merged.dom().contains(key) && (whole.dom().contains(key)
            ==> whole[key] == merged[key]) by {
        lemma_values_concat(a, b, key);
        let va = values_of(a, key);
        let vb = values_of(b, key);
        if va.len() > 0 && vb.len() > 0 {
            lemma_stats_concat(va, vb);
        } else if va.len() > 0 {
            assert(va + vb =~= va);
        } else {
            assert(va + vb =~= vb);
        }
    }
    assert(whole.dom() =~= merged.dom());
}

/// One more record changes a summary as `tally` says.
pub proof fn lemma_summary_push(records: Seq<Record>, record: Record)
    ensures
        summary_of(records.push(record)) =~= tally(
            summary_of(records),
            record.key,
            record.value,
        ),
{
    let one = seq![record];
    assert(records.push(record) =~= records + one);
    lemma_summary_concat(records, one);
    assert(one.drop_last() =~= Seq::<Record>::empty());
    assert forall|key: Seq<u8>| #[trigger]
        values_of(one, key) == if key == record.key {
            seq![record.value]
        } else {
            Seq::<int>::empty()
        } by {
        assert(values_of(one.drop_last(), key) =~= Seq::<int>::empty());
        assert(Seq::<int>::empty().push(record.value) =~= seq![record.value]);
    }
    lemma_stats_single(record.value);
    assert(summary_of(one) =~= Map::<Seq<u8>, Stats>::empty().insert(
        record.key,
        Stats::single(record.value),
    ));
}

/// No records, no keys.
pub proof fn lemma_summary_empty()
    ensures
        summary_of(Seq::<Record>::empty()) =~= Map::<Seq<u8>, Stats>::empty(),
{
}

/// Merging does not depend on the order of the two summaries.
pub proof fn lemma_merge_commutes(a: Summary, b: Summary)
    ensures
        merge(a, b) =~= merge(b, a),
{
}

/// Merging does not depend on how three summaries are grouped.
pub proof fn lemma_merge_associates(a: Summary, b: Summary, c: Summary)
    ensures
        merge(merge(a, b), c) =~= merge(a, merge(b, c)),
{
}

/// A summary can be taken out of its place and merged in last.
pub proof fn lemma_merge_all_remove(parts: Seq<Summary>, i: int)
    requires
        0 <= i < parts.len(),
    ensures
        merge_all(parts) =~= merge(merge_all(parts.remove(i)), parts[i]),
    decreases parts.len(),
{
    if i == parts.len() - 1 {
        assert(parts.remove(i) =~= parts.drop_last());
    } else {
        let front = parts.drop_last();
        lemma_merge_all_remove(front, i);
        assert(parts.remove(i).drop_last() =~= front.remove(i));
        assert(parts.remove(i).last() == parts.last());
        let rest = merge_all(front.remove(i));
        assert(merge(merge(rest, parts[i]), parts.last()) =~= merge(
            merge(rest, parts.last()),
            parts[i],
        ));
    }
}

/// The order of the summaries does not show in what they come to when they
/// are taken together: two sequences that hold the same summaries, each as
/// often in the one as in the other, merge into the same.
pub proof fn lemma_merge_all_any_order(a: Seq<Summary>, b: Seq<Summary>)
    requires
        a.to_multiset() =~= b.to_multiset(),
    ensures
        merge_all(a) =~= merge_all(b),
    decreases a.len(),
{
    a.to_multiset_ensures();
    b.to_multiset_ensures();
    if a.len() == 0 {
        assert(b.len() == 0);
    } else {
        let last = a.last();
        let front = a.drop_last();
        assert(a =~= front.push(last));
        front.to_multiset_ensures();
        assert(a.to_multiset().count(last) > 0);
        assert(b.contains(last));
        let i = choose|i: int| 0 <= i < b.len() && b[i] == last;
        let rest = b.remove(i);
        assert(rest.to_multiset() =~= front.to_multiset());
        lemma_merge_all_any_order(front, rest);
        lemma_merge_all_remove(b, i);
    }
}

/// The empty summary changes nothing in a merge.
pub proof fn lemma_merge_empty(a: Summary)
    ensures
        merge(a, Map::empty()) =~= a,
        merge(Map::empty(), a) =~= a,
{
}

/// The places of the records that carry `key`.
pub open spec fn lines_with(records: Seq<Record>, key: Seq<u8>) -> Set<int> {
    Set::new(|i: int| 0 <= i < records.len() && records[i].key == key)
}

/// Whether a record that carries `key` has the value `value`.
pub open spec fn is_value_of(records: Seq<Record>, key: Seq<u8>, value: int) -> bool {
    exists|i: int|
        0 <= i < records.len() && (#[trigger] records[i]).key == key && records[i].value == value
}

/// The values of a key are the values of the records that carry it: each such
/// record gives one of the values, and each of the values is that of such a
/// record.
pub proof fn lemma_values_are_of_lines(records: Seq<Record>, key: Seq<u8>)
    ensures
        forall|i: int|
            0 <= i < records.len() && (#[trigger] records[i]).key == key ==> values_of(
                records,
                key,
            ).contains(records[i].value),
        forall|j: int|
            0 <= j < values_of(records, key).len() ==> is_value_of(
                records,
                key,
                #[trigger] values_of(records, key)[j],
            ),
    decreases records.len(),
{
    if records.len() > 0 {
        let front = records.drop_last();
        let last = records.last();
        let values = values_of(records, key);
        let before = values_of(front, key);
        lemma_values_are_of_lines(front, key);
        assert forall|i: int|
            0 <= i < records.len() && (#[trigger] records[i]).key == key implies values.contains(
            records[i].value,
        ) by {
            if i < front.len() {
                assert(front[i] == records[i]);
                let at = choose|at: int| 0 <= at < before.len() && before[at] == front[i].value;
                assert(values[at] == records[i].value);
            } else {
                assert(values[values.len() - 1] == last.value);
            }
        }
        assert forall|j: int| 0 <= j < values.len() implies is_value_of(
            records,
            key,
            #[trigger] values[j],
        ) by {
            if j < before.len() {
                assert(values[j] == before[j]);
                assert(is_value_of(front, key, before[j]));
                let i = choose|i: int|
                    0 <= i < front.len() && (#[trigger] front[i]).key == key && front[i].value
                        == before[j];
                assert(records[i] == front[i]);
            } else {
                assert(records[records.len() - 1].key == key);
            }
        }
    }
}

/// Whether a record carries `key`.
pub open spec fn occurs(records: Seq<Record>, key: Seq<u8>) -> bool {
    exists|i: int| 0 <= i < records.len() && (#[trigger] records[i]).key == key
}

/// The keys of a summary are the keys of the records, no more and no less.
pub proof fn lemma_summary_keys(records: Seq<Record>, key: Seq<u8>)
    ensures
        summary_of(records).contains_key(key) <==> occurs(records, key),
{
    lemma_values_are_of_lines(records, key);
    let values = values_of(records, key);
    if values.len() > 0 {
        assert(is_value_of(records, key, values[0]));
        let i = choose|i: int|
            0 <= i < records.len() && (#[trigger] records[i]).key == key && records[i].value
                == values[0];
        assert(records[i].key == key);
    }
    if occurs(records, key) {
        let i = choose|i: int| 0 <= i < records.len() && (#[trigger] records[i]).key == key;
        assert(values.contains(records[i].value));
    }
}

/// A key has as many values as there are records that carry it.
pub proof fn lemma_count_is_number_of_lines(records: Seq<Record>, key: Seq<u8>)
    ensures
        lines_with(records, key).finite(),
        values_of(records, key).len() == lines_with(records, key).len(),
    decreases records.len(),
{
    if records.len() == 0 {
        assert(lines_with(records, key) =~= Set::<int>::empty());
    } else {
        let front = records.drop_last();
        lemma_count_is_number_of_lines(front, key);
        let n = front.len() as int;
        if records.last().key == key {
            assert(lines_with(records, key) =~= lines_with(front, key).insert(n));
        } else {
            assert(lines_with(records, key) =~= lines_with(front, key));
        }
    }
}

/// What the summary says of a key is true of the records that carry it: the
/// count is their number, the sum is the sum of their values, the least value
/// is one of theirs and none of theirs is less, and likewise the greatest.
pub proof fn lemma_summary_is_true(records: Seq<Record>, key: Seq<u8>)
    requires
        summary_of(records).contains_key(key),
    ensures
        summary_of(records)[key].count == lines_with(records, key).len(),
        summary_of(records)[key].sum == total(values_of(records, key)),
        forall|i: int|
            0 <= i < records.len() && (#[trigger] records[i]).key == key ==> summary_of(
                records,
            )[key].min <= records[i].value <= summary_of(records)[key].max,
        exists|i: int|
            0 <= i < records.len() && (#[trigger] records[i]).key == key && records[i].value
                == summary_of(records)[key].min,
        exists|i: int|
            0 <= i < records.len() && (#[trigger] records[i]).key == key && records[i].value
                == summary_of(records)[key].max,
        summary_of(records)[key].valid(),
{
    let values = values_of(records, key);
    lemma_count_is_number_of_lines(records, key);
    lemma_values_are_of_lines(records, key);
    lemma_stats_valid(values);
    values.min_ensures();
    values.max_ensures();
    let low = choose|j: int| 0 <= j < values.len() && values[j] == values.min();
    let high = choose|j: int| 0 <= j < values.len() && values[j] == values.max();
    assert(is_value_of(records, key, values[low]));
    assert(is_value_of(records, key, values[high]));
    let i = choose|i: int|
        0 <= i < records.len() && (#[trigger] records[i]).key == key && records[i].value
            == values[low];
    let k = choose|k: int|
        0 <= k < records.len() && (#[trigger] records[k]).key == key && records[k].value
            == values[high];
    assert(records[i].value == summary_of(records)[key].min);
    assert(records[k].value == summary_of(records)[key].max);
}

} // verus!
