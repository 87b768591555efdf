//! The table in which one worker gathers the statistics of its range: a fixed
//! number of buckets, each a short list of entries that is searched by key.
//! The caller's hash picks the bucket; the key's bytes decide which entry it
//! is.
use crate::keys::same_bytes;
use crate::record::key_hash;
use crate::stats::{
    can_merge, can_put, can_tally, lemma_combine_valid, lemma_merges_fit_prefix, merge, merge_all,
    merges_fit, put, tally, Stats, Summary,
};
use vstd::prelude::*;

verus! {

/// The number of buckets of every table.
pub const HASH_CAP: usize = 1024;

/// The bucket that the hash of this crate's scanner picks for a key.
pub open spec fn bucket_of(key: Seq<u8>) -> int {
    key_hash(key) as int % HASH_CAP as int
}

/// A key with its statistics: count, sum, least and greatest value.
#[derive(Clone, Copy)]
struct Entry<'a> {
    k: &'a [u8],
    v: (i64, i64, i64, i64),
}

/// A table from keys to their statistics.
///
/// A key is filed in the bucket that its hash picks, and looked for nowhere
/// else. The hash is handed in with the key, so that it can be made while the
/// key is scanned. Which hash function it is does not matter to the table;
/// what matters is that a key comes with the same bucket every time, in this
/// table and in every table that is joined with it.
pub struct HashMap<'a> {
    entries: Vec<Vec<Entry<'a>>>,
}

/// The four numbers of an entry, as statistics.
pub open spec fn stats_from(v: (i64, i64, i64, i64)) -> Stats {
    Stats { count: v.0 as int, sum: v.1 as int, min: v.2 as int, max: v.3 as int }
}

/// The least index at or after `from` at which `bucket` holds `key`, or the
/// bucket's length where it holds the key nowhere there.
spec fn find(bucket: Seq<Entry>, key: Seq<u8>, from: int) -> int
    decreases bucket.len() - from,
{
    if from >= bucket.len() || bucket[from].k@ == key {
        from
    } else {
        find(bucket, key, from + 1)
    }
}

/// `find(bucket, key, from)` is `at` exactly when no entry of `bucket` in
/// `from..at` has `key` and `at` is the end of the bucket or has the key.
proof fn lemma_find_is(bucket: Seq<Entry>, key: Seq<u8>, from: int, at: int)
    requires
        0 <= from <= at <= bucket.len(),
        forall|j: int| from <= j < at ==> bucket[j].k@ != key,
        at == bucket.len() || bucket[at].k@ == key,
    ensures
        find(bucket, key, from) == at,
    decreases at - from,
{
    if from < at {
        lemma_find_is(bucket, key, from + 1, at);
    }
}

/// Where `find` lands: inside the bounds, behind entries with other keys.
proof fn lemma_find_bounds(bucket: Seq<Entry>, key: Seq<u8>, from: int)
    requires
        0 <= from <= bucket.len(),
    ensures
        from <= find(bucket, key, from) <= bucket.len(),
        forall|j: int| from <= j < find(bucket, key, from) ==> bucket[j].k@ != key,
        find(bucket, key, from) == bucket.len() || bucket[find(bucket, key, from)].k@ == key,
    decreases bucket.len() - from,
{
    if from < bucket.len() && bucket[from].k@ != key {
        lemma_find_bounds(bucket, key, from + 1);
    }
}

/// Whether `bucket` holds `key`.
spec fn holds(bucket: Seq<Entry>, key: Seq<u8>) -> bool {
    find(bucket, key, 0) < bucket.len()
}

/// The first bucket at or after `from` that holds `key`, or the number of
/// buckets where none there holds it.
spec fn home(buckets: Seq<Seq<Entry>>, key: Seq<u8>, from: int) -> int
    decreases buckets.len() - from,
{
    if from >= buckets.len() || holds(buckets[from], key) {
        from
    } else {
        home(buckets, key, from + 1)
    }
}

/// `home(buckets, key, from)` is `at` exactly when no bucket in `from..at`
/// holds `key` and `at` is the end of the buckets or holds the key.
proof fn lemma_home_is(buckets: Seq<Seq<Entry>>, key: Seq<u8>, from: int, at: int)
    requires
        0 <= from <= at <= buckets.len(),
        forall|p: int| from <= p < at ==> !holds(#[trigger] buckets[p], key),
        at == buckets.len() || holds(buckets[at], key),
    ensures
        home(buckets, key, from) == at,
    decreases at - from,
{
    if from < at {
        lemma_home_is(buckets, key, from + 1, at);
    }
}

/// Where `home` lands: inside the bounds, behind buckets without the key.
proof fn lemma_home_bounds(buckets: Seq<Seq<Entry>>, key: Seq<u8>, from: int)
    requires
        0 <= from <= buckets.len(),
    ensures
        from <= home(buckets, key, from) <= buckets.len(),
        forall|p: int| from <= p < home(buckets, key, from) ==> !holds(#[trigger] buckets[p], key),
        home(buckets, key, from) == buckets.len() || holds(buckets[home(buckets, key, from)], key),
    decreases buckets.len() - from,
{
    if from < buckets.len() && !holds(buckets[from], key) {
        lemma_home_bounds(buckets, key, from + 1);
    }
}

/// Whether entry `j` of bucket `i` is where its key is found, so that the key
/// is held nowhere else, and has valid statistics.
spec fn placed(buckets: Seq<Seq<Entry>>, i: int, j: int) -> bool {
    &&& home(buckets, buckets[i][j].k@, 0) == i
    &&& find(buckets[i], buckets[i][j].k@, 0) == j
    &&& stats_from(buckets[i][j].v).valid()
}

/// What the buckets of a table are like: there are `HASH_CAP` of them, and
/// every entry is where its key is found.
spec fn sound(buckets: Seq<Seq<Entry>>) -> bool {
    &&& buckets.len() == HASH_CAP
    &&& forall|i: int, j: int|
        0 <= i < buckets.len() && 0 <= j < buckets[i].len() ==> #[trigger] placed(buckets, i, j)
}

/// The statistics that the buckets hold for `key`.
spec fn stats_at(buckets: Seq<Seq<Entry>>, key: Seq<u8>) -> Stats {
    stats_from(
        buckets[home(buckets, key, 0)][find(buckets[home(buckets, key, 0)], key, 0)].v,
    )
}

/// The summary that a sequence of buckets stands for.
spec fn summary_in(buckets: Seq<Seq<Entry>>) -> Summary {
    Map::new(
        |key: Seq<u8>| home(buckets, key, 0) < buckets.len(),
        |key: Seq<u8>| stats_at(buckets, key),
    )
}

/// New statistics in an entry leave every key where it is.
proof fn lemma_set_keeps_places(
    buckets: Seq<Seq<Entry>>,
    pos: int,
    j: int,
    entry: Entry,
    key: Seq<u8>,
)
    requires
        0 <= pos < buckets.len(),
        0 <= j < buckets[pos].len(),
        entry.k@ == buckets[pos][j].k@,
    ensures
        home(buckets.update(pos, buckets[pos].update(j, entry)), key, 0) == home(buckets, key, 0),
        forall|p: int|
            0 <= p < buckets.len() ==> find(
                #[trigger] buckets.update(pos, buckets[pos].update(j, entry))[p],
                key,
                0,
            ) == find(buckets[p], key, 0),
{
    let before = buckets[pos];
    let after = before.update(j, entry);
    let changed = buckets.update(pos, after);
    lemma_find_bounds(before, key, 0);
    lemma_find_is(after, key, 0, find(before, key, 0));
    lemma_home_bounds(buckets, key, 0);
    assert forall|p: int| 0 <= p < buckets.len() implies find(#[trigger] changed[p], key, 0)
        == find(buckets[p], key, 0) by {}
    assert forall|p: int| 0 <= p < home(buckets, key, 0) implies !holds(
        #[trigger] changed[p],
        key,
    ) by {
        assert(!holds(buckets[p], key));
    }
    lemma_home_is(changed, key, 0, home(buckets, key, 0));
}

/// New statistics in an entry keep the buckets sound and change the summary
/// at the key of the entry.
proof fn lemma_summary_set(buckets: Seq<Seq<Entry>>, pos: int, j: int, entry: Entry)
    requires
        sound(buckets),
        0 <= pos < buckets.len(),
        0 <= j < buckets[pos].len(),
        entry.k@ == buckets[pos][j].k@,
        stats_from(entry.v).valid(),
    ensures
        sound(buckets.update(pos, buckets[pos].update(j, entry))),
        summary_in(buckets.update(pos, buckets[pos].update(j, entry))) =~= summary_in(
            buckets,
        ).insert(entry.k@, stats_from(entry.v)),
        forall|key: Seq<u8>|
            home(#[trigger] buckets.update(pos, buckets[pos].update(j, entry)), key, 0) == home(
                buckets,
                key,
                0,
            ),
{
    let changed = buckets.update(pos, buckets[pos].update(j, entry));
    let left = summary_in(changed);
    let right = summary_in(buckets).insert(entry.k@, stats_from(entry.v));
    assert(placed(buckets, pos, j));
    assert forall|key: Seq<u8>| home(changed, key, 0) == home(buckets, key, 0) by {
        lemma_set_keeps_places(buckets, pos, j, entry, key);
    }
    assert forall|key: Seq<u8>| #[trigger]
        left.dom().contains(key) == right.dom().contains(key) && (left.dom().contains(key)
            ==> left[key] == right[key]) by {
        lemma_set_keeps_places(buckets, pos, j, entry, key);
        lemma_home_bounds(buckets, key, 0);
        let p = home(buckets, key, 0);
        if p < buckets.len() {
            assert(find(changed[p], key, 0) == find(buckets[p], key, 0));
            lemma_find_bounds(buckets[p], key, 0);
        }
    }
    assert(left.dom() =~= right.dom());
    assert forall|i: int, l: int|
        0 <= i < changed.len() && 0 <= l < changed[i].len() implies #[trigger] placed(
        changed,
        i,
        l,
    ) by {
        assert(placed(buckets, i, l));
        lemma_set_keeps_places(buckets, pos, j, entry, buckets[i][l].k@);
        assert(find(changed[i], buckets[i][l].k@, 0) == find(buckets[i], buckets[i][l].k@, 0));
    }
}

/// A new entry leaves every other key where it is, and its own key is found
/// in it.
proof fn lemma_push_keeps_places(
    buckets: Seq<Seq<Entry>>,
    pos: int,
    entry: Entry,
    key: Seq<u8>,
)
    requires
        0 <= pos < buckets.len(),
        home(buckets, entry.k@, 0) == buckets.len(),
    ensures
        key != entry.k@ ==> home(buckets.update(pos, buckets[pos].push(entry)), key, 0) == home(
            buckets,
            key,
            0,
        ),
        key != entry.k@ ==> forall|p: int|
            0 <= p < buckets.len() && holds(buckets[p], key) ==> find(
                #[trigger] buckets.update(pos, buckets[pos].push(entry))[p],
                key,
                0,
            ) == find(buckets[p], key, 0),
        key == entry.k@ ==> home(buckets.update(pos, buckets[pos].push(entry)), key, 0) == pos,
        key == entry.k@ ==> find(buckets[pos].push(entry), key, 0) == buckets[pos].len(),
{
    let before = buckets[pos];
    let after = before.push(entry);
    let changed = buckets.update(pos, after);
    lemma_find_bounds(before, key, 0);
    lemma_home_bounds(buckets, key, 0);
    if key == entry.k@ {
        lemma_find_is(after, key, 0, before.len() as int);
        assert forall|p: int| 0 <= p < pos implies !holds(#[trigger] changed[p], key) by {
            assert(!holds(buckets[p], key));
        }
        lemma_home_is(changed, key, 0, pos);
    } else {
        if find(before, key, 0) < before.len() {
            lemma_find_is(after, key, 0, find(before, key, 0));
        } else {
            lemma_find_is(after, key, 0, after.len() as int);
        }
        assert forall|p: int| 0 <= p < home(buckets, key, 0) implies !holds(
            #[trigger] changed[p],
            key,
        ) by {
            assert(!holds(buckets[p], key));
        }
        lemma_home_is(changed, key, 0, home(buckets, key, 0));
    }
}

/// A new entry for a key that is held nowhere keeps the buckets sound and
/// adds its key to the summary.
proof fn lemma_summary_push(buckets: Seq<Seq<Entry>>, pos: int, entry: Entry)
    requires
        sound(buckets),
        0 <= pos < buckets.len(),
        home(buckets, entry.k@, 0) == buckets.len(),
        stats_from(entry.v).valid(),
    ensures
        sound(buckets.update(pos, buckets[pos].push(entry))),
        summary_in(buckets.update(pos, buckets[pos].push(entry))) =~= summary_in(buckets).insert(
            entry.k@,
            stats_from(entry.v),
        ),
        home(buckets.update(pos, buckets[pos].push(entry)), entry.k@, 0) == pos,
        forall|key: Seq<u8>|
            key != entry.k@ ==> home(
                #[trigger] buckets.update(pos, buckets[pos].push(entry)),
                key,
                0,
            ) == home(buckets, key, 0),
{
    let changed = buckets.update(pos, buckets[pos].push(entry));
    let left = summary_in(changed);
    let right = summary_in(buckets).insert(entry.k@, stats_from(entry.v));
    lemma_push_keeps_places(buckets, pos, entry, entry.k@);
    assert forall|key: Seq<u8>| key != entry.k@ implies home(changed, key, 0) == home(
        buckets,
        key,
        0,
    ) by {
        lemma_push_keeps_places(buckets, pos, entry, key);
    }
    assert forall|key: Seq<u8>| #[trigger]
        left.dom().contains(key) == right.dom().contains(key) && (left.dom().contains(key)
            ==> left[key] == right[key]) by {
        lemma_push_keeps_places(buckets, pos, entry, key);
        lemma_home_bounds(buckets, key, 0);
        let p = home(buckets, key, 0);
        if key != entry.k@ && p < buckets.len() {
            assert(find(changed[p], key, 0) == find(buckets[p], key, 0));
            lemma_find_bounds(buckets[p], key, 0);
        }
    }
    assert(left.dom() =~= right.dom());
    assert forall|i: int, l: int|
        0 <= i < changed.len() && 0 <= l < changed[i].len() implies #[trigger] placed(
        changed,
        i,
        l,
    ) by {
        if i == pos && l == buckets[pos].len() {
        } else {
            assert(placed(buckets, i, l));
            let key = buckets[i][l].k@;
            lemma_push_keeps_places(buckets, pos, entry, key);
            assert(holds(buckets[i], key));
            assert(find(changed[i], key, 0) == find(buckets[i], key, 0));
        }
    }
}

/// The summary that the first entries of a sequence of buckets stand for: all
/// of the buckets before `i`, and of bucket `i` the entries before `j`.
spec fn summary_before(buckets: Seq<Seq<Entry>>, i: int, j: int) -> Summary {
    Map::new(
        |key: Seq<u8>|
            home(buckets, key, 0) < buckets.len() && (home(buckets, key, 0) < i || (home(
                buckets,
                key,
                0,
            ) == i && find(buckets[i], key, 0) < j)),
        |key: Seq<u8>| stats_at(buckets, key),
    )
}

/// One entry further, the summary of the first entries has that entry's key.
proof fn lemma_summary_before_step(buckets: Seq<Seq<Entry>>, i: int, j: int)
    requires
        sound(buckets),
        0 <= i < HASH_CAP,
        0 <= j < buckets[i].len(),
    ensures
        !summary_before(buckets, i, j).contains_key(buckets[i][j].k@),
        home(buckets, buckets[i][j].k@, 0) == i,
        summary_in(buckets).contains_key(buckets[i][j].k@),
        summary_in(buckets)[buckets[i][j].k@] == stats_from(buckets[i][j].v),
        summary_before(buckets, i, j + 1) =~= summary_before(buckets, i, j).insert(
            buckets[i][j].k@,
            stats_from(buckets[i][j].v),
        ),
{
    let bucket = buckets[i];
    let k = bucket[j].k@;
    assert(placed(buckets, i, j));
    let left = summary_before(buckets, i, j + 1);
    let right = summary_before(buckets, i, j).insert(k, stats_from(bucket[j].v));
    assert forall|key: Seq<u8>| #[trigger]
        left.dom().contains(key) == right.dom().contains(key) && (left.dom().contains(key)
            ==> left[key] == right[key]) by {
        if home(buckets, key, 0) == i {
            lemma_find_bounds(bucket, key, 0);
        }
    }
    assert(left.dom() =~= right.dom());
}

/// At the end of a bucket the next one begins, and behind the last bucket the
/// summary is whole.
proof fn lemma_summary_before_ends(buckets: Seq<Seq<Entry>>, i: int)
    requires
        buckets.len() == HASH_CAP,
        0 <= i < HASH_CAP,
    ensures
        summary_before(buckets, i, buckets[i].len() as int) =~= summary_before(buckets, i + 1, 0),
        summary_before(buckets, 0, 0) =~= Map::<Seq<u8>, Stats>::empty(),
        summary_before(buckets, HASH_CAP as int, 0) =~= summary_in(buckets),
{
    let left = summary_before(buckets, i, buckets[i].len() as int);
    let right = summary_before(buckets, i + 1, 0);
    assert forall|key: Seq<u8>| #[trigger]
        left.dom().contains(key) == right.dom().contains(key) && (left.dom().contains(key)
            ==> left[key] == right[key]) by {
        lemma_home_bounds(buckets, key, 0);
        if home(buckets, key, 0) < buckets.len() {
            lemma_find_bounds(buckets[home(buckets, key, 0)], key, 0);
        }
    }
    assert(left.dom() =~= right.dom());
    let none = summary_before(buckets, 0, 0);
    assert forall|key: Seq<u8>| !(#[trigger] none.dom().contains(key)) by {
        lemma_home_bounds(buckets, key, 0);
        lemma_find_bounds(buckets[0], key, 0);
    }
    assert(none.dom() =~= Set::<Seq<u8>>::empty());
    let all = summary_before(buckets, HASH_CAP as int, 0);
    assert forall|key: Seq<u8>| #[trigger]
        all.dom().contains(key) == summary_in(buckets).dom().contains(key) by {
        lemma_home_bounds(buckets, key, 0);
    }
    assert(all.dom() =~= summary_in(buckets).dom());
}

/// Merging with one key more on the right is adding that key's statistics.
proof fn lemma_merge_insert(a: Summary, b: Summary, key: Seq<u8>, stats: Stats)
    requires
        !b.contains_key(key),
    ensures
        merge(a, b.insert(key, stats)) =~= put(merge(a, b), key, stats),
{
}

/// Whether `items` lists `summary`: every item is a key of the summary with
/// its statistics, no key comes twice, and no key of the summary is left out.
pub open spec fn lists(items: Seq<(&[u8], (i64, i64, i64, i64))>, summary: Summary) -> bool {
    &&& forall|i: int|
        0 <= i < items.len() ==> summary.contains_key((#[trigger] items[i]).0@)
            && summary[items[i].0@] == stats_from(items[i].1)
    &&& forall|i: int, j: int|
        0 <= i < j < items.len() ==> (#[trigger] items[i]).0@ != (#[trigger] items[j]).0@
    &&& forall|key: Seq<u8>| #[trigger]
        summary.contains_key(key) ==> exists|i: int|
            0 <= i < items.len() && (#[trigger] items[i]).0@ == key
}

/// The summaries of a sequence of tables.
pub open spec fn views(maps: Seq<HashMap>) -> Seq<Summary> {
    Seq::new(maps.len(), |i: int| maps[i]@)
}

/// Whether any two of the tables file alike the keys that both hold.
pub open spec fn all_filed_alike(maps: Seq<HashMap>) -> bool {
    forall|i: int, j: int|
        0 <= i < maps.len() && 0 <= j < maps.len() ==> (#[trigger] maps[i]).filed_like(
            #[trigger] maps[j],
        )
}

/// Looks `key` up in a bucket.
fn find_index(bucket: &Vec<Entry>, key: &[u8]) -> (at: usize)
    ensures
        at == find(bucket@, key@, 0),
        at <= bucket@.len(),
{
    let mut at: usize = 0;
    while at < bucket.len()
        invariant
            at <= bucket@.len(),
            forall|j: int| 0 <= j < at ==> bucket@[j].k@ != key@,
        decreases bucket@.len() - at,
    {
        if same_bytes(bucket[at].k, key) {
            proof {
                lemma_find_is(bucket@, key@, 0, at as int);
            }
            return at;
        }
        at += 1;
    }
    proof {
        lemma_find_is(bucket@, key@, 0, at as int);
    }
    at
}

impl<'a> View for HashMap<'a> {
    type V = Summary;

    /// The statistics of every key that the table holds.
    closed spec fn view(&self) -> Summary {
        summary_in(self.buckets())
    }
}

impl<'a> HashMap<'a> {
    /// The table's buckets as sequences.
    spec fn buckets(&self) -> Seq<Seq<Entry<'a>>> {
        Seq::new(self.entries@.len(), |i: int| self.entries@[i]@)
    }

    /// What every table is like: it has `HASH_CAP` buckets, and each key that
    /// it holds is held once, with valid statistics.
    pub closed spec fn wf(&self) -> bool {
        sound(self.buckets())
    }

    /// The bucket in which the table holds `key`. It says nothing of a key
    /// that the table does not hold.
    pub closed spec fn filed_in(&self, key: Seq<u8>) -> int {
        home(self.buckets(), key, 0)
    }

    /// Whether the two tables file alike the keys that both hold, which is
    /// what they do when their keys were filed under one hash function.
    pub open spec fn filed_like(&self, other: Self) -> bool {
        forall|key: Seq<u8>|
            self@.contains_key(key) && other@.contains_key(key) ==> #[trigger] self.filed_in(key)
                == other.filed_in(key)
    }

    /// Whether the table files every key that it holds where `key_hash` says.
    pub open spec fn filed_by_key_hash(&self) -> bool {
        forall|key: Seq<u8>|
            self@.contains_key(key) ==> #[trigger] self.filed_in(key) == bucket_of(key)
    }

    /// In a table every key has valid statistics: at least one value, and a
    /// mean between the least and the greatest. It is filed in one of the
    /// buckets.
    pub proof fn lemma_valid(&self, key: Seq<u8>)
        requires
            self.wf(),
            self@.contains_key(key),
        ensures
            self@[key].valid(),
            self@[key].fits(),
            0 <= self.filed_in(key) < HASH_CAP,
    {
        let buckets = self.buckets();
        lemma_home_bounds(buckets, key, 0);
        let p = home(buckets, key, 0);
        lemma_find_bounds(buckets[p], key, 0);
        assert(placed(buckets, p, find(buckets[p], key, 0)));
    }

    /// Tables that file their keys where `key_hash` says file them alike.
    pub proof fn lemma_filed_alike(maps: Seq<Self>)
        requires
            forall|i: int| 0 <= i < maps.len() ==> (#[trigger] maps[i]).filed_by_key_hash(),
        ensures
            all_filed_alike(maps),
    {
        assert forall|i: int, j: int| 0 <= i < maps.len() && 0 <= j < maps.len() implies (
        #[trigger] maps[i]).filed_like(#[trigger] maps[j]) by {
            assert(maps[i].filed_by_key_hash());
            assert(maps[j].filed_by_key_hash());
        }
    }

    /// An empty table.
    pub fn new() -> (table: Self)
        ensures
            table.wf(),
            table@ == Map::<Seq<u8>, Stats>::empty(),
    {
        let mut entries: Vec<Vec<Entry<'a>>> = Vec::new();
        while entries.len() < HASH_CAP
            invariant
                entries@.len() <= HASH_CAP,
                forall|i: int| 0 <= i < entries@.len() ==> (#[trigger] entries@[i])@.len() == 0,
            decreases HASH_CAP - entries@.len(),
        {
            entries.push(Vec::new());
        }
        let table = Self { entries };
        proof {
            let buckets = table.buckets();
            assert forall|key: Seq<u8>| !(#[trigger] table@.dom().contains(key)) by {
                lemma_home_bounds(buckets, key, 0);
                let p = home(buckets, key, 0);
                if p < buckets.len() {
                    lemma_find_bounds(buckets[p], key, 0);
                }
            }
            assert(table@ =~= Map::<Seq<u8>, Stats>::empty());
        }
        table
    }

    /// Adds the statistics `v` under `k` in bucket `pos`, unless the count or
    /// the sum would leave the range of `i64`.
    fn absorb(&mut self, pos: usize, k: &'a [u8], v: (i64, i64, i64, i64)) -> (done: bool)
        requires
            old(self).wf(),
            pos < HASH_CAP,
            old(self)@.contains_key(k@) ==> old(self).filed_in(k@) == pos,
            stats_from(v).valid(),
        ensures
            final(self).wf(),
            done == can_put(old(self)@, k@, stats_from(v)),
            final(self)@ == if done {
                put(old(self)@, k@, stats_from(v))
            } else {
                old(self)@
            },
            final(self)@.contains_key(k@) ==> final(self).filed_in(k@) == pos,
            forall|key: Seq<u8>|
                key != k@ ==> #[trigger] final(self).filed_in(key) == old(self).filed_in(key),
    {
        let ghost before = self.buckets();
        let at = find_index(&self.entries[pos], k);
        proof {
            assert(before[pos as int] == self.entries@[pos as int]@);
            lemma_find_bounds(before[pos as int], k@, 0);
            lemma_home_bounds(before, k@, 0);
        }
        if at < self.entries[pos].len() {
            let e = self.entries[pos][at];
            proof {
                assert(placed(before, pos as int, at as int));
            }
            let count = match e.v.0.checked_add(v.0) {
                Some(count) => count,
                None => {
                    return false;
                },
            };
            let sum = match e.v.1.checked_add(v.1) {
                Some(sum) => sum,
                None => {
                    return false;
                },
            };
            let min = if v.2 < e.v.2 {
                v.2
            } else {
                e.v.2
            };
            let max = if v.3 > e.v.3 {
                v.3
            } else {
                e.v.3
            };
            self.entries[pos][at].v = (count, sum, min, max);
            proof {
                let entry = Entry { k: e.k, v: (count, sum, min, max) };
                assert(self.buckets() =~= before.update(
                    pos as int,
                    before[pos as int].update(at as int, entry),
                ));
                lemma_combine_valid(stats_from(e.v), stats_from(v));
                lemma_summary_set(before, pos as int, at as int, entry);
            }
            true
        } else {
            let entry = Entry { k, v };
            self.entries[pos].push(entry);
            proof {
                assert(self.buckets() =~= before.update(
                    pos as int,
                    before[pos as int].push(entry),
                ));
                lemma_summary_push(before, pos as int, entry);
            }
            true
        }
    }

    /// Takes one more record in: `measure` is counted under `k`, which is
    /// looked for, and filed if it is new, in the bucket that `hash` picks.
    /// The hash is the caller's: any will do, as long as a key comes with the
    /// same bucket every time. The count and the sum of the key must stay in
    /// the range of `i64`; where that is not known, `try_update` does the same
    /// without asking for it.
    pub fn update(&mut self, hash: usize, k: &'a [u8], measure: i64)
        requires
            old(self).wf(),
            old(self)@.contains_key(k@) ==> old(self).filed_in(k@) == hash % HASH_CAP,
            can_tally(old(self)@, k@, measure as int),
        ensures
            final(self).wf(),
            final(self)@ == tally(old(self)@, k@, measure as int),
            final(self).filed_in(k@) == hash % HASH_CAP,
            forall|key: Seq<u8>|
                key != k@ ==> #[trigger] final(self).filed_in(key) == old(self).filed_in(key),
    {
        self.absorb(hash % HASH_CAP, k, (1, measure, measure, measure));
    }

    /// Takes one more record in as `update` does, unless the count or the sum
    /// of the key would leave the range of `i64`: then the table stays as it is
    /// and the answer is `false`.
    pub fn try_update(&mut self, hash: usize, k: &'a [u8], measure: i64) -> (done: bool)
        requires
            old(self).wf(),
            old(self)@.contains_key(k@) ==> old(self).filed_in(k@) == hash % HASH_CAP,
        ensures
            final(self).wf(),
            done == can_tally(old(self)@, k@, measure as int),
            final(self)@ == if done {
                tally(old(self)@, k@, measure as int)
            } else {
                old(self)@
            },
            final(self).filed_in(k@) == hash % HASH_CAP,
            forall|key: Seq<u8>|
                key != k@ ==> #[trigger] final(self).filed_in(key) == old(self).filed_in(key),
    {
        self.absorb(hash % HASH_CAP, k, (1, measure, measure, measure))
    }

    /// Takes in all that `other` holds, bucket by bucket: the statistics of a
    /// key that both hold are combined, and a key that only `other` holds
    /// comes over as it is, into the bucket it was in. For this the two tables
    /// must file alike the keys that both hold. The counts and the sums must
    /// stay in the range of `i64`, which `can_join` tells beforehand.
    pub fn join(&mut self, other: Self)
        requires
            old(self).wf(),
            other.wf(),
            old(self).filed_like(other),
            can_merge(old(self)@, other@),
        ensures
            final(self).wf(),
            final(self)@ == merge(old(self)@, other@),
            forall|key: Seq<u8>|
                old(self)@.contains_key(key) ==> #[trigger] final(self).filed_in(key) == old(
                    self,
                ).filed_in(key),
            forall|key: Seq<u8>|
                !old(self)@.contains_key(key) && other@.contains_key(key)
                    ==> #[trigger] final(self).filed_in(key) == other.filed_in(key),
    {
        let ghost before = self@;
        let ghost ours = self.buckets();
        let ghost theirs = other.buckets();
        proof {
            lemma_summary_before_ends(theirs, 0);
            assert forall|key: Seq<u8>|
                before.contains_key(key) && other@.contains_key(key) implies home(ours, key, 0)
                == #[trigger] home(theirs, key, 0) by {
                assert(self.filed_in(key) == other.filed_in(key));
            }
        }
        let mut i: usize = 0;
        while i < HASH_CAP
            invariant
                self.wf(),
                other.wf(),
                theirs == other.buckets(),
                i <= HASH_CAP,
                can_merge(before, other@),
                forall|key: Seq<u8>|
                    before.contains_key(key) && other@.contains_key(key) ==> home(ours, key, 0)
                        == #[trigger] home(theirs, key, 0),
                self@ == merge(before, summary_before(theirs, i as int, 0)),
                forall|key: Seq<u8>|
                    before.contains_key(key) ==> #[trigger] self.filed_in(key) == home(
                        ours,
                        key,
                        0,
                    ),
                forall|key: Seq<u8>|
                    !before.contains_key(key) && self@.contains_key(key)
                        ==> #[trigger] self.filed_in(key) == home(theirs, key, 0),
            decreases HASH_CAP - i,
        {
            let mut j: usize = 0;
            while j < other.entries[i].len()
                invariant
                    self.wf(),
                    other.wf(),
                    theirs == other.buckets(),
                    i < HASH_CAP,
                    j <= other.entries@[i as int]@.len(),
                    can_merge(before, other@),
                    forall|key: Seq<u8>|
                        before.contains_key(key) && other@.contains_key(key) ==> home(
                            ours,
                            key,
                            0,
                        ) == #[trigger] home(theirs, key, 0),
                    self@ == merge(before, summary_before(theirs, i as int, j as int)),
                    forall|key: Seq<u8>|
                        before.contains_key(key) ==> #[trigger] self.filed_in(key) == home(
                            ours,
                            key,
                            0,
                        ),
                    forall|key: Seq<u8>|
                        !before.contains_key(key) && self@.contains_key(key)
                            ==> #[trigger] self.filed_in(key) == home(theirs, key, 0),
                decreases other.entries@[i as int]@.len() - j,
            {
                let oe = other.entries[i][j];
                let ghost held = self@;
                proof {
                    assert(theirs[i as int] == other.entries@[i as int]@);
                    lemma_summary_before_step(theirs, i as int, j as int);
                    lemma_merge_insert(
                        before,
                        summary_before(theirs, i as int, j as int),
                        oe.k@,
                        stats_from(oe.v),
                    );
                    assert(placed(theirs, i as int, j as int));
                    assert(before.contains_key(oe.k@) ==> before[oe.k@].combine(
                        other@[oe.k@],
                    ).fits());
                    assert(held.contains_key(oe.k@) ==> self.filed_in(oe.k@) == i);
                }
                self.absorb(i, oe.k, oe.v);
                proof {
                    assert forall|key: Seq<u8>| before.contains_key(key) implies #[trigger]
                        self.filed_in(key) == home(ours, key, 0) by {
                        if key == oe.k@ {
                            assert(home(theirs, key, 0) == i);
                        }
                    }
                }
                j += 1;
            }
            proof {
                assert(theirs[i as int] == other.entries@[i as int]@);
                lemma_summary_before_ends(theirs, i as int);
            }
            i += 1;
        }
        proof {
            lemma_summary_before_ends(theirs, 0);
        }
    }

    /// Whether `join` can take `other` in with numbers that an `i64` holds.
    pub fn can_join(&self, other: &Self) -> (ok: bool)
        requires
            self.wf(),
            other.wf(),
            self.filed_like(*other),
        ensures
            ok == can_merge(self@, other@),
    {
        let ghost ours = self.buckets();
        let ghost theirs = other.buckets();
        proof {
            lemma_summary_before_ends(theirs, 0);
        }
        let mut i: usize = 0;
        while i < HASH_CAP
            invariant
                self.wf(),
                other.wf(),
                self.filed_like(*other),
                ours == self.buckets(),
                theirs == other.buckets(),
                i <= HASH_CAP,
                can_merge(self@, summary_before(theirs, i as int, 0)),
            decreases HASH_CAP - i,
        {
            let mut j: usize = 0;
            while j < other.entries[i].len()
                invariant
                    self.wf(),
                    other.wf(),
                    self.filed_like(*other),
                    ours == self.buckets(),
                    theirs == other.buckets(),
                    i < HASH_CAP,
                    j <= other.entries@[i as int]@.len(),
                    can_merge(self@, summary_before(theirs, i as int, j as int)),
                decreases other.entries@[i as int]@.len() - j,
            {
                let oe = other.entries[i][j];
                let at = find_index(&self.entries[i], oe.k);
                proof {
                    assert(theirs[i as int] == other.entries@[i as int]@);
                    assert(ours[i as int] == self.entries@[i as int]@);
                    lemma_summary_before_step(theirs, i as int, j as int);
                    lemma_find_bounds(ours[i as int], oe.k@, 0);
                    lemma_home_bounds(ours, oe.k@, 0);
                    if at < ours[i as int].len() {
                        assert(placed(ours, i as int, at as int));
                    }
                    if self@.contains_key(oe.k@) {
                        assert(self.filed_in(oe.k@) == other.filed_in(oe.k@));
                    }
                }
                if at < self.entries[i].len() {
                    let e = self.entries[i][at];
                    if e.v.0.checked_add(oe.v.0).is_none() || e.v.1.checked_add(oe.v.1).is_none() {
                        proof {
                            assert(!self@[oe.k@].combine(other@[oe.k@]).fits());
                        }
                        return false;
                    }
                }
                j += 1;
            }
            proof {
                assert(theirs[i as int] == other.entries@[i as int]@);
                lemma_summary_before_ends(theirs, i as int);
            }
            i += 1;
        }
        proof {
            lemma_summary_before_ends(theirs, 0);
        }
        true
    }

    /// Hands out all that the table holds: each key once, with its count, sum,
    /// least and greatest value.
    pub fn into_iter(self) -> (items: Vec<(&'a [u8], (i64, i64, i64, i64))>)
        requires
            self.wf(),
        ensures
            lists(items@, self@),
    {
        let ghost ours = self.buckets();
        let mut items: Vec<(&'a [u8], (i64, i64, i64, i64))> = Vec::new();
        proof {
            lemma_summary_before_ends(ours, 0);
        }
        let mut i: usize = 0;
        while i < HASH_CAP
            invariant
                self.wf(),
                ours == self.buckets(),
                i <= HASH_CAP,
                lists(items@, summary_before(ours, i as int, 0)),
            decreases HASH_CAP - i,
        {
            let mut j: usize = 0;
            while j < self.entries[i].len()
                invariant
                    self.wf(),
                    ours == self.buckets(),
                    i < HASH_CAP,
                    j <= self.entries@[i as int]@.len(),
                    lists(items@, summary_before(ours, i as int, j as int)),
                decreases self.entries@[i as int]@.len() - j,
            {
                let e = self.entries[i][j];
                let ghost listed = items@;
                items.push((e.k, e.v));
                proof {
                    assert(ours[i as int] == self.entries@[i as int]@);
                    lemma_summary_before_step(ours, i as int, j as int);
                    let now = summary_before(ours, i as int, j + 1);
                    assert forall|key: Seq<u8>| #[trigger] now.contains_key(key) implies exists|
                        n: int,
                    |
                        0 <= n < items@.len() && (#[trigger] items@[n]).0@ == key by {
                        if key == e.k@ {
                            assert(items@[listed.len() as int].0@ == key);
                        } else {
                            let n = choose|n: int|
                                0 <= n < listed.len() && (#[trigger] listed[n]).0@ == key;
                            assert(items@[n].0@ == key);
                        }
                    }
                }
                j += 1;
            }
            proof {
                assert(ours[i as int] == self.entries@[i as int]@);
                lemma_summary_before_ends(ours, i as int);
            }
            i += 1;
        }
        proof {
            lemma_summary_before_ends(ours, 0);
        }
        items
    }
}

/// Takes all of `maps` together into one table, from the first on. The tables
/// must file alike the keys that they share, as tables do whose keys were
/// filed under one hash function. The counts and the sums must stay in the
/// range of `i64` all the way; where that is not known, `try_join_maps` does
/// the same without asking for it.
pub fn join_maps<'a>(maps: Vec<HashMap<'a>>) -> (complete: HashMap<'a>)
    requires
        forall|i: int| 0 <= i < maps@.len() ==> (#[trigger] maps@[i]).wf(),
        all_filed_alike(maps@),
        merges_fit(views(maps@)),
    ensures
        complete.wf(),
        complete@ == merge_all(views(maps@)),
        forall|i: int| 0 <= i < maps@.len() ==> complete.filed_like(#[trigger] maps@[i]),
{
    let ghost all = maps@;
    let mut complete = HashMap::new();
    proof {
        assert(views(all.take(0)) =~= Seq::<Summary>::empty());
    }
    for map in it: maps
        invariant
            it.seq() == all,
            forall|i: int| 0 <= i < all.len() ==> (#[trigger] all[i]).wf(),
            all_filed_alike(all),
            merges_fit(views(all)),
            complete.wf(),
            complete@ == merge_all(views(all.take(it.index() as int))),
            forall|i: int| 0 <= i < all.len() ==> complete.filed_like(#[trigger] all[i]),
    {
        let ghost held = complete;
        proof {
            let n = it.index() as int;
            assert(views(all.take(n + 1)).drop_last() =~= views(all.take(n)));
            lemma_merges_fit_prefix(views(all), n + 1);
            assert(views(all).take(n + 1) =~= views(all.take(n + 1)));
            assert(held.filed_like(all[n]));
        }
        complete.join(map);
        proof {
            let n = it.index() as int;
            assert forall|i: int| 0 <= i < all.len() implies complete.filed_like(
                #[trigger] all[i],
            ) by {
                assert(held.filed_like(all[i]));
                assert(all[n].filed_like(all[i]));
            }
        }
    }
    proof {
        assert(all.take(all.len() as int) =~= all);
    }
    complete
}

/// Takes all of `maps` together into one table as `join_maps` does, unless a
/// count or a sum would leave the range of `i64` on the way: then the answer
/// is `None`.
pub fn try_join_maps<'a>(maps: Vec<HashMap<'a>>) -> (complete: Option<HashMap<'a>>)
    requires
        forall|i: int| 0 <= i < maps@.len() ==> (#[trigger] maps@[i]).wf(),
        all_filed_alike(maps@),
    ensures
        complete is Some <==> merges_fit(views(maps@)),
        complete matches Some(table) ==> {
            &&& table.wf()
            &&& table@ == merge_all(views(maps@))
            &&& forall|i: int| 0 <= i < maps@.len() ==> table.filed_like(#[trigger] maps@[i])
        },
{
    let ghost all = maps@;
    let mut complete = HashMap::new();
    proof {
        assert(views(all.take(0)) =~= Seq::<Summary>::empty());
    }
    for map in it: maps
        invariant
            it.seq() == all,
            forall|i: int| 0 <= i < all.len() ==> (#[trigger] all[i]).wf(),
            all_filed_alike(all),
            complete.wf(),
            merges_fit(views(all.take(it.index() as int))),
            complete@ == merge_all(views(all.take(it.index() as int))),
            forall|i: int| 0 <= i < all.len() ==> complete.filed_like(#[trigger] all[i]),
    {
        let ghost held = complete;
        proof {
            let n = it.index() as int;
            assert(views(all.take(n + 1)).drop_last() =~= views(all.take(n)));
            assert(views(all).take(n + 1) =~= views(all.take(n + 1)));
            assert(held.filed_like(all[n]));
        }
        if !complete.can_join(&map) {
            proof {
                if merges_fit(views(all)) {
                    lemma_merges_fit_prefix(views(all), it.index() + 1);
                }
            }
            return None;
        }
        complete.join(map);
        proof {
            let n = it.index() as int;
            assert forall|i: int| 0 <= i < all.len() implies complete.filed_like(
                #[trigger] all[i],
            ) by {
                assert(held.filed_like(all[i]));
                assert(all[n].filed_like(all[i]));
            }
        }
    }
    proof {
        assert(all.take(all.len() as int) =~= all);
    }
    Some(complete)
}

} // verus!
