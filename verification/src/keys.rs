//! Keys are byte strings. They are the same when their bytes are, and they are
//! reported in the order of their bytes, the shorter of two first where it
//! opens the longer. A key can be hashed as the scanner hashes it.
use crate::record::{hash_fold, key_hash};
use vstd::prelude::*;

verus! {

/// The least index at or after `from` at which `a` and `b` differ or one of
/// them ends.
pub open spec fn mismatch(a: Seq<u8>, b: Seq<u8>, from: int) -> int
    decreases a.len() - from,
{
    if from >= a.len() || from >= b.len() || a[from] != b[from] {
        from
    } else {
        mismatch(a, b, from + 1)
    }
}

/// Whether `a` comes before `b`: where they first part, `a` ends or holds the
/// lesser byte.
pub open spec fn before(a: Seq<u8>, b: Seq<u8>) -> bool {
    mismatch(a, b, 0) < b.len() && (mismatch(a, b, 0) == a.len() || a[mismatch(a, b, 0)] < b[mismatch(
        a,
        b,
        0,
    )])
}

/// `mismatch(a, b, from)` is `at` exactly when `a` and `b` agree on `from..at`
/// and part or end at `at`.
pub proof fn lemma_mismatch_is(a: Seq<u8>, b: Seq<u8>, from: int, at: int)
    requires
        0 <= from <= at,
        at <= a.len(),
        at <= b.len(),
        forall|j: int| from <= j < at ==> a[j] == b[j],
        at == a.len() || at == b.len() || a[at] != b[at],
    ensures
        mismatch(a, b, from) == at,
    decreases at - from,
{
    if from < at {
        lemma_mismatch_is(a, b, from + 1, at);
    }
}

/// Where `mismatch` lands: inside both strings, behind bytes on which they
/// agree.
pub proof fn lemma_mismatch_bounds(a: Seq<u8>, b: Seq<u8>, from: int)
    requires
        0 <= from <= a.len(),
        from <= b.len(),
    ensures
        from <= mismatch(a, b, from) <= a.len(),
        mismatch(a, b, from) <= b.len(),
        forall|j: int| from <= j < mismatch(a, b, from) ==> a[j] == b[j],
        mismatch(a, b, from) == a.len() || mismatch(a, b, from) == b.len() || a[mismatch(
            a,
            b,
            from,
        )] != b[mismatch(a, b, from)],
    decreases a.len() - from,
{
    if from < a.len() && from < b.len() && a[from] == b[from] {
        lemma_mismatch_bounds(a, b, from + 1);
    }
}

/// No byte string comes before itself.
pub proof fn lemma_before_irreflexive(a: Seq<u8>)
    ensures
        !before(a, a),
{
    lemma_mismatch_is(a, a, 0, a.len() as int);
}

/// What comes before something that comes before a third comes before the
/// third.
pub proof fn lemma_before_transitive(a: Seq<u8>, b: Seq<u8>, c: Seq<u8>)
    requires
        before(a, b),
        before(b, c),
    ensures
        before(a, c),
{
    lemma_mismatch_bounds(a, b, 0);
    lemma_mismatch_bounds(b, c, 0);
    let ab = mismatch(a, b, 0);
    let bc = mismatch(b, c, 0);
    let at = if ab < bc {
        ab
    } else {
        bc
    };
    lemma_mismatch_is(a, c, 0, at);
}

/// Of two different byte strings one comes before the other.
pub proof fn lemma_before_total(a: Seq<u8>, b: Seq<u8>)
    ensures
        a == b || before(a, b) || before(b, a),
{
    lemma_mismatch_bounds(a, b, 0);
    let at = mismatch(a, b, 0);
    lemma_mismatch_is(b, a, 0, at);
    if at == a.len() && at == b.len() {
        assert(a =~= b);
    }
}

/// Two byte strings never come before each other.
pub proof fn lemma_before_asymmetric(a: Seq<u8>, b: Seq<u8>)
    requires
        before(a, b),
    ensures
        !before(b, a),
{
    if before(b, a) {
        lemma_before_transitive(a, b, a);
        lemma_before_irreflexive(a);
    }
}

/// Whether `a` comes before `b` in the order of the report.
pub fn key_less(a: &[u8], b: &[u8]) -> (less: bool)
    ensures
        less == before(a@, b@),
{
    let mut i: usize = 0;
    while i < a.len() && i < b.len() && a[i] == b[i]
        invariant
            i <= a@.len(),
            i <= b@.len(),
            forall|j: int| 0 <= j < i ==> a@[j] == b@[j],
        decreases a@.len() - i,
    {
        i += 1;
    }
    proof {
        lemma_mismatch_is(a@, b@, 0, i as int);
    }
    i < b.len() && (i == a.len() || a[i] < b[i])
}

/// Whether two byte strings are the same, byte for byte.
pub fn same_bytes(a: &[u8], b: &[u8]) -> (same: bool)
    ensures
        same == (a@ == b@),
{
    if a.len() != b.len() {
        return false;
    }
    let mut i: usize = 0;
    while i < a.len()
        invariant
            a@.len() == b@.len(),
            i <= a@.len(),
            forall|j: int| 0 <= j < i ==> a@[j] == b@[j],
        decreases a@.len() - i,
    {
        if a[i] != b[i] {
            return false;
        }
        i += 1;
    }
    assert(a@ =~= b@);
    true
}

/// The hash that this crate's scanner makes of a key, for a key that does
/// not come from a scan.
pub fn hash_key(key: &[u8]) -> (hash: usize)
    ensures
        hash == key_hash(key@),
{
    let mut hash: u64 = 0;
    let mut count: usize = 0;
    while count < key.len()
        invariant
            count <= key@.len(),
            hash == hash_fold(key@.take(count as int)),
        decreases key@.len() - count,
    {
        proof {
            assert(key@.take(count + 1).drop_last() =~= key@.take(count as int));
        }
        hash = hash ^ ((key[count] as u64) << ((count % 64) as u64));
        count += 1;
    }
    proof {
        assert(key@.take(key@.len() as int) =~= key@);
    }
    #[verifier::truncate]
    (hash as usize)
}

} // verus!
