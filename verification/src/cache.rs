//! Cache entries and the write-back model.
//!
//! One [`CacheEntry`] owns one value of the universe, its packed access
//! word, and — through the [`crate::source::Source`] bound of the cache that
//! holds it — the capability to persist that value. The spec function
//! [`flush_seq`] names the write-back obligation of a sequence of entries:
//! the key and value of every entry that is dirty and valid, in entry order.
//! Tearing the cache down reports exactly this sequence.

use vstd::prelude::*;

use crate::access;

verus! {

/// The cache's record for one configuration type: the type key, the owned
/// value, and the access word that arbitrates claims on it.
pub struct CacheEntry<V> {
    pub key: u64,
    pub value: V,
    pub access: u32,
}

/// Whether an entry is due for write-back: mutated since the last
/// persist, and holding live data.
pub open spec fn needs_flush<V>(e: CacheEntry<V>) -> bool {
    access::is_dirty(e.access) && access::is_valid(e.access)
}

/// The write-back obligation of a sequence of entries: key and value of
/// every entry that is dirty and valid, in entry order.
pub open spec fn flush_seq<V>(s: Seq<CacheEntry<V>>) -> Seq<(u64, V)>
    decreases s.len(),
{
    if s.len() == 0 {
        Seq::empty()
    } else {
        (if needs_flush(s[0]) {
            seq![(s[0].key, s[0].value)]
        } else {
            Seq::empty()
        }) + flush_seq(s.drop_first())
    }
}

/// How often a key occurs in a write-back report.
pub open spec fn flush_count<V>(s: Seq<(u64, V)>, k: u64) -> nat
    decreases s.len(),
{
    if s.len() == 0 {
        0
    } else {
        flush_count(s.drop_first(), k) + (if s[0].0 == k { 1nat } else { 0nat })
    }
}

/// The key and value columns of a write-back report, outcome dropped.
pub open spec fn report_kv<V>(s: Seq<(u64, V, bool)>) -> Seq<(u64, V)> {
    s.map_values(|t: (u64, V, bool)| (t.0, t.1))
}

/// A key all of whose entries are clean or stale is absent from the
/// write-back obligation.
pub proof fn lemma_flush_seq_absent<V>(s: Seq<CacheEntry<V>>, k: u64)
    requires
        forall|i: int| 0 <= i < s.len() && (#[trigger] s[i]).key == k ==> !needs_flush(s[i]),
    ensures
        flush_count(flush_seq(s), k) == 0,
    decreases s.len(),
{
    if s.len() == 0 {
    } else {
        let rest = s.drop_first();
        assert(forall|a: int| 0 <= a < rest.len() ==> rest[a] == s[a + 1]);
        lemma_flush_seq_absent(rest, k);
        if needs_flush(s[0]) {
            let head = seq![(s[0].key, s[0].value)];
            assert((head + flush_seq(rest)).drop_first() =~= flush_seq(rest));
            assert(s[0].key != k);
        } else {
            assert(Seq::<(u64, V)>::empty() + flush_seq(rest) =~= flush_seq(rest));
        }
    }
}

/// A dirty, live entry's key occurs in the write-back obligation exactly
/// once, paired with that entry's value, provided keys are pairwise
/// distinct.
pub proof fn lemma_flush_seq_present<V>(s: Seq<CacheEntry<V>>, i: int, k: u64)
    requires
        forall|a: int, b: int| 0 <= a < b < s.len() ==> s[a].key != s[b].key,
        0 <= i < s.len(),
        s[i].key == k,
        needs_flush(s[i]),
    ensures
        flush_count(flush_seq(s), k) == 1,
        exists|j: int|
            0 <= j < flush_seq(s).len() && flush_seq(s)[j] == (k, s[i].value),
    decreases s.len(),
{
    let rest = s.drop_first();
    assert(forall|a: int| 0 <= a < rest.len() ==> rest[a] == s[a + 1]);
    if i == 0 {
        let head = seq![(k, s[0].value)];
        assert(flush_seq(s) == head + flush_seq(rest));
        assert(forall|a: int|
            0 <= a < rest.len() && (#[trigger] rest[a]).key == k ==> !needs_flush(rest[a]));
        lemma_flush_seq_absent(rest, k);
        assert((head + flush_seq(rest)).drop_first() =~= flush_seq(rest));
        assert(flush_seq(s)[0] == (k, s[i].value));
    } else {
        lemma_flush_seq_present(rest, i - 1, k);
        let j0 = choose|j: int|
            0 <= j < flush_seq(rest).len() && flush_seq(rest)[j] == (k, rest[i - 1].value);
        if needs_flush(s[0]) {
            let head = seq![(s[0].key, s[0].value)];
            assert(flush_seq(s) == head + flush_seq(rest));
            assert((head + flush_seq(rest)).drop_first() =~= flush_seq(rest));
            assert(s[0].key != k);
            assert(flush_seq(s)[j0 + 1] == (k, s[i].value));
        } else {
            assert(flush_seq(s) == Seq::<(u64, V)>::empty() + flush_seq(rest));
            assert(Seq::<(u64, V)>::empty() + flush_seq(rest) =~= flush_seq(rest));
            assert(flush_seq(s)[j0] == (k, s[i].value));
        }
    }
}

} // verus!
