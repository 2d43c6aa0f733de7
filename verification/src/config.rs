//! The public facade of the configuration cache.
//!
//! A [`Config`] owns the map from type key to cache entry. It lazily
//! creates entries through the [`Source`] capability on first access, hands
//! out shared and exclusive guards, tracks dirtiness, and writes dirty
//! values back when an entry is evicted or the cache is torn down.
//!
//! Every operation is non-blocking: a claim that cannot be granted at once
//! is refused with an error, never queued. A guard must be handed back with
//! [`Config::release`] or [`Config::release_mut`]; a guard that is silently
//! dropped leaves its claim outstanding. Teardown is the explicit
//! [`Config::close`], which reports the write-back of every dirty entry;
//! skipping it silently drops pending writes.

use vstd::prelude::*;

use crate::access;
use crate::cache::{flush_count, flush_seq, needs_flush, report_kv, CacheEntry};
use crate::error::ConfigError;
use crate::guard::{CfgMut, CfgRef};
use crate::source::Source;

verus! {

/// The facade: a type-keyed cache of configuration values drawn from the
/// universe `V`.
pub struct Config<V> {
    entries: Vec<CacheEntry<V>>,
}

/// How often `k` occurs among the first `a` keys of the list `s`.
pub open spec fn count_upto(s: Seq<u64>, a: int, k: u64) -> nat
    decreases a,
{
    if a <= 0 {
        0
    } else {
        count_upto(s, a - 1, k) + (if s[a - 1] == k {
            1nat
        } else {
            0nat
        })
    }
}

/// Whether the keys of a list are pairwise distinct.
pub open spec fn distinct_keys(s: Seq<u64>) -> bool {
    forall|a: int, b: int| 0 <= a < b < s.len() ==> s[a] != s[b]
}

/// A key that occurs before position `j` is counted at least once up to `j`.
proof fn lemma_count_upto_pos(s: Seq<u64>, a: int, j: int, k: u64)
    requires
        0 <= a < j <= s.len(),
        s[a] == k,
    ensures
        count_upto(s, j, k) >= 1,
    decreases j,
{
    if a < j - 1 {
        lemma_count_upto_pos(s, a, j - 1, k);
    }
}

/// A key counted at least once up to `j` occurs before position `j`.
proof fn lemma_count_upto_occurs(s: Seq<u64>, j: int, k: u64)
    requires
        0 <= j <= s.len(),
        count_upto(s, j, k) > 0,
    ensures
        exists|a: int| 0 <= a < j && s[a] == k,
    decreases j,
{
    if j > 0 && s[j - 1] != k {
        lemma_count_upto_occurs(s, j - 1, k);
    }
}

impl<V> Config<V> {
    /// The number of entries the cache holds.
    pub closed spec fn count(self) -> nat {
        self.entries@.len()
    }

    /// Whether the cache holds an entry for this key.
    pub closed spec fn has(self, k: u64) -> bool {
        exists|i: int| 0 <= i < self.entries@.len() && self.entries@[i].key == k
    }

    /// The position of the entry for this key.
    pub(crate) closed spec fn idx(self, k: u64) -> int {
        choose|i: int| 0 <= i < self.entries@.len() && self.entries@[i].key == k
    }

    /// The value the entry for this key holds.
    pub closed spec fn value_of(self, k: u64) -> V {
        self.entries@[self.idx(k)].value
    }

    /// The access word of the entry for this key.
    pub closed spec fn word_of(self, k: u64) -> u32 {
        self.entries@[self.idx(k)].access
    }

    /// Whether the entry for this key holds live data.
    pub open spec fn valid_of(self, k: u64) -> bool {
        access::is_valid(self.word_of(k))
    }

    /// Whether the entry for this key was mutated since its last
    /// write-back.
    pub open spec fn dirty_of(self, k: u64) -> bool {
        access::is_dirty(self.word_of(k))
    }

    /// Whether an exclusive claim is outstanding on the entry for this key.
    pub open spec fn writing_of(self, k: u64) -> bool {
        access::is_writing(self.word_of(k))
    }

    /// The number of outstanding shared claims on the entry for this key.
    pub open spec fn readers_of(self, k: u64) -> u32 {
        access::readers(self.word_of(k))
    }

    /// The pending write-back obligation: key and value of every dirty,
    /// valid entry, in entry order.
    pub closed spec fn flushes(self) -> Seq<(u64, V)> {
        flush_seq(self.entries@)
    }

    /// Well-formedness: keys are pairwise distinct and every access word
    /// satisfies its invariant. Constructors establish this and every
    /// operation preserves it.
    pub closed spec fn wf(self) -> bool {
        &&& forall|i: int, j: int|
            0 <= i < j < self.entries@.len() ==> self.entries@[i].key != self.entries@[j].key
        &&& forall|i: int|
            0 <= i < self.entries@.len() ==> access::wf_word(#[trigger] self.entries@[i].access)
    }

    /// Everything the cache knows about the key `k2` is the same in `self`
    /// and `post`.
    pub open spec fn untouched_at(self, post: Config<V>, k2: u64) -> bool {
        &&& post.has(k2) == self.has(k2)
        &&& self.has(k2) ==> post.value_of(k2) == self.value_of(k2) && post.word_of(k2)
            == self.word_of(k2)
    }

    /// Everything the cache knows about keys other than `k` is the same in
    /// `self` and `post`.
    pub open spec fn agrees_except(self, post: Config<V>, k: u64) -> bool {
        forall|k2: u64| k2 != k ==> #[trigger] self.untouched_at(post, k2)
    }

    /// Under well-formedness, the entry at a position with key `k` is the
    /// entry of `k`.
    proof fn lemma_idx(self, i: int, k: u64)
        requires
            self.wf(),
            0 <= i < self.entries@.len(),
            self.entries@[i].key == k,
        ensures
            self.has(k),
            self.idx(k) == i,
    {
        assert(self.has(k));
        let j = self.idx(k);
        if j < i {
            assert(self.entries@[j].key != self.entries@[i].key);
        } else if i < j {
            assert(self.entries@[i].key != self.entries@[j].key);
        }
    }

    /// Replacing the entry at position `i` while keeping its key changes
    /// the model at that key alone.
    proof fn lemma_update(pre: Self, post: Self, i: int)
        requires
            pre.wf(),
            0 <= i < pre.entries@.len(),
            post.entries@.len() == pre.entries@.len(),
            forall|j: int| 0 <= j < pre.entries@.len() && j != i ==> post.entries@[j] == pre.entries@[j],
            post.entries@[i].key == pre.entries@[i].key,
            access::wf_word(post.entries@[i].access),
        ensures
            post.wf(),
            pre.has(pre.entries@[i].key),
            pre.idx(pre.entries@[i].key) == i,
            post.has(pre.entries@[i].key),
            post.idx(pre.entries@[i].key) == i,
            post.value_of(pre.entries@[i].key) == post.entries@[i].value,
            post.word_of(pre.entries@[i].key) == post.entries@[i].access,
            pre.value_of(pre.entries@[i].key) == pre.entries@[i].value,
            pre.word_of(pre.entries@[i].key) == pre.entries@[i].access,
            pre.agrees_except(post, pre.entries@[i].key),
    {
        let k = pre.entries@[i].key;
        assert(forall|j: int|
            0 <= j < post.entries@.len() ==> post.entries@[j].key == pre.entries@[j].key);
        pre.lemma_idx(i, k);
        post.lemma_idx(i, k);
        assert forall|k2: u64| k2 != k implies #[trigger] pre.untouched_at(post, k2) by {
            if pre.has(k2) {
                let j = pre.idx(k2);
                pre.lemma_idx(j, k2);
                assert(post.entries@[j].key == k2);
                post.lemma_idx(j, k2);
                assert(j != i);
            }
            if post.has(k2) {
                let j = post.idx(k2);
                assert(pre.entries@[j].key == k2);
            }
        }
    }

    /// Appending an entry with a fresh key adds that key and changes
    /// nothing else.
    proof fn lemma_push(pre: Self, post: Self)
        requires
            pre.wf(),
            post.entries@.len() == pre.entries@.len() + 1,
            forall|j: int| 0 <= j < pre.entries@.len() ==> post.entries@[j] == pre.entries@[j],
            !pre.has(post.entries@.last().key),
            access::wf_word(post.entries@.last().access),
        ensures
            post.wf(),
            post.has(post.entries@.last().key),
            post.idx(post.entries@.last().key) == pre.entries@.len(),
            post.value_of(post.entries@.last().key) == post.entries@.last().value,
            post.word_of(post.entries@.last().key) == post.entries@.last().access,
            pre.agrees_except(post, post.entries@.last().key),
    {
        let k = post.entries@.last().key;
        let n = pre.entries@.len() as int;
        assert(forall|j: int| 0 <= j < n ==> pre.entries@[j].key != k);
        assert(forall|i: int, j: int|
            0 <= i < j < post.entries@.len() ==> post.entries@[i].key != post.entries@[j].key);
        post.lemma_idx(n, k);
        assert forall|k2: u64| k2 != k implies #[trigger] pre.untouched_at(post, k2) by {
            if pre.has(k2) {
                let j = pre.idx(k2);
                pre.lemma_idx(j, k2);
                assert(post.entries@[j].key == k2);
                post.lemma_idx(j, k2);
            }
            if post.has(k2) {
                let j = post.idx(k2);
                assert(0 <= j < n && pre.entries@[j].key == k2);
            }
        }
    }

    /// Removing the entry at position `i` removes its key and changes
    /// nothing else.
    proof fn lemma_remove(pre: Self, post: Self, i: int)
        requires
            pre.wf(),
            0 <= i < pre.entries@.len(),
            post.entries@ == pre.entries@.remove(i),
        ensures
            post.wf(),
            !post.has(pre.entries@[i].key),
            pre.agrees_except(post, pre.entries@[i].key),
            pre.has(pre.entries@[i].key),
            pre.idx(pre.entries@[i].key) == i,
    {
        let k = pre.entries@[i].key;
        pre.lemma_idx(i, k);
        assert(forall|j: int|
            0 <= j < post.entries@.len() ==> post.entries@[j]
                == (if j < i { pre.entries@[j] } else { pre.entries@[j + 1] }));
        assert forall|a: int, b: int|
            0 <= a < b < post.entries@.len() implies post.entries@[a].key != post.entries@[b].key by {
            let a0 = if a < i { a } else { a + 1 };
            let b0 = if b < i { b } else { b + 1 };
            assert(pre.entries@[a0].key != pre.entries@[b0].key);
        }
        if post.has(k) {
            let j = post.idx(k);
            let j0 = if j < i { j } else { j + 1 };
            assert(pre.entries@[j0].key == k);
            pre.lemma_idx(j0, k);
        }
        assert forall|k2: u64| k2 != k implies #[trigger] pre.untouched_at(post, k2) by {
            if pre.has(k2) {
                let j = pre.idx(k2);
                pre.lemma_idx(j, k2);
                let j2 = if j < i { j } else { j - 1 };
                assert(post.entries@[j2] == pre.entries@[j]);
                post.lemma_idx(j2, k2);
            }
            if post.has(k2) {
                let j = post.idx(k2);
                let j0 = if j < i { j } else { j + 1 };
                assert(pre.entries@[j0].key == k2);
            }
        }
    }

    /// Find the position of the entry for `key`, if any.
    fn find(&self, key: u64) -> (r: Option<usize>)
        requires
            self.wf(),
        ensures
            match r {
                Some(i) => {
                    &&& self.has(key)
                    &&& i < self.entries@.len()
                    &&& self.entries@[i as int].key == key
                    &&& self.idx(key) == i
                },
                None => !self.has(key),
            },
    {
        let n = self.entries.len();
        let mut i: usize = 0;
        while i < n
            invariant
                self.wf(),
                n == self.entries@.len(),
                i <= n,
                forall|j: int| 0 <= j < i ==> self.entries@[j].key != key,
            decreases n - i,
        {
            if self.entries[i].key == key {
                proof {
                    self.lemma_idx(i as int, key);
                }
                return Some(i);
            }
            i = i + 1;
        }
        proof {
            if self.has(key) {
                let j = self.idx(key);
                assert(self.entries@[j].key != key);
            }
        }
        None
    }
}

impl<V: Source> Default for Config<V> {
    /// Create an empty cache.
    fn default() -> (c: Self)
        ensures
            c.wf(),
            c.count() == 0,
            forall|k: u64| !c.has(k),
    {
        Config { entries: Vec::new() }
    }
}

impl<V: Source> Config<V> {
    /// Create an empty cache.
    pub fn new() -> (c: Self)
        ensures
            c.wf(),
            c.count() == 0,
            forall|k: u64| !c.has(k),
    {
        Config { entries: Vec::new() }
    }

    /// Get a shared guard on the entry for `key`.
    ///
    /// If the entry is absent, the value is first loaded through the
    /// source; if it is present but stale, it is reloaded in place,
    /// preserving the entry's identity; if it is present and live, the
    /// cached value is handed out as it stands, with no reload. The claim
    /// is refused at once if an exclusive claim is outstanding or the bound
    /// on shared claims is reached.
    pub fn get(&mut self, key: u64) -> (r: Result<CfgRef<V>, ConfigError>)
        requires
            old(self).wf(),
        ensures
            final(self).wf(),
            old(self).agrees_except(*final(self), key),
            match r {
                Ok(g) => {
                    &&& g.key_spec() == key
                    &&& final(self).has(key)
                    &&& final(self).valid_of(key)
                    &&& !final(self).writing_of(key)
                    &&& g.value_spec() == final(self).value_of(key)
                    &&& old(self).has(key) && old(self).valid_of(key) ==> !old(self).writing_of(
                        key,
                    ) && old(self).readers_of(key) < access::MAX_READERS
                    &&& old(self).has(key) && old(self).valid_of(key) ==> {
                        &&& final(self).value_of(key) == old(self).value_of(key)
                        &&& final(self).dirty_of(key) == old(self).dirty_of(key)
                        &&& final(self).readers_of(key) == old(self).readers_of(key) + 1
                        &&& final(self).count() == old(self).count()
                    }
                    &&& old(self).has(key) && !old(self).valid_of(key) ==> {
                        &&& !final(self).dirty_of(key)
                        &&& final(self).readers_of(key) == 1
                        &&& final(self).count() == old(self).count()
                    }
                    &&& !old(self).has(key) ==> {
                        &&& !final(self).dirty_of(key)
                        &&& final(self).readers_of(key) == 1
                        &&& final(self).count() == old(self).count() + 1
                    }
                },
                Err(e) => {
                    &&& *final(self) == *old(self)
                    &&& old(self).has(key)
                    &&& old(self).valid_of(key)
                    &&& (e == ConfigError::WriteHeld <==> old(self).writing_of(key))
                    &&& (e == ConfigError::TooManyReaders <==> !old(self).writing_of(key))
                    &&& old(self).writing_of(key) || old(self).readers_of(key)
                        == access::MAX_READERS
                },
            },
    {
        let ghost pre = *self;
        match self.find(key) {
            Some(i) => {
                let w = self.entries[i].access;
                if access::word_is_valid(w) {
                    match access::acquire_shared(w) {
                        Ok(w2) => {
                            self.entries[i].access = w2;
                            proof {
                                Self::lemma_update(pre, *self, i as int);
                            }
                            let g = CfgRef::new(key, self.entries[i].value.clone_value());
                            Ok(g)
                        },
                        Err(e) => Err(e),
                    }
                } else {
                    // stale placeholder: reload in place, preserving the
                    // entry's identity
                    let v = V::load_or_default(key);
                    let fresh = access::fresh_word();
                    let w2 = match access::acquire_shared(fresh) {
                        Ok(w2) => w2,
                        Err(_) => {
                            proof {
                                assert(false);
                            }
                            fresh
                        },
                    };
                    let g = CfgRef::new(key, v.clone_value());
                    self.entries[i].value = v;
                    self.entries[i].access = w2;
                    proof {
                        Self::lemma_update(pre, *self, i as int);
                    }
                    Ok(g)
                }
            },
            None => {
                let v = V::load_or_default(key);
                let fresh = access::fresh_word();
                let w2 = match access::acquire_shared(fresh) {
                    Ok(w2) => w2,
                    Err(_) => {
                        proof {
                            assert(false);
                        }
                        fresh
                    },
                };
                let g = CfgRef::new(key, v.clone_value());
                self.entries.push(CacheEntry { key, value: v, access: w2 });
                proof {
                    Self::lemma_push(pre, *self);
                }
                Ok(g)
            },
        }
    }

    /// Get the exclusive guard on the entry for `key`.
    ///
    /// Loading and reloading behave as in [`Config::get`]. The claim is
    /// refused at once if any claim, shared or exclusive, is outstanding.
    /// Acquisition alone does not mark the entry dirty; only a mutable
    /// dereference of the guard does.
    pub fn get_mut(&mut self, key: u64) -> (r: Result<CfgMut<V>, ConfigError>)
        requires
            old(self).wf(),
        ensures
            final(self).wf(),
            old(self).agrees_except(*final(self), key),
            match r {
                Ok(g) => {
                    &&& g.key_spec() == key
                    &&& !g.is_dirtied()
                    &&& final(self).has(key)
                    &&& final(self).valid_of(key)
                    &&& final(self).writing_of(key)
                    &&& final(self).readers_of(key) == 0
                    &&& g.value_spec() == final(self).value_of(key)
                    &&& old(self).has(key) && old(self).valid_of(key) ==> !old(self).writing_of(
                        key,
                    ) && old(self).readers_of(key) == 0
                    &&& old(self).has(key) && old(self).valid_of(key) ==> {
                        &&& final(self).value_of(key) == old(self).value_of(key)
                        &&& final(self).dirty_of(key) == old(self).dirty_of(key)
                        &&& final(self).count() == old(self).count()
                    }
                    &&& old(self).has(key) && !old(self).valid_of(key) ==> {
                        &&& !final(self).dirty_of(key)
                        &&& final(self).count() == old(self).count()
                    }
                    &&& !old(self).has(key) ==> {
                        &&& !final(self).dirty_of(key)
                        &&& final(self).count() == old(self).count() + 1
                    }
                },
                Err(e) => {
                    &&& *final(self) == *old(self)
                    &&& old(self).has(key)
                    &&& old(self).valid_of(key)
                    &&& (e == ConfigError::WriteHeld <==> old(self).writing_of(key))
                    &&& (e == ConfigError::ReadHeld <==> !old(self).writing_of(key))
                    &&& old(self).writing_of(key) || old(self).readers_of(key) > 0
                },
            },
    {
        let ghost pre = *self;
        match self.find(key) {
            Some(i) => {
                let w = self.entries[i].access;
                if access::word_is_valid(w) {
                    match access::acquire_exclusive(w) {
                        Ok(w2) => {
                            self.entries[i].access = w2;
                            proof {
                                Self::lemma_update(pre, *self, i as int);
                            }
                            let g = CfgMut::new(key, self.entries[i].value.clone_value());
                            Ok(g)
                        },
                        Err(e) => Err(e),
                    }
                } else {
                    // stale placeholder: reload in place, preserving the
                    // entry's identity
                    let v = V::load_or_default(key);
                    let fresh = access::fresh_word();
                    let w2 = match access::acquire_exclusive(fresh) {
                        Ok(w2) => w2,
                        Err(_) => {
                            proof {
                                assert(false);
                            }
                            fresh
                        },
                    };
                    let g = CfgMut::new(key, v.clone_value());
                    self.entries[i].value = v;
                    self.entries[i].access = w2;
                    proof {
                        Self::lemma_update(pre, *self, i as int);
                    }
                    Ok(g)
                }
            },
            None => {
                let v = V::load_or_default(key);
                let fresh = access::fresh_word();
                let w2 = match access::acquire_exclusive(fresh) {
                    Ok(w2) => w2,
                    Err(_) => {
                        proof {
                            assert(false);
                        }
                        fresh
                    },
                };
                let g = CfgMut::new(key, v.clone_value());
                self.entries.push(CacheEntry { key, value: v, access: w2 });
                proof {
                    Self::lemma_push(pre, *self);
                }
                Ok(g)
            },
        }
    }

    /// Hand a shared guard back: one shared claim on its entry is
    /// released. Giving back a guard whose entry has gone (for instance
    /// because the value was taken) releases nothing.
    pub fn release(&mut self, guard: CfgRef<V>)
        requires
            old(self).wf(),
        ensures
            final(self).wf(),
            old(self).agrees_except(*final(self), guard.key_spec()),
            ({
                let k = guard.key_spec();
                if old(self).has(k) && old(self).readers_of(k) > 0 {
                    &&& final(self).has(k)
                    &&& final(self).value_of(k) == old(self).value_of(k)
                    &&& final(self).valid_of(k) == old(self).valid_of(k)
                    &&& final(self).dirty_of(k) == old(self).dirty_of(k)
                    &&& !final(self).writing_of(k)
                    &&& final(self).readers_of(k) == old(self).readers_of(k) - 1
                } else {
                    *final(self) == *old(self)
                }
            }),
    {
        let ghost pre = *self;
        let key = guard.key();
        match self.find(key) {
            Some(i) => {
                let w = self.entries[i].access;
                if access::word_readers(w) > 0 {
                    self.entries[i].access = access::release_shared(w);
                    proof {
                        Self::lemma_update(pre, *self, i as int);
                    }
                }
            },
            None => {},
        }
    }

    /// Hand the exclusive guard back: the guard's value goes into the
    /// entry's slot, the exclusive claim is released, and the entry is
    /// marked dirty if and only if it already was or the guard was mutably
    /// dereferenced. Giving back a guard whose entry has gone, or whose
    /// entry holds no exclusive claim, changes nothing.
    pub fn release_mut(&mut self, guard: CfgMut<V>)
        requires
            old(self).wf(),
        ensures
            final(self).wf(),
            old(self).agrees_except(*final(self), guard.key_spec()),
            ({
                let k = guard.key_spec();
                if old(self).has(k) && old(self).writing_of(k) {
                    &&& final(self).has(k)
                    &&& final(self).value_of(k) == guard.value_spec()
                    &&& final(self).valid_of(k)
                    &&& final(self).dirty_of(k) == (old(self).dirty_of(k) || guard.is_dirtied())
                    &&& !final(self).writing_of(k)
                    &&& final(self).readers_of(k) == 0
                } else {
                    *final(self) == *old(self)
                }
            }),
    {
        let ghost pre = *self;
        let (key, value, dirtied) = guard.into_parts();
        match self.find(key) {
            Some(i) => {
                let w = self.entries[i].access;
                if access::word_is_writing(w) {
                    let w2 = access::release_exclusive(w);
                    let w3 = if dirtied {
                        access::set_dirty(w2)
                    } else {
                        w2
                    };
                    self.entries[i].value = value;
                    self.entries[i].access = w3;
                    proof {
                        Self::lemma_update(pre, *self, i as int);
                    }
                }
            },
            None => {},
        }
    }

    /// Take the value for `key` out of the cache.
    ///
    /// A present, live entry is removed and its value handed over; any
    /// pending dirty state is discarded without write-back — taking means
    /// taking responsibility for the value. A stale entry is removed and a
    /// freshly loaded value handed over. An absent key hands over a
    /// freshly loaded value and leaves the cache unchanged. Refused at
    /// once if any claim is outstanding on the entry.
    pub fn take(&mut self, key: u64) -> (r: Result<V, ConfigError>)
        requires
            old(self).wf(),
        ensures
            final(self).wf(),
            old(self).agrees_except(*final(self), key),
            match r {
                Ok(v) => {
                    &&& !final(self).has(key)
                    &&& !old(self).has(key) ==> *final(self) == *old(self)
                    &&& old(self).has(key) ==> {
                        &&& final(self).count() == old(self).count() - 1
                        &&& !old(self).writing_of(key)
                        &&& old(self).readers_of(key) == 0
                    }
                    &&& old(self).has(key) && old(self).valid_of(key) ==> v == old(
                        self,
                    ).value_of(key)
                },
                Err(e) => {
                    &&& *final(self) == *old(self)
                    &&& old(self).has(key)
                    &&& (e == ConfigError::WriteHeld <==> old(self).writing_of(key))
                    &&& (e == ConfigError::ReadHeld <==> !old(self).writing_of(key))
                    &&& old(self).writing_of(key) || old(self).readers_of(key) > 0
                },
            },
    {
        let ghost pre = *self;
        match self.find(key) {
            Some(i) => {
                let w = self.entries[i].access;
                if access::word_is_writing(w) {
                    Err(ConfigError::WriteHeld)
                } else if access::word_readers(w) > 0 {
                    Err(ConfigError::ReadHeld)
                } else {
                    let e = self.entries.remove(i);
                    proof {
                        Self::lemma_remove(pre, *self, i as int);
                    }
                    if access::word_is_valid(e.access) {
                        Ok(e.value)
                    } else {
                        Ok(V::load_or_default(key))
                    }
                }
            },
            None => Ok(V::load_or_default(key)),
        }
    }

    /// Store a value for `key` outside the guard discipline.
    ///
    /// If an entry exists and carries no claim, its value is replaced and
    /// the entry marked dirty; the write-back happens at eviction. If the
    /// key is absent, the value is persisted through the source right away
    /// and a fresh, clean entry materialised; a persist failure is handed
    /// back to the caller and the cache is left unchanged.
    pub fn save(&mut self, key: u64, value: V) -> (r: Result<(), ConfigError>)
        requires
            old(self).wf(),
        ensures
            final(self).wf(),
            old(self).agrees_except(*final(self), key),
            match r {
                Ok(u) => {
                    &&& final(self).has(key)
                    &&& final(self).value_of(key) == value
                    &&& final(self).valid_of(key)
                    &&& !final(self).writing_of(key)
                    &&& final(self).readers_of(key) == 0
                    &&& old(self).has(key) ==> final(self).dirty_of(key) && final(self).count()
                        == old(self).count()
                    &&& !old(self).has(key) ==> !final(self).dirty_of(key) && final(self).count()
                        == old(self).count() + 1
                },
                Err(e) => {
                    &&& *final(self) == *old(self)
                    &&& old(self).has(key) ==> {
                        &&& (e == ConfigError::WriteHeld <==> old(self).writing_of(key))
                        &&& (e == ConfigError::ReadHeld <==> !old(self).writing_of(key))
                        &&& old(self).writing_of(key) || old(self).readers_of(key) > 0
                    }
                },
            },
    {
        let ghost pre = *self;
        match self.find(key) {
            Some(i) => {
                let w = self.entries[i].access;
                if access::word_is_writing(w) {
                    Err(ConfigError::WriteHeld)
                } else if access::word_readers(w) > 0 {
                    Err(ConfigError::ReadHeld)
                } else {
                    let fresh = access::fresh_word();
                    self.entries[i].value = value;
                    self.entries[i].access = access::set_dirty(fresh);
                    proof {
                        Self::lemma_update(pre, *self, i as int);
                    }
                    Ok(())
                }
            },
            None => {
                match value.save() {
                    Ok(_) => {
                        let fresh = access::fresh_word();
                        self.entries.push(CacheEntry { key, value, access: fresh });
                        proof {
                            Self::lemma_push(pre, *self);
                        }
                        Ok(())
                    },
                    Err(e) => Err(e),
                }
            },
        }
    }

    /// Invalidate the entry for `key`: write a dirty value back, then mark
    /// the entry a stale placeholder so that the next access reloads it in
    /// place.
    ///
    /// Returns `Ok(None)` if the entry was clean and nothing was written
    /// back, and `Ok(Some(ok))` if a write-back was attempted, with its
    /// outcome; a write-back failure is reported this way, not raised.
    /// Refused at once if the key is absent or a claim is outstanding.
    pub fn invalidate(&mut self, key: u64) -> (r: Result<Option<bool>, ConfigError>)
        requires
            old(self).wf(),
        ensures
            final(self).wf(),
            old(self).agrees_except(*final(self), key),
            match r {
                Ok(wb) => {
                    &&& old(self).has(key)
                    &&& !old(self).writing_of(key)
                    &&& old(self).readers_of(key) == 0
                    &&& final(self).has(key)
                    &&& final(self).count() == old(self).count()
                    &&& !final(self).valid_of(key)
                    &&& !final(self).dirty_of(key)
                    &&& !final(self).writing_of(key)
                    &&& final(self).readers_of(key) == 0
                    &&& final(self).value_of(key) == old(self).value_of(key)
                    &&& (wb is Some <==> old(self).dirty_of(key))
                },
                Err(e) => {
                    &&& *final(self) == *old(self)
                    &&& (e == (ConfigError::ConfigNotFound { key }) <==> !old(self).has(key))
                    &&& old(self).has(key) ==> {
                        &&& (e == ConfigError::WriteHeld <==> old(self).writing_of(key))
                        &&& (e == ConfigError::ReadHeld <==> !old(self).writing_of(key)
                            && old(self).readers_of(key) > 0)
                        &&& old(self).writing_of(key) || old(self).readers_of(key) > 0
                    }
                },
            },
    {
        let ghost pre = *self;
        match self.find(key) {
            Some(i) => {
                let w = self.entries[i].access;
                if access::word_is_writing(w) {
                    Err(ConfigError::WriteHeld)
                } else if access::word_readers(w) > 0 {
                    Err(ConfigError::ReadHeld)
                } else {
                    let wb = if access::word_is_dirty(w) {
                        let ok = self.entries[i].value.save().is_ok();
                        Some(ok)
                    } else {
                        None
                    };
                    self.entries[i].access = access::stale_word();
                    proof {
                        Self::lemma_update(pre, *self, i as int);
                    }
                    Ok(wb)
                }
            },
            None => Err(ConfigError::ConfigNotFound { key }),
        }
    }

    /// What one key's entry looks like after the claims of the first `a`
    /// keys of `keys` have been granted on top of `pre`: an entry that was
    /// live in `pre` carries its old state plus the granted shared claims;
    /// an entry the grants materialised is live, clean and carries exactly
    /// the granted claims; everything else stands as it was, except that an
    /// entry whose grants have all been given back may remain materialised,
    /// live, clean and unclaimed.
    pub open spec fn shared_grant_at(pre: Self, post: Self, keys: Seq<u64>, a: int, k: u64) -> bool {
        &&& (pre.has(k) && pre.valid_of(k) ==> post.has(k) && post.valid_of(k)
            && post.value_of(k) == pre.value_of(k) && post.dirty_of(k) == pre.dirty_of(k)
            && post.writing_of(k) == pre.writing_of(k) && post.readers_of(k)
            == pre.readers_of(k) + count_upto(keys, a, k))
        &&& (!(pre.has(k) && pre.valid_of(k)) && count_upto(keys, a, k) > 0 ==> post.has(k)
            && post.valid_of(k) && !post.dirty_of(k) && !post.writing_of(k)
            && post.readers_of(k) == count_upto(keys, a, k))
        &&& (!(pre.has(k) && pre.valid_of(k)) && count_upto(keys, a, k) == 0 ==> ({
            ||| (post.has(k) == pre.has(k) && (pre.has(k) ==> post.value_of(k)
                == pre.value_of(k) && post.word_of(k) == pre.word_of(k)))
            ||| (post.has(k) && post.valid_of(k) && !post.dirty_of(k) && !post.writing_of(k)
                && post.readers_of(k) == 0)
        }))
    }

    /// [`Config::shared_grant_at`], at every key.
    pub open spec fn shared_granted(pre: Self, post: Self, keys: Seq<u64>, a: int) -> bool {
        forall|k: u64| #[trigger] Self::shared_grant_at(pre, post, keys, a, k)
    }

    /// Get shared guards on the entries for several keys, acquired in
    /// declared order.
    ///
    /// On success the guards come back in key order, one per key; a key
    /// may occur more than once, each occurrence holding one shared claim.
    /// If one acquisition is refused, the claims already granted are given
    /// back and the refusal is handed on; the acquisitions are not
    /// transactional beyond that.
    pub fn get_many(&mut self, keys: &Vec<u64>) -> (r: Result<Vec<CfgRef<V>>, ConfigError>)
        requires
            old(self).wf(),
        ensures
            final(self).wf(),
            match r {
                Ok(gs) => {
                    &&& gs@.len() == keys@.len()
                    &&& forall|a: int|
                        0 <= a < keys@.len() ==> (#[trigger] gs@[a]).key_spec() == keys@[a]
                    &&& forall|a: int|
                        0 <= a < keys@.len() ==> final(self).has(#[trigger] keys@[a])
                            && final(self).valid_of(keys@[a]) && !final(self).writing_of(keys@[a])
                    &&& forall|a: int|
                        0 <= a < keys@.len() ==> (#[trigger] gs@[a]).value_spec()
                            == final(self).value_of(keys@[a])
                    &&& Self::shared_granted(*old(self), *final(self), keys@, keys@.len() as int)
                },
                Err(e) => {
                    &&& e == ConfigError::WriteHeld || e == ConfigError::TooManyReaders
                    &&& Self::shared_granted(*old(self), *final(self), keys@, 0)
                },
            },
    {
        let ghost pre = *self;
        let n = keys.len();
        let mut gs: Vec<CfgRef<V>> = Vec::new();
        let mut i: usize = 0;
        let mut failure: Option<ConfigError> = None;
        while i < n
            invariant
                self.wf(),
                n == keys@.len(),
                i <= n,
                gs@.len() == i,
                forall|a: int| 0 <= a < i ==> (#[trigger] gs@[a]).key_spec() == keys@[a],
                forall|a: int|
                    0 <= a < i ==> self.has(#[trigger] keys@[a]) && self.valid_of(keys@[a])
                        && !self.writing_of(keys@[a]),
                forall|a: int|
                    0 <= a < i ==> (#[trigger] gs@[a]).value_spec() == self.value_of(keys@[a]),
                Self::shared_granted(pre, *self, keys@, i as int),
                match failure {
                    Some(e) => e == ConfigError::WriteHeld || e == ConfigError::TooManyReaders,
                    None => true,
                },
            ensures
                failure is None ==> i == n,
            decreases n - i,
        {
            let key = keys[i];
            let ghost mid = *self;
            match self.get(key) {
                Ok(g) => {
                    gs.push(g);
                    i = i + 1;
                    proof {
                        assert(key == keys@[i - 1]);
                        assert forall|k: u64| #[trigger]
                            Self::shared_grant_at(pre, *self, keys@, i as int, k) by {
                            assert(Self::shared_grant_at(pre, mid, keys@, i - 1, k));
                            if k == key {
                                assert(count_upto(keys@, i as int, k)
                                    == count_upto(keys@, i - 1, k) + 1);
                                if pre.has(k) && pre.valid_of(k) {
                                    assert(mid.has(k) && mid.valid_of(k));
                                    assert(self.readers_of(k) == mid.readers_of(k) + 1);
                                    assert(!mid.writing_of(k));
                                } else if count_upto(keys@, i - 1, k) > 0 {
                                    assert(mid.has(k) && mid.valid_of(k) && !mid.dirty_of(k));
                                    assert(self.readers_of(k) == mid.readers_of(k) + 1);
                                } else {
                                    if mid.has(k) == pre.has(k) && (pre.has(k)
                                        ==> mid.value_of(k) == pre.value_of(k) && mid.word_of(k)
                                        == pre.word_of(k)) {
                                        assert(self.readers_of(k) == 1 && !self.dirty_of(k));
                                    } else {
                                        assert(mid.has(k) && mid.valid_of(k) && !mid.dirty_of(k)
                                            && mid.readers_of(k) == 0);
                                        assert(self.readers_of(k) == 1 && !self.dirty_of(k));
                                    }
                                }
                            } else {
                                assert(count_upto(keys@, i as int, k)
                                    == count_upto(keys@, i - 1, k));
                                assert(mid.untouched_at(*self, k));
                            }
                        }
                        assert forall|a: int|
                            0 <= a < i implies self.has(#[trigger] keys@[a])
                            && self.valid_of(keys@[a]) && !self.writing_of(keys@[a]) by {
                            if keys@[a] != key {
                                assert(mid.has(keys@[a]) && mid.valid_of(keys@[a])
                                    && !mid.writing_of(keys@[a]));
                                assert(mid.untouched_at(*self, keys@[a]));
                            }
                        }
                        assert forall|a: int|
                            0 <= a < i implies (#[trigger] gs@[a]).value_spec()
                            == self.value_of(keys@[a]) by {
                            if a < i - 1 {
                                if keys@[a] != key {
                                    assert(mid.has(keys@[a]));
                                    assert(mid.untouched_at(*self, keys@[a]));
                                } else {
                                    assert(mid.has(key) && mid.valid_of(key));
                                }
                            }
                        }
                    }
                },
                Err(e) => {
                    failure = Some(e);
                    break;
                },
            }
        }
        match failure {
            None => Ok(gs),
            Some(e) => {
                // give the granted claims back, last first
                while gs.len() > 0
                    invariant
                        self.wf(),
                        n == keys@.len(),
                        gs@.len() <= n,
                        forall|a: int|
                            0 <= a < gs@.len() ==> (#[trigger] gs@[a]).key_spec() == keys@[a],
                        Self::shared_granted(pre, *self, keys@, gs@.len() as int),
                    decreases gs@.len(),
                {
                    let ghost j = gs@.len() as int;
                    let ghost mid = *self;
                    let g = match gs.pop() {
                        Some(g) => g,
                        None => {
                            proof {
                                assert(false);
                            }
                            return Err(e);
                        },
                    };
                    let ghost k0 = g.key_spec();
                    proof {
                        assert(k0 == keys@[j - 1]);
                        assert(count_upto(keys@, j, k0) == count_upto(keys@, j - 1, k0) + 1);
                        assert(Self::shared_grant_at(pre, mid, keys@, j, k0));
                        assert(mid.has(k0) && mid.readers_of(k0) > 0);
                        mid.lemma_mutual_exclusion(k0);
                        assert(!mid.writing_of(k0));
                    }
                    self.release(g);
                    proof {
                        assert forall|k: u64| #[trigger]
                            Self::shared_grant_at(pre, *self, keys@, j - 1, k) by {
                            assert(Self::shared_grant_at(pre, mid, keys@, j, k));
                            if k == k0 {
                                assert(count_upto(keys@, j, k) == count_upto(keys@, j - 1, k)
                                    + 1);
                            } else {
                                assert(count_upto(keys@, j, k) == count_upto(keys@, j - 1, k));
                                assert(mid.untouched_at(*self, k));
                            }
                        }
                    }
                }
                Err(e)
            },
        }
    }

    /// What one key's entry looks like after the exclusive claims of the
    /// first `a` keys of `keys` have been granted on top of `pre`: a listed
    /// key's entry is live and exclusively claimed, its value and dirtiness
    /// carried over where it was live before and clean where it had to be
    /// materialised or reloaded; every other key stands as it was.
    pub open spec fn excl_grant_at(pre: Self, post: Self, keys: Seq<u64>, a: int, k: u64) -> bool {
        &&& (count_upto(keys, a, k) == 0 ==> pre.untouched_at(post, k))
        &&& (count_upto(keys, a, k) > 0 ==> post.has(k) && post.valid_of(k) && post.writing_of(k)
            && post.readers_of(k) == 0 && (pre.has(k) && pre.valid_of(k) ==> post.value_of(k)
            == pre.value_of(k) && post.dirty_of(k) == pre.dirty_of(k)) && (!(pre.has(k)
            && pre.valid_of(k)) ==> !post.dirty_of(k)))
    }

    /// [`Config::excl_grant_at`], at every key.
    pub open spec fn excl_granted(pre: Self, post: Self, keys: Seq<u64>, a: int) -> bool {
        forall|k: u64| #[trigger] Self::excl_grant_at(pre, post, keys, a, k)
    }

    /// Get exclusive guards on the entries for several keys, acquired in
    /// declared order.
    ///
    /// Either every key's claim is granted or nothing changes: a duplicate
    /// key or an outstanding claim on any listed key refuses the whole
    /// request at once, with the error the conflicting acquisition would
    /// have raised.
    pub fn get_mut_many(&mut self, keys: &Vec<u64>) -> (r: Result<Vec<CfgMut<V>>, ConfigError>)
        requires
            old(self).wf(),
        ensures
            final(self).wf(),
            match r {
                Ok(gs) => {
                    &&& distinct_keys(keys@)
                    &&& gs@.len() == keys@.len()
                    &&& forall|a: int|
                        0 <= a < keys@.len() ==> (#[trigger] gs@[a]).key_spec() == keys@[a]
                            && !gs@[a].is_dirtied()
                    &&& forall|a: int|
                        0 <= a < keys@.len() ==> final(self).has(#[trigger] keys@[a])
                            && final(self).valid_of(keys@[a]) && final(self).writing_of(keys@[a])
                            && final(self).readers_of(keys@[a]) == 0
                    &&& forall|a: int|
                        0 <= a < keys@.len() ==> (#[trigger] gs@[a]).value_spec()
                            == final(self).value_of(keys@[a])
                    &&& Self::excl_granted(*old(self), *final(self), keys@, keys@.len() as int)
                },
                Err(e) => {
                    &&& *final(self) == *old(self)
                    &&& e == ConfigError::WriteHeld || e == ConfigError::ReadHeld
                    &&& !distinct_keys(keys@) || exists|a: int|
                        0 <= a < keys@.len() && old(self).has(#[trigger] keys@[a]) && old(
                            self,
                        ).valid_of(keys@[a]) && (old(self).writing_of(keys@[a]) || old(
                            self,
                        ).readers_of(keys@[a]) > 0)
                },
            },
    {
        let ghost pre = *self;
        let n = keys.len();
        // check every acquisition before making any: a refusal leaves the
        // cache untouched
        let mut a: usize = 0;
        while a < n
            invariant
                self.wf(),
                *self == pre,
                n == keys@.len(),
                a <= n,
                forall|x: int, y: int| 0 <= x < y < a ==> keys@[x] != keys@[y],
                forall|x: int|
                    0 <= x < a ==> (pre.has(#[trigger] keys@[x]) && pre.valid_of(keys@[x])
                        ==> !pre.writing_of(keys@[x]) && pre.readers_of(keys@[x]) == 0),
            decreases n - a,
        {
            let key = keys[a];
            let mut b: usize = 0;
            while b < a
                invariant
                    self.wf(),
                    *self == pre,
                    n == keys@.len(),
                    a < n,
                    b <= a,
                    key == keys@[a as int],
                    forall|x: int| 0 <= x < b ==> keys@[x] != keys@[a as int],
                decreases a - b,
            {
                if keys[b] == key {
                    return Err(ConfigError::WriteHeld);
                }
                b = b + 1;
            }
            match self.find(key) {
                Some(i) => {
                    let w = self.entries[i].access;
                    if access::word_is_valid(w) {
                        if access::word_is_writing(w) {
                            return Err(ConfigError::WriteHeld);
                        }
                        if access::word_readers(w) > 0 {
                            return Err(ConfigError::ReadHeld);
                        }
                    }
                },
                None => {},
            }
            a = a + 1;
        }
        // every acquisition is now known to go through
        let mut gs: Vec<CfgMut<V>> = Vec::new();
        let mut i: usize = 0;
        while i < n
            invariant
                self.wf(),
                n == keys@.len(),
                i <= n,
                gs@.len() == i,
                distinct_keys(keys@),
                forall|x: int|
                    0 <= x < n ==> (pre.has(#[trigger] keys@[x]) && pre.valid_of(keys@[x])
                        ==> !pre.writing_of(keys@[x]) && pre.readers_of(keys@[x]) == 0),
                forall|a2: int|
                    0 <= a2 < i ==> (#[trigger] gs@[a2]).key_spec() == keys@[a2]
                        && !gs@[a2].is_dirtied(),
                forall|a2: int|
                    0 <= a2 < i ==> self.has(#[trigger] keys@[a2]) && self.valid_of(keys@[a2])
                        && self.writing_of(keys@[a2]) && self.readers_of(keys@[a2]) == 0,
                forall|a2: int|
                    0 <= a2 < i ==> (#[trigger] gs@[a2]).value_spec() == self.value_of(
                        keys@[a2],
                    ),
                Self::excl_granted(pre, *self, keys@, i as int),
            decreases n - i,
        {
            let key = keys[i];
            let ghost mid = *self;
            proof {
                assert(Self::excl_grant_at(pre, mid, keys@, i as int, key));
                assert(count_upto(keys@, i as int, key) == 0) by {
                    if count_upto(keys@, i as int, key) > 0 {
                        lemma_count_upto_occurs(keys@, i as int, key);
                    }
                }
                assert(pre.untouched_at(mid, key));
            }
            match self.get_mut(key) {
                Ok(g) => {
                    gs.push(g);
                    i = i + 1;
                    proof {
                        assert(key == keys@[i - 1]);
                        assert forall|k: u64| #[trigger]
                            Self::excl_grant_at(pre, *self, keys@, i as int, k) by {
                            assert(Self::excl_grant_at(pre, mid, keys@, i - 1, k));
                            if k == key {
                                assert(count_upto(keys@, i as int, k)
                                    == count_upto(keys@, i - 1, k) + 1);
                            } else {
                                assert(count_upto(keys@, i as int, k)
                                    == count_upto(keys@, i - 1, k));
                                assert(mid.untouched_at(*self, k));
                            }
                        }
                        assert forall|a2: int|
                            0 <= a2 < i implies self.has(#[trigger] keys@[a2]) && self.valid_of(
                            keys@[a2],
                        ) && self.writing_of(keys@[a2]) && self.readers_of(keys@[a2]) == 0 by {
                            if keys@[a2] != key {
                                assert(mid.has(keys@[a2]));
                                assert(mid.untouched_at(*self, keys@[a2]));
                            }
                        }
                        assert forall|a2: int|
                            0 <= a2 < i implies (#[trigger] gs@[a2]).value_spec()
                            == self.value_of(keys@[a2]) by {
                            if a2 < i - 1 {
                                assert(keys@[a2] != key);
                                assert(mid.has(keys@[a2]));
                                assert(mid.untouched_at(*self, keys@[a2]));
                            }
                        }
                    }
                },
                Err(e) => {
                    proof {
                        assert(false);
                    }
                    return Err(e);
                },
            }
        }
        Ok(gs)
    }

    /// What one key's entry looks like after the first `a` keys of `keys`
    /// have been taken out of `pre`: a listed key has no entry any more;
    /// every other key stands as it was.
    pub open spec fn taken_at(pre: Self, post: Self, keys: Seq<u64>, a: int, k: u64) -> bool {
        &&& (count_upto(keys, a, k) == 0 ==> pre.untouched_at(post, k))
        &&& (count_upto(keys, a, k) > 0 ==> !post.has(k))
    }

    /// [`Config::taken_at`], at every key.
    pub open spec fn taken_upto(pre: Self, post: Self, keys: Seq<u64>, a: int) -> bool {
        forall|k: u64| #[trigger] Self::taken_at(pre, post, keys, a, k)
    }

    /// Take the values for several keys out of the cache, in declared
    /// order, as [`Config::take`] takes one.
    ///
    /// Either every key is taken or nothing changes: an outstanding claim
    /// on any listed key refuses the whole request at once. A duplicate
    /// key hands over a freshly loaded value from its second occurrence
    /// on, as taking an absent key does.
    pub fn take_many(&mut self, keys: &Vec<u64>) -> (r: Result<Vec<V>, ConfigError>)
        requires
            old(self).wf(),
        ensures
            final(self).wf(),
            match r {
                Ok(vs) => {
                    &&& vs@.len() == keys@.len()
                    &&& forall|a: int| 0 <= a < keys@.len() ==> !final(self).has(#[trigger] keys@[a])
                    &&& Self::taken_upto(*old(self), *final(self), keys@, keys@.len() as int)
                    &&& distinct_keys(keys@) ==> forall|a: int|
                        0 <= a < keys@.len() && old(self).has(#[trigger] keys@[a]) && old(
                            self,
                        ).valid_of(keys@[a]) ==> vs@[a] == old(self).value_of(keys@[a])
                },
                Err(e) => {
                    &&& *final(self) == *old(self)
                    &&& e == ConfigError::WriteHeld || e == ConfigError::ReadHeld
                    &&& exists|a: int|
                        0 <= a < keys@.len() && old(self).has(#[trigger] keys@[a]) && (old(
                            self,
                        ).writing_of(keys@[a]) || old(self).readers_of(keys@[a]) > 0)
                },
            },
    {
        let ghost pre = *self;
        let n = keys.len();
        // check every removal before making any: a refusal leaves the
        // cache untouched
        let mut a: usize = 0;
        while a < n
            invariant
                self.wf(),
                *self == pre,
                n == keys@.len(),
                a <= n,
                forall|x: int|
                    0 <= x < a ==> (pre.has(#[trigger] keys@[x]) ==> !pre.writing_of(keys@[x])
                        && pre.readers_of(keys@[x]) == 0),
            decreases n - a,
        {
            let key = keys[a];
            match self.find(key) {
                Some(i) => {
                    let w = self.entries[i].access;
                    if access::word_is_writing(w) {
                        return Err(ConfigError::WriteHeld);
                    }
                    if access::word_readers(w) > 0 {
                        return Err(ConfigError::ReadHeld);
                    }
                },
                None => {},
            }
            a = a + 1;
        }
        // every removal is now known to go through
        let mut vs: Vec<V> = Vec::new();
        let mut i: usize = 0;
        while i < n
            invariant
                self.wf(),
                n == keys@.len(),
                i <= n,
                vs@.len() == i,
                forall|x: int|
                    0 <= x < n ==> (pre.has(#[trigger] keys@[x]) ==> !pre.writing_of(keys@[x])
                        && pre.readers_of(keys@[x]) == 0),
                forall|a2: int| 0 <= a2 < i ==> !self.has(#[trigger] keys@[a2]),
                distinct_keys(keys@) ==> forall|a2: int|
                    0 <= a2 < i && pre.has(#[trigger] keys@[a2]) && pre.valid_of(keys@[a2])
                        ==> vs@[a2] == pre.value_of(keys@[a2]),
                Self::taken_upto(pre, *self, keys@, i as int),
            decreases n - i,
        {
            let key = keys[i];
            let ghost mid = *self;
            proof {
                assert(Self::taken_at(pre, mid, keys@, i as int, key));
                if count_upto(keys@, i as int, key) == 0 {
                    assert(pre.untouched_at(mid, key));
                }
            }
            match self.take(key) {
                Ok(v) => {
                    vs.push(v);
                    i = i + 1;
                    proof {
                        assert(key == keys@[i - 1]);
                        assert forall|k: u64| #[trigger]
                            Self::taken_at(pre, *self, keys@, i as int, k) by {
                            assert(Self::taken_at(pre, mid, keys@, i - 1, k));
                            if k == key {
                                assert(count_upto(keys@, i as int, k)
                                    == count_upto(keys@, i - 1, k) + 1);
                            } else {
                                assert(count_upto(keys@, i as int, k)
                                    == count_upto(keys@, i - 1, k));
                                assert(mid.untouched_at(*self, k));
                            }
                        }
                        assert forall|a2: int| 0 <= a2 < i implies !self.has(
                            #[trigger] keys@[a2],
                        ) by {
                            if keys@[a2] != key {
                                assert(mid.untouched_at(*self, keys@[a2]));
                            }
                        }
                        if distinct_keys(keys@) {
                            assert forall|a2: int|
                                0 <= a2 < i && pre.has(#[trigger] keys@[a2]) && pre.valid_of(
                                keys@[a2],
                            ) implies vs@[a2] == pre.value_of(keys@[a2]) by {
                                if a2 == i - 1 {
                                    assert(count_upto(keys@, i - 1, key) == 0) by {
                                        if count_upto(keys@, i - 1, key) > 0 {
                                            lemma_count_upto_occurs(keys@, i - 1, key);
                                        }
                                    }
                                    assert(pre.untouched_at(mid, key));
                                }
                            }
                        }
                    }
                },
                Err(e) => {
                    proof {
                        assert(Self::taken_at(pre, mid, keys@, i as int, key));
                        if count_upto(keys@, i as int, key) > 0 {
                            assert(!mid.has(key));
                        } else {
                            assert(pre.untouched_at(mid, key));
                        }
                        assert(false);
                    }
                    return Err(e);
                },
            }
        }
        Ok(vs)
    }

    /// Tear the cache down: every dirty, live entry is written back through
    /// the source, exactly once, and the cache is left empty.
    ///
    /// The report lists each entry that was written back — its key, the
    /// value that was persisted, and whether the persist succeeded — in
    /// entry order. A write-back failure is reported this way and does not
    /// stop the teardown. Clean and stale entries are dropped without
    /// write-back.
    pub fn close(&mut self) -> (report: Vec<(u64, V, bool)>)
        requires
            old(self).wf(),
        ensures
            final(self).wf(),
            final(self).count() == 0,
            forall|k: u64| !final(self).has(k),
            report_kv(report@) == old(self).flushes(),
    {
        let ghost pre = *self;
        let mut report: Vec<(u64, V, bool)> = Vec::new();
        while self.entries.len() > 0
            invariant
                report_kv(report@) + flush_seq(self.entries@) == flush_seq(pre.entries@),
            decreases self.entries@.len(),
        {
            let ghost before = self.entries@;
            let ghost rep_before = report@;
            let e = self.entries.remove(0);
            proof {
                assert(self.entries@ =~= before.drop_first());
            }
            if access::word_is_dirty(e.access) && access::word_is_valid(e.access) {
                let ok = e.value.save().is_ok();
                let key = e.key;
                report.push((key, e.value, ok));
                proof {
                    let head = seq![(before[0].key, before[0].value)];
                    assert(flush_seq(before) == head + flush_seq(before.drop_first()));
                    assert(report_kv(report@) =~= report_kv(rep_before) + head);
                    assert((report_kv(rep_before) + head) + flush_seq(self.entries@)
                        =~= report_kv(rep_before) + (head + flush_seq(self.entries@)));
                }
            } else {
                proof {
                    assert(flush_seq(before) == Seq::<(u64, V)>::empty() + flush_seq(
                        before.drop_first(),
                    ));
                    assert(Seq::<(u64, V)>::empty() + flush_seq(before.drop_first()) =~= flush_seq(
                        before.drop_first(),
                    ));
                }
            }
        }
        proof {
            assert(flush_seq(self.entries@) =~= Seq::<(u64, V)>::empty());
            assert(report_kv(report@) + Seq::<(u64, V)>::empty() =~= report_kv(report@));
        }
        report
    }

    /// Mutual exclusion: in a well-formed cache it is never observable
    /// that an exclusive claim and shared claims are outstanding on one
    /// entry at the same time. (Nor can two exclusive claims be: the
    /// exclusive state is one bit, and [`Config::get_mut`] refuses while
    /// it is set.)
    pub proof fn lemma_mutual_exclusion(self, k: u64)
        requires
            self.wf(),
        ensures
            self.has(k) ==> !(self.writing_of(k) && self.readers_of(k) > 0),
    {
        if self.has(k) {
            let i = self.idx(k);
            assert(access::wf_word(self.entries@[i].access));
        }
    }

    /// The per-entry invariant, stated for clients: the count of shared
    /// claims never exceeds the bound, dirtiness and claims rest only on
    /// live data, and a stale placeholder carries nothing at all.
    pub proof fn lemma_entry_invariant(self, k: u64)
        requires
            self.wf(),
        ensures
            self.has(k) ==> {
                &&& self.readers_of(k) <= access::MAX_READERS
                &&& self.writing_of(k) ==> self.readers_of(k) == 0
                &&& self.dirty_of(k) ==> self.valid_of(k)
                &&& self.writing_of(k) ==> self.valid_of(k)
                &&& !self.valid_of(k) ==> !self.dirty_of(k) && !self.writing_of(k)
                    && self.readers_of(k) == 0
            },
    {
        if self.has(k) {
            let i = self.idx(k);
            assert(access::wf_word(self.entries@[i].access));
            assert(0u32 & 1 != 1 && 0u32 & 2 != 2 && 0u32 & 4 != 4 && 0u32 >> 3 == 0)
                by (bit_vector);
        }
    }

    /// Dirty propagation: a dirty entry is written back exactly once at
    /// teardown, with the value it holds — its key occurs exactly once in
    /// the pending write-back obligation, paired with the entry's current
    /// value, and [`Config::close`] reports exactly that obligation.
    pub proof fn lemma_dirty_flushed_once(self, k: u64)
        requires
            self.wf(),
            self.has(k),
            self.dirty_of(k),
        ensures
            flush_count(self.flushes(), k) == 1,
            exists|j: int|
                0 <= j < self.flushes().len() && self.flushes()[j] == (k, self.value_of(k)),
    {
        let i = self.idx(k);
        assert(access::wf_word(self.entries@[i].access));
        crate::cache::lemma_flush_seq_present(self.entries@, i, k);
        let j = choose|j: int|
            0 <= j < flush_seq(self.entries@).len() && flush_seq(self.entries@)[j] == (
            k,
            self.entries@[i].value,
            );
        assert(self.flushes()[j] == (k, self.value_of(k)));
    }

    /// No spurious write-back: a key whose entry is clean — in particular
    /// one whose exclusive guard was never mutably dereferenced — or
    /// absent altogether does not appear in the pending write-back
    /// obligation, so teardown never writes it back.
    pub proof fn lemma_clean_not_flushed(self, k: u64)
        requires
            self.wf(),
            self.has(k) ==> !self.dirty_of(k),
        ensures
            flush_count(self.flushes(), k) == 0,
    {
        assert forall|i: int|
            0 <= i < self.entries@.len() && (#[trigger] self.entries@[i]).key
                == k implies !needs_flush(self.entries@[i]) by {
            self.lemma_idx(i, k);
        }
        crate::cache::lemma_flush_seq_absent(self.entries@, k);
    }
}

} // verus!
