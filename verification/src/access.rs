//! The access state of one cache entry.
//!
//! Four conceptually independent pieces of state are packed into one `u32`
//! word, the way a lock-free cache line packs them into its atomic word,
//! so that every transition is a single read-modify-write of the word:
//!
//! - bit 0: `valid` — the entry holds live data (as opposed to a stale
//!   placeholder awaiting reload);
//! - bit 1: `dirty` — the value was mutated since the last successful
//!   write-back;
//! - bit 2: `writing` — an exclusive claim is outstanding;
//! - bits 3 and up: the count of outstanding shared claims, bounded by
//!   [`MAX_READERS`].
//!
//! The invariant [`wf_word`] is preserved by every transition; in particular
//! an exclusive claim and outstanding shared claims never coexist, a claim
//! never rests on stale data, and stale data is never dirty.

use vstd::prelude::*;

use crate::error::ConfigError;

verus! {

/// The bound on concurrent shared claims of one entry.
pub const MAX_READERS: u32 = 31;

/// The entry holds live data.
pub open spec fn is_valid(w: u32) -> bool {
    w & 1 == 1
}

/// The value was mutated since the last successful write-back.
pub open spec fn is_dirty(w: u32) -> bool {
    w & 2 == 2
}

/// An exclusive claim is outstanding.
pub open spec fn is_writing(w: u32) -> bool {
    w & 4 == 4
}

/// The number of outstanding shared claims.
pub open spec fn readers(w: u32) -> u32 {
    w >> 3
}

/// The invariant of an access word.
pub open spec fn wf_word(w: u32) -> bool {
    &&& readers(w) <= MAX_READERS
    &&& is_writing(w) ==> readers(w) == 0
    &&& is_dirty(w) ==> is_valid(w)
    &&& is_writing(w) ==> is_valid(w)
    &&& !is_valid(w) ==> w == 0
}

/// Read the `valid` bit.
pub fn word_is_valid(w: u32) -> (b: bool)
    ensures
        b == is_valid(w),
{
    w & 1 == 1
}

/// Read the `dirty` bit.
pub fn word_is_dirty(w: u32) -> (b: bool)
    ensures
        b == is_dirty(w),
{
    w & 2 == 2
}

/// Read the `writing` bit.
pub fn word_is_writing(w: u32) -> (b: bool)
    ensures
        b == is_writing(w),
{
    w & 4 == 4
}

/// Read the count of outstanding shared claims.
pub fn word_readers(w: u32) -> (n: u32)
    ensures
        n == readers(w),
{
    w >> 3
}

/// The word of a freshly loaded entry: valid, clean, unclaimed.
pub fn fresh_word() -> (w: u32)
    ensures
        wf_word(w),
        is_valid(w),
        !is_dirty(w),
        !is_writing(w),
        readers(w) == 0,
{
    proof {
        assert(1u32 & 1 == 1 && 1u32 & 2 == 0 && 1u32 & 4 == 0 && 1u32 >> 3 == 0)
            by (bit_vector);
    }
    1
}

/// Take one shared claim: increment the count of shared claims, refusing
/// at once if an exclusive claim is outstanding or the bound is reached.
pub fn acquire_shared(w: u32) -> (r: Result<u32, ConfigError>)
    requires
        wf_word(w),
        is_valid(w),
    ensures
        match r {
            Ok(w2) => {
                &&& !is_writing(w) && readers(w) < MAX_READERS
                &&& wf_word(w2)
                &&& is_valid(w2)
                &&& is_dirty(w2) == is_dirty(w)
                &&& !is_writing(w2)
                &&& readers(w2) == readers(w) + 1
            },
            Err(e) => {
                &&& is_writing(w) || readers(w) == MAX_READERS
                &&& (e == ConfigError::WriteHeld <==> is_writing(w))
                &&& (e == ConfigError::TooManyReaders <==> !is_writing(w))
            },
        },
{
    if w & 4 == 4 {
        Err(ConfigError::WriteHeld)
    } else if w >> 3 >= MAX_READERS {
        Err(ConfigError::TooManyReaders)
    } else {
        proof {
            assert(w & 4 != 4 && w >> 3 < 31 ==> {
                &&& w + 8 <= u32::MAX
                &&& (w + 8) as u32 & 1 == w & 1
                &&& (w + 8) as u32 & 2 == w & 2
                &&& (w + 8) as u32 & 4 == w & 4
                &&& (w + 8) as u32 >> 3 == (w >> 3) + 1
            }) by (bit_vector);
        }
        Ok(w + 8)
    }
}

/// Give one shared claim back: decrement the count of shared claims.
pub fn release_shared(w: u32) -> (w2: u32)
    requires
        wf_word(w),
        readers(w) > 0,
    ensures
        wf_word(w2),
        is_valid(w2) == is_valid(w),
        is_dirty(w2) == is_dirty(w),
        !is_writing(w2),
        readers(w2) == readers(w) - 1,
{
    proof {
        assert(w >> 3 > 0 && w >> 3 <= 31 && (w & 4 == 4 ==> w >> 3 == 0) ==> {
            &&& w >= 8
            &&& (w - 8) as u32 & 1 == w & 1
            &&& (w - 8) as u32 & 2 == w & 2
            &&& (w - 8) as u32 & 4 == w & 4
            &&& w & 4 != 4
            &&& (w - 8) as u32 >> 3 == (w >> 3) - 1
        }) by (bit_vector);
    }
    w - 8
}

/// Take the exclusive claim: set the `writing` bit, refusing at once if any
/// claim, shared or exclusive, is outstanding.
pub fn acquire_exclusive(w: u32) -> (r: Result<u32, ConfigError>)
    requires
        wf_word(w),
        is_valid(w),
    ensures
        match r {
            Ok(w2) => {
                &&& !is_writing(w) && readers(w) == 0
                &&& wf_word(w2)
                &&& is_valid(w2)
                &&& is_dirty(w2) == is_dirty(w)
                &&& is_writing(w2)
                &&& readers(w2) == 0
            },
            Err(e) => {
                &&& is_writing(w) || readers(w) > 0
                &&& (e == ConfigError::WriteHeld <==> is_writing(w))
                &&& (e == ConfigError::ReadHeld <==> !is_writing(w))
            },
        },
{
    if w & 4 == 4 {
        Err(ConfigError::WriteHeld)
    } else if w >> 3 > 0 {
        Err(ConfigError::ReadHeld)
    } else {
        proof {
            assert(w & 4 != 4 && w >> 3 == 0 ==> {
                &&& (w | 4) & 1 == w & 1
                &&& (w | 4) & 2 == w & 2
                &&& (w | 4) & 4 == 4
                &&& (w | 4) >> 3 == 0u32
            }) by (bit_vector);
        }
        Ok(w | 4)
    }
}

/// Give the exclusive claim back: clear the `writing` bit. The `dirty` bit
/// is left as it stands; it persists until write-back.
pub fn release_exclusive(w: u32) -> (w2: u32)
    requires
        wf_word(w),
        is_writing(w),
    ensures
        wf_word(w2),
        is_valid(w2) == is_valid(w),
        is_dirty(w2) == is_dirty(w),
        !is_writing(w2),
        readers(w2) == readers(w),
{
    proof {
        assert((w & !4u32) & 1 == w & 1 && (w & !4u32) & 2 == w & 2 && (w & !4u32) & 4 == 0
            && (w & !4u32) >> 3 == w >> 3) by (bit_vector);
    }
    w & !4u32
}

/// Raise the `dirty` bit of a valid word.
pub fn set_dirty(w: u32) -> (w2: u32)
    requires
        wf_word(w),
        is_valid(w),
    ensures
        wf_word(w2),
        is_valid(w2),
        is_dirty(w2),
        is_writing(w2) == is_writing(w),
        readers(w2) == readers(w),
{
    proof {
        assert((w | 2) & 1 == w & 1 && (w | 2) & 2 == 2 && (w | 2) & 4 == w & 4
            && (w | 2) >> 3 == w >> 3) by (bit_vector);
    }
    w | 2
}

/// The word of an invalidated entry: a stale placeholder awaiting reload,
/// with no claims and nothing left to write back.
pub fn stale_word() -> (w: u32)
    ensures
        wf_word(w),
        !is_valid(w),
        !is_dirty(w),
        !is_writing(w),
        readers(w) == 0,
{
    proof {
        assert(0u32 & 1 == 0 && 0u32 & 2 == 0 && 0u32 & 4 == 0 && 0u32 >> 3 == 0)
            by (bit_vector);
    }
    0
}

/// Shared and exclusive claims exclude one another in every well-formed
/// word: it is never observable that an exclusive claim and a shared claim
/// are outstanding at the same time.
pub proof fn lemma_word_mutual_exclusion(w: u32)
    requires
        wf_word(w),
    ensures
        !(is_writing(w) && readers(w) > 0),
{
}

} // verus!
