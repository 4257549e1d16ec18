//! Whether the index of a project is there, being built, out of date or ready.

use crate::text::{parse_unsigned, trim, trimmed, unsigned_upto};
use crate::types::IndexMeta;
use vstd::prelude::*;

verus! {

/// The state of the index of a project.
#[derive(Debug, Clone, Copy, PartialEq, Eq, Structural)]
pub enum IndexState {
    NotIndexed,
    /// A build holds the lock.
    Building,
    /// The index has another schema version than the present one.
    Stale,
    Ready,
}

/// The state of the index, given whether its metadata file is there, whether that is stale, and
/// whether the lock is held.
pub open spec fn state_of(meta_exists: bool, stale: bool, locked: bool) -> IndexState {
    if meta_exists && stale {
        IndexState::Stale
    } else if locked {
        IndexState::Building
    } else if meta_exists {
        IndexState::Ready
    } else {
        IndexState::NotIndexed
    }
}

/// The state of the index of a project: `meta_exists` says whether its metadata file is there and
/// `meta` is what that holds, if it can be read; `expected` is the present schema version.
pub fn detect(meta_exists: bool, meta: &Option<IndexMeta>, expected: u32, locked: bool) -> (r:
    IndexState)
    ensures
        r == state_of(meta_exists, stale_meta(*meta, expected), locked),
{
    if !meta_exists {
        if locked {
            return IndexState::Building;
        }
        return IndexState::NotIndexed;
    }
    if is_stale(meta, expected) {
        return IndexState::Stale;
    }
    if locked {
        return IndexState::Building;
    }
    IndexState::Ready
}

/// Metadata is stale when it cannot be read or has another schema version than the present one.
pub open spec fn stale_meta(meta: Option<IndexMeta>, expected: u32) -> bool {
    meta is None || meta->0.schema_version != expected
}

/// Whether metadata is stale.
pub fn is_stale(meta: &Option<IndexMeta>, expected: u32) -> (r: bool)
    ensures
        r == stale_meta(*meta, expected),
{
    match meta {
        Some(m) => m.schema_version != expected,
        None => true,
    }
}

/// An index is ready only if its metadata is there with the present schema version and no build is
/// running; an index with another version is stale whether or not a build is running.
pub proof fn lemma_state(meta_exists: bool, meta: Option<IndexMeta>, expected: u32, locked: bool)
    ensures
        state_of(meta_exists, stale_meta(meta, expected), locked) == IndexState::Ready
            <==> meta_exists && !locked && meta is Some && meta->0.schema_version == expected,
        state_of(meta_exists, stale_meta(meta, expected), locked) == IndexState::Stale
            <==> meta_exists && stale_meta(meta, expected),
{
}

/// The age of an index in seconds at the time `now`, if it is known: no less than zero, and `None`
/// where the metadata cannot be read or its time is no number.
pub fn index_age_secs(meta: &Option<IndexMeta>, now: Option<u64>) -> (r: Option<u64>)
    ensures
        r == (match *meta {
            Some(m) => age_of(m.updated_at@, now),
            None => None,
        }),
{
    match (meta, now) {
        (Some(m), Some(n)) => match parse_unsigned(&trim(&m.updated_at), u64::MAX) {
            Some(t) => if n >= t {
                Some(n - t)
            } else {
                Some(0)
            },
            None => None,
        },
        _ => None,
    }
}

/// The state of an index: stale if its metadata is there with another version; else being built if
/// a build runs; else ready if its metadata is there; and else not there.
pub proof fn lemma_state_cases(meta_exists: bool, stale: bool, locked: bool)
    ensures
        state_of(meta_exists, stale, locked) == IndexState::Stale <==> meta_exists && stale,
        state_of(meta_exists, stale, locked) == IndexState::Building <==> locked && !(meta_exists
            && stale),
        state_of(meta_exists, stale, locked) == IndexState::Ready <==> meta_exists && !stale
            && !locked,
        state_of(meta_exists, stale, locked) == IndexState::NotIndexed <==> !meta_exists
            && !locked,
{
}

/// The age of an index in seconds, given the time it was last updated at, as it is recorded, and
/// the present one.
pub open spec fn age_of(updated_at: Seq<char>, now: Option<u64>) -> Option<u64> {
    match now {
        Some(n) => match unsigned_upto(trimmed(updated_at), u64::MAX as nat) {
            Some(t) => Some(
                if n >= t {
                    (n - t) as u64
                } else {
                    0u64
                },
            ),
            None => None,
        },
        None => None,
    }
}

/// An index that was updated at a time is as old as the time that has passed since; one of the
/// future is not old at all. Without a clock its age is not known.
pub proof fn lemma_index_age(then: u64, passed: u64, now: u64)
    ensures
        then + passed <= u64::MAX ==> age_of(
            crate::text::decimal(then as nat),
            Some((then + passed) as u64),
        ) == Some(passed),
        now < then ==> age_of(crate::text::decimal(then as nat), Some(now)) == Some(0u64),
        age_of(crate::text::decimal(then as nat), None) is None,
        age_of(Seq::empty(), Some(now)) is None,
{
    crate::text::lemma_decimal_reads_back(then as nat);
    let s = crate::text::decimal(then as nat);
    assert(crate::text::is_digit(s[0]));
    assert(crate::text::is_digit(s[s.len() - 1]));
    let none = Seq::<char>::empty();
    crate::text::lemma_trim_takes_space(none, s, none);
    assert(none + s + none =~= s);
    crate::text::lemma_numbers_read(then as nat, u64::MAX as nat);
    crate::text::lemma_trim_takes_space(none, none, none);
    assert(none + none + none =~= none);
}

} // verus!
