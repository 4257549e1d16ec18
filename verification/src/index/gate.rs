//! How many full builds may run at once, and how a build waits for its turn.

use crate::index::layout::{join_path, path_in};
use crate::text::{decimal, decimal_text, opt_text, parse_unsigned, unsigned_upto};
use vstd::prelude::*;

verus! {

/// The memory that one full build is reckoned with, in gigabytes.
pub const RAM_GB_PER_BUILD: u64 = 16;

/// How many builds may run at once where the memory of the machine is not known.
pub const FALLBACK_CONCURRENCY: usize = 1;

/// The time between two looks at the slots, in milliseconds.
pub const POLL_INTERVAL_MILLIS: u64 = 250;

/// The time after which a build goes on without a slot, in nanoseconds: one hour.
pub const MAX_WAIT_NANOS: u128 = 3600000000000;

/// How many full builds may run at once: what the setting says, if it is a number, else one for
/// each 16 GB of memory; at least one.
pub open spec fn allowed_builds(setting: Option<Seq<char>>, ram_mb: Option<u64>) -> int {
    let by_ram = match ram_mb {
        Some(mb) => (mb / 1024 / RAM_GB_PER_BUILD) as int,
        None => FALLBACK_CONCURRENCY as int,
    };
    let n = match setting {
        Some(s) => match unsigned_upto(s, usize::MAX as nat) {
            Some(n) => n as int,
            None => by_ram,
        },
        None => by_ram,
    };
    if n < 1 {
        1
    } else {
        n
    }
}

/// How many full builds may run at once, given the setting `SEMANTEX_MAX_CONCURRENT_BUILDS` and the
/// memory of the machine in megabytes, if it is known.
pub fn max_concurrent_builds(setting: Option<&str>, ram_mb: Option<u64>) -> (r: usize)
    ensures
        r == allowed_builds(
            match setting {
                Some(s) => Some(s@),
                None => None,
            },
            ram_mb,
        ) as usize,
{
    let parsed: Option<u64> = match setting {
        Some(s) => parse_unsigned(s, usize::MAX as u64),
        None => None,
    };
    match parsed {
        Some(n) => if n < 1 {
            1
        } else {
            n as usize
        },
        None => match ram_mb {
            Some(mb) => {
                let n: u64 = (mb / 1024) / RAM_GB_PER_BUILD;
                if n < 1 {
                    1
                } else {
                    n as usize
                }
            },
            None => FALLBACK_CONCURRENCY,
        },
    }
}

/// At least one build may always run; more memory never means fewer builds.
pub proof fn lemma_allowed_builds(setting: Option<Seq<char>>, less: u64, more: u64)
    requires
        less <= more,
    ensures
        1 <= allowed_builds(setting, Some(less)) <= allowed_builds(setting, Some(more)),
        1 <= allowed_builds(setting, None),
{
}

/// The directory of the slots; `None` where the home directory is not known.
pub fn slots_dir(home: Option<&str>) -> (r: Option<String>)
    ensures
        opt_text(r) == (match home {
            Some(h) => Some(path_in(path_in(h@, ".semantex"@), "build-slots"@)),
            None => None,
        }),
{
    match home {
        Some(h) => Some(join_path(&join_path(h, ".semantex"), "build-slots")),
        None => None,
    }
}

/// The file of a slot.
pub fn slot_name(i: usize) -> (r: String)
    ensures
        r@ == "slot-"@ + decimal(i as nat) + ".lock"@,
{
    "slot-".to_owned().concat(&decimal_text(i as u64)).concat(".lock")
}

/// What a build does after a look at the slots.
#[derive(Debug, Clone, Copy, PartialEq, Eq, Structural)]
pub enum GateStep {
    /// It holds a slot and goes on.
    Proceed,
    /// It says that it waits, and waits.
    AnnounceAndWait,
    Wait,
    /// It goes on without a slot.
    ProceedUngated,
}

/// What a build does after a look at the slots, given whether it got one and how long it has been
/// waiting, in nanoseconds; `None` at the first look.
pub fn next_step(got_slot: bool, waited_nanos: Option<u128>) -> (r: GateStep)
    ensures
        r == step_of(got_slot, waited_nanos),
{
    if got_slot {
        return GateStep::Proceed;
    }
    match waited_nanos {
        None => GateStep::AnnounceAndWait,
        Some(t) => if t > MAX_WAIT_NANOS {
            GateStep::ProceedUngated
        } else {
            GateStep::Wait
        },
    }
}

/// A setting that is a number says how many builds may run, but for zero, which counts as one.
/// Without one, each build is reckoned with its share of the memory, and one may run where the
/// memory is less or not known.
pub proof fn lemma_builds_by_memory(n: nat, mb: u64)
    ensures
        0 < n <= usize::MAX ==> allowed_builds(Some(decimal(n)), Some(mb)) == n,
        allowed_builds(Some(decimal(0)), Some(mb)) == 1,
        allowed_builds(None, None) == 1,
        mb >= 16 * 1024 ==> 16 * 1024 * allowed_builds(None, Some(mb)) <= mb < 16 * 1024 * (
        allowed_builds(None, Some(mb)) + 1),
        mb < 16 * 1024 ==> allowed_builds(None, Some(mb)) == 1,
{
    crate::text::lemma_numbers_read(n, usize::MAX as nat);
    crate::text::lemma_numbers_read(0, usize::MAX as nat);
}

/// What a build does next, given whether it got a slot and for how long it has waited, if it has.
pub open spec fn step_of(got_slot: bool, waited_nanos: Option<u128>) -> GateStep {
    if got_slot {
        GateStep::Proceed
    } else {
        match waited_nanos {
            None => GateStep::AnnounceAndWait,
            Some(t) => if t > MAX_WAIT_NANOS {
                GateStep::ProceedUngated
            } else {
                GateStep::Wait
            },
        }
    }
}

/// A build that gets a slot always goes on with it. One that does not waits, and says so once, at
/// its first look; only when more than an hour has passed it goes on without a slot, and then it
/// always does.
pub proof fn lemma_waiting(got_slot: bool, waited_nanos: Option<u128>)
    ensures
        step_of(got_slot, waited_nanos) == GateStep::Proceed <==> got_slot,
        step_of(got_slot, waited_nanos) == GateStep::AnnounceAndWait <==> !got_slot && waited_nanos
            is None,
        step_of(got_slot, waited_nanos) == GateStep::ProceedUngated <==> !got_slot && (
        waited_nanos matches Some(t) && t > 60 * 60 * 1_000_000_000),
        step_of(got_slot, waited_nanos) == GateStep::Wait <==> !got_slot && (
        waited_nanos matches Some(t) && t <= 60 * 60 * 1_000_000_000),
{
}

} // verus!
