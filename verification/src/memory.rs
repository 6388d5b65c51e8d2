//! The memory probe, and the choice of a tier for a new cache entry.

use sysinfo::{RefreshKind, System, SystemExt};
use vstd::prelude::*;

verus! {

/// Bytes in the gigabyte that available memory is counted in.
pub const GIGABYTE: u64 = 1_000_000_000;

/// Whole gigabytes that must be available for a new entry to stay in memory.
pub const MIN_AVAILABLE_MEMORY: u64 = 2;

/// Where a new cache entry goes.
#[derive(Clone, Copy, Debug, PartialEq, Eq, Structural)]
pub enum Tier {
    /// Into memory.
    Memory,
    /// Into a file of the disk tier.
    Disk,
}

/// The tier for an entry that arrives while `available_memory` bytes are
/// available: the disk, when that is less than two whole gigabytes.
pub open spec fn tier_for(available_memory: u64) -> Tier {
    if available_memory / GIGABYTE < MIN_AVAILABLE_MEMORY {
        Tier::Disk
    } else {
        Tier::Memory
    }
}

/// The tier for an entry that arrives while `available_memory` bytes are
/// available.
pub fn select_tier(available_memory: u64) -> (tier: Tier)
    ensures
        tier == tier_for(available_memory),
{
    if available_memory / GIGABYTE < MIN_AVAILABLE_MEMORY {
        Tier::Disk
    } else {
        Tier::Memory
    }
}

/// `SystemExt::available_memory` of sysinfo, on a `System` made for this one
/// question with `System::new_with_specifics` and a `RefreshKind` that asks for
/// memory only: the bytes of physical memory that the machine reports as
/// available now. Nothing is claimed of the number.
#[verifier::external_body]
fn available_memory() -> u64 {
    System::new_with_specifics(RefreshKind::new().with_memory()).available_memory()
}

/// Asks the machine how much memory is available and picks the tier for an
/// entry that arrives now. Which tier comes back depends on the machine;
/// `select_tier` says which it is for each answer of the probe.
pub fn sample_tier() -> Tier {
    select_tier(available_memory())
}

} // verus!
