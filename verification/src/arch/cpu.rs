//! What the processor says about itself, and the registers that come in halves.
use vstd::prelude::*;

verus! {

/// A supervisor instruction fetch from a user page faults.
pub const CR4_SMEP: u64 = 0x10_0000;

/// A supervisor data access to a user page faults unless it is asked for.
pub const CR4_SMAP: u64 = 0x20_0000;

/// The flag that says interrupts are unmasked.
pub const RFLAGS_IF: u64 = 0x200;

/// Whether some flags say that interrupts are unmasked.
#[must_use]
pub fn interrupts_enabled(flags: u64) -> (enabled: bool)
    ensures
        enabled == ((flags / RFLAGS_IF) % 2 == 1),
{
    (flags / RFLAGS_IF) % 2 == 1
}

/// What the processor can do, of the features this kernel cares about.
#[derive(Clone, Copy, Debug, PartialEq, Eq, Structural)]
pub struct Features {
    /// Supervisor fetches from user pages can be made to fault.
    pub smep: bool,
    /// Supervisor accesses to user pages can be made to fault.
    pub smap: bool,
    /// There are 1 GiB pages.
    pub gib_pages: bool,
}

impl Features {
    /// What the processor answered: its highest basic leaf, the feature bits of
    /// leaf 7, its highest extended leaf, and the feature bits of the first of
    /// those.
    ///
    /// A leaf that does not exist answers with another one, so its bits count only
    /// where the highest leaf says it exists.
    #[must_use]
    pub fn detect(basic_max: u32, leaf7: u32, extended_max: u32, extended1: u32) -> (features:
        Features)
        ensures
            features == (Features {
                smep: basic_max >= 7 && (leaf7 / 0x80) % 2 == 1,
                smap: basic_max >= 7 && (leaf7 / 0x10_0000) % 2 == 1,
                gib_pages: extended_max >= 0x8000_0001 && (extended1 / 0x400_0000) % 2 == 1,
            }),
    {
        Features {
            smep: basic_max >= 7 && (leaf7 / 0x80) % 2 == 1,
            smap: basic_max >= 7 && (leaf7 / 0x10_0000) % 2 == 1,
            gib_pages: extended_max >= 0x8000_0001 && (extended1 / 0x400_0000) % 2 == 1,
        }
    }
}

/// A model-specific register out of the two halves it is read in.
#[must_use]
pub fn msr_value(low: u32, high: u32) -> (value: u64)
    ensures
        value == low + 0x1_0000_0000 * high,
{
    low as u64 + 0x1_0000_0000 * (high as u64)
}

/// The two halves a model-specific register is written in, the low one first.
#[must_use]
pub fn msr_halves(value: u64) -> (halves: (u32, u32))
    ensures
        halves.0 + 0x1_0000_0000 * halves.1 == value,
{
    ((value % 0x1_0000_0000) as u32, (value / 0x1_0000_0000) as u32)
}

/// A feature is found exactly when its leaf exists and its bit is set there: bits 7
/// and 20 of leaf 7, and bit 26 of the first extended leaf.
pub proof fn law_a_feature_is_a_bit_of_a_leaf_that_exists(
    basic_max: u32,
    leaf7: u32,
    extended_max: u32,
    extended1: u32,
    features: Features,
)
    requires
        call_ensures(Features::detect, (basic_max, leaf7, extended_max, extended1), features),
    ensures
        features.smep <==> basic_max >= 7 && leaf7 & 0x80 != 0,
        features.smap <==> basic_max >= 7 && leaf7 & 0x10_0000 != 0,
        features.gib_pages <==> extended_max > 0x8000_0000 && extended1 & 0x400_0000 != 0,
{
    assert(((leaf7 / 0x80) % 2 == 1 <==> leaf7 & 0x80 != 0) && ((leaf7 / 0x10_0000) % 2 == 1
        <==> leaf7 & 0x10_0000 != 0) && ((extended1 / 0x400_0000) % 2 == 1 <==> extended1
        & 0x400_0000 != 0)) by (bit_vector);
}

/// A register survives being written in halves and read in halves.
pub proof fn law_a_register_survives_its_halves(value: u64, halves: (u32, u32), again: u64)
    requires
        call_ensures(msr_halves, (value,), halves),
        call_ensures(msr_value, (halves.0, halves.1), again),
    ensures
        again == value,
        halves.0 == value % 0x1_0000_0000,
        halves.1 == value / 0x1_0000_0000,
{
}

/// Interrupts are unmasked exactly when bit 9 of the flags is set.
pub proof fn law_one_flag_unmasks_interrupts(flags: u64, unmasked: bool)
    requires
        call_ensures(interrupts_enabled, (flags,), unmasked),
    ensures
        unmasked <==> flags & 0x200 != 0,
{
    assert((flags / 0x200) % 2 == 1 <==> flags & 0x200 != 0) by (bit_vector);
}

} // verus!
