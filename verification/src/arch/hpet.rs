//! The high precision event timer: a counter that knows its own frequency.
//!
//! Its capability register states the period of one tick in femtoseconds, so a
//! reading converts to real time with no calibration. The main counter and its
//! enable bit are used, and nothing else.
use crate::arch::mmio::{Mmio64, RegOp64};
use vstd::prelude::*;

verus! {

/// General capabilities and id. Read-only.
pub const REG_CAPABILITIES: usize = 0x000;

/// General configuration.
pub const REG_CONFIG: usize = 0x010;

/// The main counter.
pub const REG_COUNTER: usize = 0x0F0;

/// Configuration: run the main counter.
pub const CONFIG_ENABLE: u64 = 1;

/// Configuration: route the first two comparators to legacy interrupt lines. Never
/// set here: those lines belong to the I/O APIC.
pub const CONFIG_LEGACY_ROUTING: u64 = 2;

/// This many femtoseconds make a second.
pub const FEMTOSECONDS_PER_SECOND: u128 = 1_000_000_000_000_000;

/// This many femtoseconds make a nanosecond.
pub const FEMTOSECONDS_PER_NANOSECOND: u128 = 1_000_000;

/// The largest tick period there is: 100 nanoseconds. A longer one is not a slow
/// timer but a register that was not read correctly.
pub const MAX_PERIOD_FS: u32 = 100_000_000;

/// What the capability register says.
#[derive(Clone, Copy, Debug, PartialEq, Eq, Structural)]
pub struct Capabilities {
    /// Period of one tick, in femtoseconds.
    pub period_fs: u32,
    /// How many comparators this block has.
    pub timers: u8,
    /// Whether the main counter is 64 bits wide rather than 32.
    pub counter_64bit: bool,
    /// The vendor id.
    pub vendor: u16,
    /// Hardware revision.
    pub revision: u8,
}

/// What a value of the capability register means, if anything.
pub open spec fn decoded(bits: u64) -> Option<Capabilities> {
    let period = bits / 0x1_0000_0000;
    if 0 < period <= MAX_PERIOD_FS {
        Some(
            Capabilities {
                period_fs: period as u32,
                timers: ((bits / 0x100) % 0x20 + 1) as u8,
                counter_64bit: (bits / 0x2000) % 2 == 1,
                vendor: ((bits / 0x1_0000) % 0x1_0000) as u16,
                revision: (bits % 0x100) as u8,
            },
        )
    } else {
        None
    }
}

/// The low 64 bits of a number.
pub open spec fn low64(n: int) -> int {
    n % 0x1_0000_0000_0000_0000
}

impl Capabilities {
    /// Decode the capability register.
    ///
    /// Returns `None` for a period that is zero or too long: both mean that the
    /// register was not read as the 64-bit quantity it is.
    #[must_use]
    pub fn from_bits(bits: u64) -> (caps: Option<Capabilities>)
        ensures
            caps == decoded(bits),
    {
        let period = bits / 0x1_0000_0000;
        if period == 0 || period > MAX_PERIOD_FS as u64 {
            return None;
        }
        Some(
            Capabilities {
                period_fs: period as u32,
                timers: ((bits / 0x100) % 0x20) as u8 + 1,
                counter_64bit: (bits / 0x2000) % 2 == 1,
                vendor: ((bits / 0x1_0000) % 0x1_0000) as u16,
                revision: (bits % 0x100) as u8,
            },
        )
    }

    /// Ticks per second.
    #[must_use]
    pub fn frequency_hz(self) -> (hz: u64)
        requires
            self.period_fs > 0,
        ensures
            hz == FEMTOSECONDS_PER_SECOND / self.period_fs as u128,
    {
        assert(FEMTOSECONDS_PER_SECOND / self.period_fs as u128 <= FEMTOSECONDS_PER_SECOND)
            by (nonlinear_arith)
            requires
                self.period_fs > 0,
        ;
        (FEMTOSECONDS_PER_SECOND / self.period_fs as u128) as u64
    }

    /// Nanoseconds that some ticks take.
    pub open spec fn ns_of(self, ticks: u64) -> int {
        (ticks * self.period_fs) / (FEMTOSECONDS_PER_NANOSECOND as int)
    }

    /// Ticks that some nanoseconds hold.
    pub open spec fn ticks_of(self, ns: u64) -> int {
        (ns * FEMTOSECONDS_PER_NANOSECOND) / (self.period_fs as int)
    }

    /// Convert a tick count to nanoseconds. The product with the period is taken
    /// in 128 bits; of a result that does not fit 64 bits, the low ones are
    /// returned.
    #[must_use]
    pub fn ticks_to_ns(self, ticks: u64) -> (ns: u64)
        ensures
            ns == low64(self.ns_of(ticks)),
    {
        assert(0 <= ticks * self.period_fs <= 0xFFFF_FFFF_FFFF_FFFF * 0xFFFF_FFFF)
            by (nonlinear_arith)
            requires
                ticks <= 0xFFFF_FFFF_FFFF_FFFF,
                self.period_fs <= 0xFFFF_FFFF,
        ;
        let fs = ticks as u128 * self.period_fs as u128;
        ((fs / FEMTOSECONDS_PER_NANOSECOND) % 0x1_0000_0000_0000_0000) as u64
    }

    /// How many ticks span `ns` nanoseconds.
    #[must_use]
    pub fn ns_to_ticks(self, ns: u64) -> (ticks: u64)
        requires
            self.period_fs > 0,
        ensures
            ticks == low64(self.ticks_of(ns)),
    {
        let fs = ns as u128 * FEMTOSECONDS_PER_NANOSECOND;
        ((fs / self.period_fs as u128) % 0x1_0000_0000_0000_0000) as u64
    }
}

/// How far a counter of this width has gone from one reading to another.
pub open spec fn distance(caps: Capabilities, from: u64, to: u64) -> int {
    if caps.counter_64bit {
        (to - from) % 0x1_0000_0000_0000_0000
    } else {
        (to - from) % 0x1_0000_0000
    }
}

/// Whether the capability register was read between two states of a log, and
/// nothing else done, and what it held.
pub open spec fn asked(before: Seq<RegOp64>, after: Seq<RegOp64>, bits: u64) -> bool {
    after == before.push(RegOp64::Read { offset: REG_CAPABILITIES, value: bits })
}

/// One timer block.
pub struct Hpet<M: Mmio64> {
    /// Access to the registers.
    pub regs: M,
    /// What the capability register said.
    pub caps: Capabilities,
}

/// A wait that has begun: the reading it began at, and how many ticks it takes.
#[derive(Clone, Copy, Debug, PartialEq, Eq, Structural)]
pub struct Spin {
    /// The reading at its start.
    pub start: u64,
    /// How many ticks it takes.
    pub target: u64,
}

impl<M: Mmio64> Hpet<M> {
    /// Read the capabilities and wrap the block.
    ///
    /// Returns `None` if the capability register does not decode; see
    /// [`Capabilities::from_bits`]. The counter is not started.
    pub fn new(mut regs: M) -> (hpet: Option<Self>)
        ensures
            exists|bits: u64, after: M|
                #[trigger] asked(regs.log(), after.log(), bits) && hpet == (match decoded(bits) {
                    Some(caps) => Some(Hpet { regs: after, caps }),
                    None => None::<Hpet<M>>,
                }),
    {
        let ghost before = regs.log();
        let bits = regs.read64(REG_CAPABILITIES);
        assert(asked(before, regs.log(), bits));
        match Capabilities::from_bits(bits) {
            Some(caps) => Some(Hpet { regs, caps }),
            None => None,
        }
    }

    /// What the capability register said.
    #[must_use]
    pub fn capabilities(&self) -> (caps: Capabilities)
        ensures
            caps == self.caps,
    {
        self.caps
    }

    /// Start the main counter, and make sure legacy routing is off: firmware often
    /// leaves it on, and a comparator firing on one of those lines would be an
    /// interrupt that nobody asked for.
    pub fn start(&mut self)
        ensures
            final(self).caps == old(self).caps,
            exists|config: u64|
                final(self).regs.log() == old(self).regs.log() + #[trigger] reconfigured(
                    config,
                    (config & !CONFIG_LEGACY_ROUTING) | CONFIG_ENABLE,
                ),
    {
        let config = self.regs.read64(REG_CONFIG);
        let value = (config & !CONFIG_LEGACY_ROUTING) | CONFIG_ENABLE;
        self.regs.write64(REG_CONFIG, value);
        assert(self.regs.log() =~= old(self).regs.log() + reconfigured(config, value));
    }

    /// Stop the main counter.
    pub fn stop(&mut self)
        ensures
            final(self).caps == old(self).caps,
            exists|config: u64|
                final(self).regs.log() == old(self).regs.log() + #[trigger] reconfigured(
                    config,
                    config & !CONFIG_ENABLE,
                ),
    {
        let config = self.regs.read64(REG_CONFIG);
        let value = config & !CONFIG_ENABLE;
        self.regs.write64(REG_CONFIG, value);
        assert(self.regs.log() =~= old(self).regs.log() + reconfigured(config, value));
    }

    /// Whether the counter is running.
    pub fn is_running(&mut self) -> (running: bool)
        ensures
            final(self).caps == old(self).caps,
            ({
                let config = final(self).regs.log().last()->Read_value;
                &&& final(self).regs.log() == old(self).regs.log().push(
                    RegOp64::Read { offset: REG_CONFIG, value: config },
                )
                &&& running == (config % 2 == 1)
            }),
    {
        let config = self.regs.read64(REG_CONFIG);
        config % 2 == 1
    }

    /// The main counter.
    pub fn now(&mut self) -> (now: u64)
        ensures
            final(self).caps == old(self).caps,
            final(self).regs.log() == old(self).regs.log().push(
                RegOp64::Read { offset: REG_COUNTER, value: now },
            ),
    {
        self.regs.read64(REG_COUNTER)
    }

    /// Ticks elapsed between two readings, tolerating a counter that went all the
    /// way round. Only the low half of a reading counts where the counter is 32
    /// bits wide.
    #[must_use]
    pub fn elapsed(&self, from: u64, to: u64) -> (ticks: u64)
        ensures
            ticks == distance(self.caps, from, to),
    {
        if self.caps.counter_64bit {
            if to >= from {
                to - from
            } else {
                u64::MAX - (from - to) + 1
            }
        } else {
            let a = from % 0x1_0000_0000;
            let b = to % 0x1_0000_0000;
            if b >= a {
                b - a
            } else {
                0x1_0000_0000 - (a - b)
            }
        }
    }

    /// Nanoseconds between two readings.
    #[must_use]
    pub fn elapsed_ns(&self, from: u64, to: u64) -> (ns: u64)
        ensures
            ns == low64(self.caps.ns_of(distance(self.caps, from, to) as u64)),
    {
        self.caps.ticks_to_ns(self.elapsed(from, to))
    }

    /// Begin to wait for `ns` nanoseconds: take a reading and work out how many
    /// ticks the wait takes.
    pub fn begin_spin(&mut self, ns: u64) -> (spin: Spin)
        requires
            old(self).caps.period_fs > 0,
        ensures
            final(self).caps == old(self).caps,
            spin.target == low64(old(self).caps.ticks_of(ns)),
            final(self).regs.log() == old(self).regs.log().push(
                RegOp64::Read { offset: REG_COUNTER, value: spin.start },
            ),
    {
        let target = self.caps.ns_to_ticks(ns);
        let start = self.now();
        Spin { start, target }
    }

    /// Take a reading and say whether a wait is over.
    pub fn spin_is_over(&mut self, spin: &Spin) -> (over: bool)
        ensures
            final(self).caps == old(self).caps,
            ({
                let now = final(self).regs.log().last()->Read_value;
                &&& final(self).regs.log() == old(self).regs.log().push(
                    RegOp64::Read { offset: REG_COUNTER, value: now },
                )
                &&& over == (distance(old(self).caps, spin.start, now) >= spin.target)
            }),
    {
        let now = self.now();
        self.elapsed(spin.start, now) >= spin.target
    }
}

/// The accesses that read the configuration and write it back changed.
pub open spec fn reconfigured(config: u64, value: u64) -> Seq<RegOp64> {
    seq![
        RegOp64::Read { offset: REG_CONFIG, value: config },
        RegOp64::Write { offset: REG_CONFIG, value },
    ]
}

proof fn lemma_config_bits(config: u64, i: u64)
    by (bit_vector)
    requires
        i < 64,
    ensures
        (((config & !2) | 1) >> i) % 2 == (if i == 0 {
            1
        } else if i == 1 {
            0
        } else {
            (config >> i) % 2
        }),
        ((config & !1) >> i) % 2 == (if i == 0 {
            0
        } else {
            (config >> i) % 2
        }),
{
}

/// Starting sets the enable bit, clears the routing bit and leaves every other bit
/// of the configuration alone; stopping clears the enable bit and leaves every
/// other bit alone.
pub proof fn law_starting_and_stopping_touch_two_bits(config: u64, i: u64)
    requires
        i < 64,
    ensures
        (((config & !CONFIG_LEGACY_ROUTING) | CONFIG_ENABLE) >> i) % 2 == (if i == 0 {
            1
        } else if i == 1 {
            0
        } else {
            (config >> i) % 2
        }),
        ((config & !CONFIG_ENABLE) >> i) % 2 == (if i == 0 {
            0
        } else {
            (config >> i) % 2
        }),
{
    lemma_config_bits(config, i);
}

/// A reading that is `ticks` further on, in a counter of either width, is found to
/// be `ticks` away, wherever the counter wrapped.
pub proof fn law_a_distance_survives_the_wrap(caps: Capabilities, from: u64, ticks: int)
    requires
        0 <= ticks < (if caps.counter_64bit {
            0x1_0000_0000_0000_0000int
        } else {
            0x1_0000_0000
        }),
    ensures
        caps.counter_64bit ==> distance(caps, from, low64(from + ticks) as u64) == ticks,
        !caps.counter_64bit ==> distance(
            caps,
            from,
            ((from + ticks) % 0x1_0000_0000) as u64,
        ) == ticks,
{
}

/// Converting nanoseconds to ticks loses less than one tick and never gains
/// anything; converting the ticks back to whole nanoseconds loses less than one
/// nanosecond more.
pub proof fn law_conversion_loses_less_than_a_tick(caps: Capabilities, ns: u64)
    requires
        caps.period_fs > 0,
        caps.ticks_of(ns) <= u64::MAX,
    ensures
        caps.ticks_of(ns) * caps.period_fs <= ns * FEMTOSECONDS_PER_NANOSECOND,
        ns * FEMTOSECONDS_PER_NANOSECOND < caps.ticks_of(ns) * caps.period_fs + caps.period_fs,
        caps.ns_of(caps.ticks_of(ns) as u64) <= ns,
        (ns - caps.ns_of(caps.ticks_of(ns) as u64)) * FEMTOSECONDS_PER_NANOSECOND
            <= caps.period_fs + 999_998,
{
    let p = caps.period_fs as int;
    let fs = ns * FEMTOSECONDS_PER_NANOSECOND;
    let t = caps.ticks_of(ns);
    assert(t * p <= fs < t * p + p) by (nonlinear_arith)
        requires
            t == fs / p,
            p > 0,
    ;
    assert(t >= 0) by (nonlinear_arith)
        requires
            t == fs / p,
            p > 0,
            fs >= 0,
    ;
    assert(caps.ns_of(t as u64) == (t * p) / 1_000_000);
}

/// The capabilities are decoded exactly when the period is one a timer can have,
/// and each then comes from bits of its own: the period from the highest 32, the
/// vendor from 16 to 31, the width from bit 13, the number of the last comparator
/// from 8 to 12 and the revision from the lowest eight.
pub proof fn law_each_capability_has_its_own_bits(bits: u64)
    ensures
        decoded(bits) is Some <==> 0 < bits >> 32 <= 100_000_000,
        decoded(bits) matches Some(caps) ==> {
            &&& caps.period_fs == bits >> 32
            &&& caps.vendor == (bits >> 16) & 0xFFFF
            &&& caps.counter_64bit == (bits & 0x2000 != 0)
            &&& caps.timers == ((bits >> 8) & 0x1F) + 1
            &&& caps.revision == bits & 0xFF
        },
{
    assert(bits / 0x1_0000_0000 == bits >> 32 && (bits / 0x1_0000) % 0x1_0000 == (bits >> 16)
        & 0xFFFF && ((bits / 0x2000) % 2 == 1 <==> bits & 0x2000 != 0) && (bits / 0x100) % 0x20
        == (bits >> 8) & 0x1F && bits % 0x100 == bits & 0xFF) by (bit_vector);
}

/// What ticks and nanoseconds come to is exact but for a remainder: less than a
/// nanosecond one way, less than a tick the other.
pub proof fn law_a_conversion_drops_only_a_remainder(caps: Capabilities, n: u64)
    requires
        caps.period_fs > 0,
    ensures
        caps.ns_of(n) * 1_000_000 <= n * caps.period_fs < (caps.ns_of(n) + 1) * 1_000_000,
        caps.ticks_of(n) * caps.period_fs <= n * 1_000_000 < (caps.ticks_of(n) + 1)
            * caps.period_fs,
        caps.ns_of(n) >= 0,
        caps.ticks_of(n) >= 0,
{
    let p = caps.period_fs as int;
    let fs = n * 1_000_000;
    let t = fs / p;
    assert(t * p <= fs < (t + 1) * p && t >= 0) by (nonlinear_arith)
        requires
            t == fs / p,
            p > 0,
            fs >= 0,
    ;
    assert(n * p >= 0) by (nonlinear_arith)
        requires
            n >= 0,
            p > 0,
    ;
}

/// A number below two to the 64 is its own low bits, and going once round changes
/// nothing.
pub proof fn law_the_low_bits_of_a_number_go_round(n: int)
    ensures
        0 <= n < 0x1_0000_0000_0000_0000 ==> low64(n) == n,
        low64(n + 0x1_0000_0000_0000_0000) == low64(n),
{
}

/// Of a 32-bit counter only the low half of a reading counts, and two readings that
/// agree there are no distance apart.
pub proof fn law_only_the_low_half_of_a_narrow_counter_counts(
    caps: Capabilities,
    from: u64,
    to: u64,
)
    requires
        !caps.counter_64bit,
    ensures
        distance(caps, from, to) == distance(
            caps,
            (from % 0x1_0000_0000) as u64,
            (to % 0x1_0000_0000) as u64,
        ),
        0 <= distance(caps, from, to) < 0x1_0000_0000,
        distance(caps, from, from) == 0,
{
}

/// A change of the configuration reads it and writes it back, and the capabilities
/// are found by reading their register alone.
pub proof fn law_a_change_reads_before_it_writes(
    config: u64,
    value: u64,
    before: Seq<RegOp64>,
    after: Seq<RegOp64>,
)
    ensures
        reconfigured(config, value).len() == 2,
        reconfigured(config, value)[0] == (RegOp64::Read { offset: 0x10, value: config }),
        reconfigured(config, value)[1] == (RegOp64::Write { offset: 0x10, value }),
        asked(before, after, config) <==> after.len() == before.len() + 1 && after.drop_last()
            == before && after.last() == (RegOp64::Read { offset: 0, value: config }),
{
    if asked(before, after, config) {
        assert(after.drop_last() =~= before);
    }
    if after.len() == before.len() + 1 && after.drop_last() == before && after.last() == (
    RegOp64::Read { offset: 0, value: config }) {
        assert(after =~= before.push(RegOp64::Read { offset: 0, value: config }));
    }
}

/// The frequency is as many whole ticks as fit a second.
pub proof fn law_the_frequency_is_the_ticks_of_a_second(caps: Capabilities, hz: u64)
    requires
        caps.period_fs > 0,
        call_ensures(Capabilities::frequency_hz, (caps,), hz),
    ensures
        hz * caps.period_fs <= 1_000_000_000_000_000 < (hz + 1) * caps.period_fs,
{
    let n: int = 1_000_000_000_000_000;
    let p = caps.period_fs as int;
    let q = n / p;
    assert(q * p <= n < (q + 1) * p) by (nonlinear_arith)
        requires
            q == n / p,
            p > 0,
            n >= 0,
    ;
}

/// The counter and whether it runs are read from one register each, and nothing is
/// written: the counter is the one at 0xF0, and it runs exactly when the lowest bit of
/// the one at 0x10 is set.
pub proof fn law_a_timer_is_read_without_writing<M: Mmio64>(
    a: &mut Hpet<M>,
    b: &mut Hpet<M>,
    now: u64,
    running: bool,
)
    requires
        call_ensures(Hpet::<M>::now, (a,), now),
        call_ensures(Hpet::<M>::is_running, (b,), running),
    ensures
        final(a).regs.log() == old(a).regs.log().push(RegOp64::Read { offset: 0xF0, value: now }),
        ({
            let config = final(b).regs.log().last()->Read_value;
            &&& final(b).regs.log() == old(b).regs.log().push(
                RegOp64::Read { offset: 0x10, value: config },
            )
            &&& running <==> config % 2 == 1
        }),
        final(a).caps == old(a).caps,
        final(b).caps == old(b).caps,
{
}

/// A wait is over exactly when the counter has gone as many ticks as the wait takes,
/// which is as many as fit the time, from where it stood at the start.
pub proof fn law_a_wait_takes_its_time<M: Mmio64>(
    a: &mut Hpet<M>,
    b: &mut Hpet<M>,
    ns: u64,
    spin: Spin,
    over: bool,
    now: u64,
)
    requires
        old(a).caps.period_fs > 0,
        old(a).caps == old(b).caps,
        old(a).caps.counter_64bit,
        old(a).caps.ticks_of(ns) <= u64::MAX,
        call_ensures(Hpet::<M>::begin_spin, (a, ns), spin),
        call_ensures(Hpet::<M>::spin_is_over, (b, &spin), over),
        final(b).regs.log() == old(b).regs.log().push(
            RegOp64::Read { offset: 0xF0, value: now },
        ),
        now >= spin.start,
    ensures
        final(a).regs.log() == old(a).regs.log().push(
            RegOp64::Read { offset: 0xF0, value: spin.start },
        ),
        over <==> (now - spin.start + 1) * old(a).caps.period_fs > ns * 1_000_000,
{
    let caps = old(a).caps;
    law_a_conversion_drops_only_a_remainder(caps, ns);
    assert(final(b).regs.log().last() == RegOp64::Read { offset: 0xF0, value: now });
    let t = caps.ticks_of(ns);
    let p = caps.period_fs as int;
    let gone = now - spin.start;
    let fs = ns * 1_000_000;
    assert(spin.target == t);
    assert(distance(caps, spin.start, now) == gone);
    assert(over <==> gone >= t);
    if gone >= t {
        assert((gone + 1) * p >= (t + 1) * p) by (nonlinear_arith)
            requires
                gone >= t,
                p > 0,
        ;
    } else {
        assert((gone + 1) * p <= t * p) by (nonlinear_arith)
            requires
                gone + 1 <= t,
                p > 0,
        ;
    }
}

/// Starting a timer sets the lowest bit of its configuration and clears the next;
/// stopping it clears the lowest. Every other bit is written back as it was read.
pub proof fn law_a_timer_keeps_its_other_settings<M: Mmio64>(
    a: &mut Hpet<M>,
    b: &mut Hpet<M>,
    i: u64,
)
    requires
        i < 64,
        call_ensures(Hpet::<M>::start, (a,), ()),
        call_ensures(Hpet::<M>::stop, (b,), ()),
    ensures
        final(a).caps == old(a).caps && final(b).caps == old(b).caps,
        exists|config: u64, value: u64|
            {
                &&& final(a).regs.log() == old(a).regs.log() + #[trigger] reconfigured(
                    config,
                    value,
                )
                &&& (value >> i) % 2 == (if i == 0 {
                    1
                } else if i == 1 {
                    0
                } else {
                    (config >> i) % 2
                })
            },
        exists|config: u64, value: u64|
            {
                &&& final(b).regs.log() == old(b).regs.log() + #[trigger] reconfigured(
                    config,
                    value,
                )
                &&& (value >> i) % 2 == (if i == 0 {
                    0
                } else {
                    (config >> i) % 2
                })
            },
{
    let x = choose|config: u64|
        final(a).regs.log() == old(a).regs.log() + #[trigger] reconfigured(
            config,
            (config & !CONFIG_LEGACY_ROUTING) | CONFIG_ENABLE,
        );
    let y = choose|config: u64|
        final(b).regs.log() == old(b).regs.log() + #[trigger] reconfigured(
            config,
            config & !CONFIG_ENABLE,
        );
    law_starting_and_stopping_touch_two_bits(x, i);
    law_starting_and_stopping_touch_two_bits(y, i);
    let vx = (x & !CONFIG_LEGACY_ROUTING) | CONFIG_ENABLE;
    let vy = y & !CONFIG_ENABLE;
    assert(final(a).regs.log() == old(a).regs.log() + reconfigured(x, vx));
    assert(final(b).regs.log() == old(b).regs.log() + reconfigured(y, vy));
}

} // verus!
