//! The 8254 programmable interval timer, in the smallest form that is useful: a
//! device that can be made to raise a hardware interrupt with no discovery at all.
//!
//! Channel 0 is the only channel here; its output is wired to the first interrupt
//! line.
use crate::arch::port::{PortIo, PortOp};
use vstd::prelude::*;

verus! {

/// Data port of channel 0.
pub const CHANNEL0_DATA: u16 = 0x40;

/// The command register.
pub const COMMAND: u16 = 0x43;

/// The crystal, in hertz.
pub const BASE_HZ: u32 = 1_193_182;

/// Command: channel 0, low byte then high byte, rate generator, binary counting.
/// A rate generator reloads and fires again forever.
pub const CMD_CHANNEL0_RATE_LOHI: u8 = 0b0011_0100;

/// Command: channel 0, low byte then high byte, fire once.
pub const CMD_CHANNEL0_ONCE_LOHI: u8 = 0b0011_0000;

/// Largest divisor the chip can hold. Written as zero, because the counter is 16
/// bits wide.
pub const MAX_DIVISOR: u32 = 65536;

/// The divisor for a rate: the crystal over the rate, as far as the counter
/// goes. No rate at all is the slowest one.
pub open spec fn divisor_of(hz: u32) -> u32 {
    if hz == 0 || BASE_HZ / hz > MAX_DIVISOR {
        MAX_DIVISOR
    } else if hz > BASE_HZ {
        1
    } else {
        BASE_HZ / hz
    }
}

/// The rate that a divisor produces.
pub open spec fn rate_of(divisor: u32) -> u32 {
    if divisor == 0 {
        BASE_HZ / MAX_DIVISOR
    } else {
        BASE_HZ / divisor
    }
}

/// The divisor for `hz`: the crystal over the rate, rounded down, clamped to what
/// the counter can hold.
#[must_use]
pub fn divisor_for(hz: u32) -> (divisor: u32)
    ensures
        divisor == divisor_of(hz),
{
    if hz == 0 {
        return MAX_DIVISOR;
    }
    let divisor = BASE_HZ / hz;
    proof {
        lemma_quotient(BASE_HZ as int, hz as int);
    }
    if divisor == 0 {
        1
    } else if divisor > MAX_DIVISOR {
        MAX_DIVISOR
    } else {
        divisor
    }
}

/// The rate a divisor actually produces, which is rarely the one asked for.
#[must_use]
pub fn hz_for(divisor: u32) -> (hz: u32)
    ensures
        hz == rate_of(divisor),
{
    if divisor == 0 {
        return BASE_HZ / MAX_DIVISOR;
    }
    BASE_HZ / divisor
}

proof fn lemma_quotient(n: int, d: int)
    by (nonlinear_arith)
    requires
        n >= 0,
        d > 0,
    ensures
        n / d == 0 <==> d > n,
        n / d >= 0,
        n / d > 0 ==> n / (n / d) >= d,
{
    let q = n / d;
    assert(q * d <= n < (q + 1) * d);
    if q > 0 {
        assert(n / q >= d) by {
            assert(d * q <= n);
        }
    }
}

/// The channel, programmed through the ports.
pub struct Pit<P: PortIo> {
    /// Access to the ports.
    pub io: P,
}

/// The accesses that start the channel with a divisor.
pub open spec fn start_sequence(divisor: u32) -> Seq<PortOp> {
    seq![
        PortOp::Write { port: COMMAND, value: CMD_CHANNEL0_RATE_LOHI },
        PortOp::Write { port: CHANNEL0_DATA, value: ((divisor % MAX_DIVISOR) % 0x100) as u8 },
        PortOp::Write { port: CHANNEL0_DATA, value: ((divisor % MAX_DIVISOR) / 0x100) as u8 },
    ]
}

/// The accesses that stop the channel: it counts once and does not reload.
pub open spec fn stop_sequence() -> Seq<PortOp> {
    seq![
        PortOp::Write { port: COMMAND, value: CMD_CHANNEL0_ONCE_LOHI },
        PortOp::Write { port: CHANNEL0_DATA, value: 0 },
        PortOp::Write { port: CHANNEL0_DATA, value: 0 },
    ]
}

impl<P: PortIo> Pit<P> {
    /// Wrap the port accessor. Nothing is programmed until [`Pit::start`].
    pub fn new(io: P) -> (pit: Self)
        ensures
            pit.io == io,
    {
        Pit { io }
    }

    /// Start the channel at approximately `hz`, and return the rate it will
    /// actually run at. Interrupts begin arriving as soon as both halves of the
    /// divisor have been written.
    pub fn start(&mut self, hz: u32) -> (rate: u32)
        ensures
            rate == rate_of(divisor_of(hz)),
            final(self).io.log() == old(self).io.log() + start_sequence(divisor_of(hz)),
    {
        let divisor = divisor_for(hz);
        self.io.write(COMMAND, CMD_CHANNEL0_RATE_LOHI);
        let value = divisor % MAX_DIVISOR;
        self.io.write(CHANNEL0_DATA, (value % 0x100) as u8);
        self.io.write(CHANNEL0_DATA, (value / 0x100) as u8);
        assert(self.io.log() =~= old(self).io.log() + start_sequence(divisor));
        hz_for(divisor)
    }

    /// Stop the channel firing.
    pub fn stop(&mut self)
        ensures
            final(self).io.log() == old(self).io.log() + stop_sequence(),
    {
        self.io.write(COMMAND, CMD_CHANNEL0_ONCE_LOHI);
        self.io.write(CHANNEL0_DATA, 0);
        self.io.write(CHANNEL0_DATA, 0);
        assert(self.io.log() =~= old(self).io.log() + stop_sequence());
    }
}

/// The divisor is always one the counter can hold, and the channel never runs
/// slower than was asked, except where the crystal itself is too slow and runs as
/// fast as it can.
pub proof fn law_the_rate_is_at_least_what_was_asked(hz: u32)
    ensures
        1 <= divisor_of(hz) <= MAX_DIVISOR,
        hz <= BASE_HZ ==> rate_of(divisor_of(hz)) >= hz,
        hz > BASE_HZ ==> rate_of(divisor_of(hz)) == BASE_HZ,
{
    if hz > 0 {
        lemma_quotient(BASE_HZ as int, hz as int);
        if BASE_HZ / hz > MAX_DIVISOR {
            assert(hz <= 18) by (nonlinear_arith)
                requires
                    BASE_HZ as int / hz as int > 65536,
                    hz > 0,
                    BASE_HZ == 1_193_182,
            ;
        }
    }
}

/// The divisor is the largest that is not too slow: the channel with it runs at
/// least as fast as was asked, and with the next one it would run slower, unless
/// the counter holds no larger one. A rate above the crystal's has none and gets
/// the fastest.
pub proof fn law_the_divisor_is_the_largest_that_is_fast_enough(hz: u32)
    ensures
        hz <= 18 ==> divisor_of(hz) == 65536,
        18 < hz <= 1_193_182 ==> divisor_of(hz) * hz <= 1_193_182 < (divisor_of(hz) + 1) * hz,
        hz > 1_193_182 ==> divisor_of(hz) == 1,
{
    if hz > 0 {
        let q = BASE_HZ as int / hz as int;
        let n: int = 1_193_182;
        assert(q * hz <= n < (q + 1) * hz) by (nonlinear_arith)
            requires
                q == n / hz as int,
                hz > 0,
                n >= 0,
        ;
        if hz <= 18 {
            assert(q > 65536) by (nonlinear_arith)
                requires
                    n < (q + 1) * hz,
                    0 < hz <= 18,
                    n == 1_193_182,
            ;
        } else if hz <= n {
            assert(q <= 65536) by (nonlinear_arith)
                requires
                    q * hz <= n,
                    hz >= 19,
                    n == 1_193_182,
            ;
        } else {
            assert(q == 0) by (nonlinear_arith)
                requires
                    q * hz <= n,
                    hz > n,
                    q == n / hz as int,
                    n == 1_193_182,
            ;
        }
    }
}

/// The reported rate is what the crystal gives with the divisor, in whole hertz. A
/// divisor of zero stands for the largest.
pub proof fn law_the_rate_is_the_crystal_over_the_divisor(divisor: u32)
    ensures
        divisor > 0 ==> rate_of(divisor) * divisor <= 1_193_182 < (rate_of(divisor) + 1) * divisor,
        rate_of(0) == rate_of(65536),
{
    if divisor > 0 {
        let n: int = 1_193_182;
        let q = n / divisor as int;
        assert(q * divisor <= n < (q + 1) * divisor) by (nonlinear_arith)
            requires
                q == n / divisor as int,
                divisor > 0,
                n >= 0,
        ;
    }
}

/// The channel is told its mode and then the divisor, low byte first. The two bytes
/// hold any divisor the counter can, the largest as zero.
pub proof fn law_the_channel_is_given_its_divisor(divisor: u32)
    requires
        1 <= divisor <= 65536,
    ensures
        start_sequence(divisor).len() == 3,
        start_sequence(divisor)[0] == (PortOp::Write { port: 0x43, value: 0x34 }),
        start_sequence(divisor)[1] is Write && start_sequence(divisor)[1]->Write_port == 0x40,
        start_sequence(divisor)[2] is Write && start_sequence(divisor)[2]->Write_port == 0x40,
        ({
            let given = start_sequence(divisor)[1]->Write_value + 0x100 * start_sequence(
                divisor,
            )[2]->Write_value;
            given == divisor || divisor == 65536 && given == 0
        }),
{
}

/// Stopping changes the mode and loads nothing that depends on how the channel was
/// started.
pub proof fn law_a_stopped_channel_does_not_reload()
    ensures
        stop_sequence().len() == 3,
        stop_sequence()[0] == (PortOp::Write { port: 0x43, value: 0x30 }),
        stop_sequence()[1] == (PortOp::Write { port: 0x40, value: 0 }),
        stop_sequence()[2] == (PortOp::Write { port: 0x40, value: 0 }),
{
}

/// A started channel runs at least as fast as was asked, where the crystal does, and
/// the rate that is reported is the one that the divisor it was given produces.
pub proof fn law_a_channel_runs_as_fast_as_was_asked<P: PortIo>(
    pit: &mut Pit<P>,
    hz: u32,
    rate: u32,
)
    requires
        call_ensures(Pit::<P>::start, (pit, hz), rate),
    ensures
        hz <= 1_193_182 ==> rate >= hz,
        hz > 1_193_182 ==> rate == 1_193_182,
        final(pit).io.log().len() == old(pit).io.log().len() + 3,
        ({
            let log = final(pit).io.log();
            let low = log[log.len() - 2]->Write_value;
            let high = log[log.len() - 1]->Write_value;
            let given = low + 0x100 * high;
            let divisor = if given == 0 {
                65536
            } else {
                given
            };
            rate * divisor <= 1_193_182 < (rate + 1) * divisor
        }),
{
    let divisor = divisor_of(hz);
    law_the_rate_is_at_least_what_was_asked(hz);
    law_the_channel_is_given_its_divisor(divisor);
    law_the_rate_is_the_crystal_over_the_divisor(divisor);
    let log = final(pit).io.log();
    assert(log[log.len() - 2] == start_sequence(divisor)[1]);
    assert(log[log.len() - 1] == start_sequence(divisor)[2]);
}

} // verus!
