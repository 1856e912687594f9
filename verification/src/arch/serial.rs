//! A 16550-compatible UART on the legacy ports.
//!
//! A modern PC may not have one at all, so what matters most is finding out: a
//! console that believes in a port that is not there discards every diagnostic.
use crate::arch::port::{PortIo, PortOp};
use vstd::prelude::*;

verus! {

/// Base port of the first UART, fixed by the PC platform.
pub const COM1: u16 = 0x3F8;

/// Offset of the data register.
pub const DATA: u16 = 0;

/// Offset of the interrupt-enable register.
pub const INT_ENABLE: u16 = 1;

/// Offset of the low half of the baud divisor, while it is selected.
pub const DIVISOR_LO: u16 = 0;

/// Offset of the high half of the baud divisor, while it is selected.
pub const DIVISOR_HI: u16 = 1;

/// Offset of the FIFO control register.
pub const FIFO_CTRL: u16 = 2;

/// Offset of the line control register.
pub const LINE_CTRL: u16 = 3;

/// Offset of the modem control register.
pub const MODEM_CTRL: u16 = 4;

/// Offset of the line status register.
pub const LINE_STATUS: u16 = 5;

/// Line control: the next accesses to the first two registers are the baud
/// divisor.
pub const LCR_DLAB: u8 = 0x80;

/// Line control: eight data bits, no parity, one stop bit.
pub const LCR_8N1: u8 = 0x03;

/// Line status: the transmit holding register is empty.
pub const LSR_THR_EMPTY: u8 = 0x20;

/// Modem control: the working configuration.
pub const MCR_DTR_RTS_OUT2: u8 = 0x0B;

/// Modem control: loopback, used only to probe.
pub const MCR_LOOPBACK: u8 = 0x1E;

/// The byte that is sent round the loopback.
pub const PROBE: u8 = 0xAE;

/// How many times the line status is looked at again before a byte is sent
/// regardless.
pub const MAX_SPINS: u32 = 100_000;

/// A UART at a fixed I/O port.
#[derive(Clone, Copy, Debug, PartialEq, Eq, Structural)]
pub struct Uart16550 {
    /// The first of its ports.
    pub base: u16,
}

/// The accesses that configure a UART and send a byte round its loopback, which
/// comes back as `echoed`.
pub open spec fn init_sequence(base: u16, echoed: u8) -> Seq<PortOp> {
    seq![
        PortOp::Write { port: (base + INT_ENABLE) as u16, value: 0x00 },
        PortOp::Write { port: (base + LINE_CTRL) as u16, value: LCR_DLAB },
        PortOp::Write { port: (base + DIVISOR_LO) as u16, value: 0x01 },
        PortOp::Write { port: (base + DIVISOR_HI) as u16, value: 0x00 },
        PortOp::Write { port: (base + LINE_CTRL) as u16, value: LCR_8N1 },
        PortOp::Write { port: (base + FIFO_CTRL) as u16, value: 0xC7 },
        PortOp::Write { port: (base + MODEM_CTRL) as u16, value: MCR_LOOPBACK },
        PortOp::Write { port: (base + DATA) as u16, value: PROBE },
        PortOp::Read { port: (base + DATA) as u16, value: echoed },
        PortOp::Write { port: (base + MODEM_CTRL) as u16, value: MCR_DTR_RTS_OUT2 },
    ]
}

/// Whether a line status says that another byte can be sent.
pub open spec fn is_ready(status: u8) -> bool {
    (status / LSR_THR_EMPTY) % 2 == 1
}

/// The accesses that look at the line status and find `seen`.
pub open spec fn polls(base: u16, seen: Seq<u8>) -> Seq<PortOp> {
    seen.map_values(|status: u8| PortOp::Read { port: (base + LINE_STATUS) as u16, value: status })
}

/// Whether polling goes on through `seen` and ends there: every look but the last
/// says no, and the last says yes or is one too many.
pub open spec fn polled(seen: Seq<u8>) -> bool {
    &&& 1 <= seen.len() <= MAX_SPINS + 1
    &&& forall|i: int| 0 <= i < seen.len() - 1 ==> !is_ready(#[trigger] seen[i])
    &&& is_ready(seen.last()) || seen.len() == MAX_SPINS + 1
}

impl Uart16550 {
    /// The first UART at its architectural port.
    #[must_use]
    pub fn com1() -> (uart: Uart16550)
        ensures
            uart.base == COM1,
    {
        Uart16550 { base: COM1 }
    }

    /// A UART at an arbitrary base port.
    #[must_use]
    pub fn at(base: u16) -> (uart: Uart16550)
        ensures
            uart.base == base,
    {
        Uart16550 { base }
    }

    /// Configure the UART and report whether one is really there.
    ///
    /// The probe is the point: a PC without a serial port does not fault when
    /// these ports are written. In loopback, hardware that is present echoes a
    /// byte. The chip is left in its working configuration whatever the answer.
    pub fn init<P: PortIo>(&self, io: &mut P) -> (present: bool)
        requires
            self.base <= 0xFFFF - MODEM_CTRL,
        ensures
            exists|echoed: u8|
                final(io).log() == old(io).log() + #[trigger] init_sequence(self.base, echoed)
                    && present == (echoed == PROBE),
    {
        io.write(self.base + INT_ENABLE, 0x00);
        io.write(self.base + LINE_CTRL, LCR_DLAB);
        io.write(self.base + DIVISOR_LO, 0x01);
        io.write(self.base + DIVISOR_HI, 0x00);
        io.write(self.base + LINE_CTRL, LCR_8N1);
        io.write(self.base + FIFO_CTRL, 0xC7);
        io.write(self.base + MODEM_CTRL, MCR_LOOPBACK);
        io.write(self.base + DATA, PROBE);
        let echoed = io.read(self.base + DATA);
        io.write(self.base + MODEM_CTRL, MCR_DTR_RTS_OUT2);
        assert(io.log() =~= old(io).log() + init_sequence(self.base, echoed));
        echoed == PROBE
    }

    /// Whether the transmit holding register can take another byte.
    pub fn can_send<P: PortIo>(&self, io: &mut P) -> (ready: bool)
        requires
            self.base <= 0xFFFF - LINE_STATUS,
        ensures
            exists|status: u8|
                final(io).log() == old(io).log() + #[trigger] polls(self.base, seq![status])
                    && ready == is_ready(status),
    {
        let status = io.read(self.base + LINE_STATUS);
        assert(io.log() =~= old(io).log() + polls(self.base, seq![status]));
        (status / LSR_THR_EMPTY) % 2 == 1
    }

    /// Send a byte.
    ///
    /// Waiting is bounded: on hardware that answered the probe but then stopped
    /// draining, losing a byte is recoverable and losing the machine is not.
    pub fn write_byte<P: PortIo>(&self, io: &mut P, byte: u8)
        requires
            self.base <= 0xFFFF - LINE_STATUS,
        ensures
            exists|seen: Seq<u8>|
                polled(seen) && final(io).log() == old(io).log() + #[trigger] polls(
                    self.base,
                    seen,
                ) + seq![PortOp::Write { port: (self.base + DATA) as u16, value: byte }],
    {
        let mut spins: u32 = 0;
        let ghost mut seen: Seq<u8> = Seq::empty();
        assert(old(io).log() + polls(self.base, seen) =~= old(io).log());
        loop
            invariant_except_break
                spins <= MAX_SPINS,
                seen.len() == spins,
                forall|i: int| 0 <= i < seen.len() ==> !is_ready(#[trigger] seen[i]),
            invariant
                self.base <= 0xFFFF - LINE_STATUS,
                io.log() == old(io).log() + polls(self.base, seen),
            ensures
                polled(seen),
            decreases MAX_SPINS - spins,
        {
            let status = io.read(self.base + LINE_STATUS);
            proof {
                assert(polls(self.base, seen.push(status)) =~= polls(self.base, seen).push(
                    PortOp::Read { port: (self.base + LINE_STATUS) as u16, value: status },
                ));
                seen = seen.push(status);
                assert(io.log() =~= old(io).log() + polls(self.base, seen));
            }
            if (status / LSR_THR_EMPTY) % 2 == 1 || spins == MAX_SPINS {
                break;
            }
            spins = spins + 1;
        }
        io.write(self.base + DATA, byte);
        assert(io.log() =~= old(io).log() + polls(self.base, seen) + seq![
            PortOp::Write { port: (self.base + DATA) as u16, value: byte },
        ]);
    }
}

/// A UART is configured the same way wherever its ports are: each access goes as
/// far past the base as it does for any other UART, and carries the same value. Only
/// what comes back round the loopback may differ.
pub proof fn law_a_uart_is_configured_alike_at_any_port(base: u16, other: u16, echoed: u8, i: int)
    requires
        base <= 0xFFFF - 5,
        other <= 0xFFFF - 5,
        0 <= i < 10,
    ensures
        init_sequence(base, echoed).len() == 10,
        i == 8 ==> init_sequence(base, echoed)[i] == (PortOp::Read { port: base, value: echoed }),
        i != 8 ==> {
            let here = init_sequence(base, echoed)[i];
            let there = init_sequence(other, echoed)[i];
            &&& here is Write && there is Write
            &&& here->Write_port - base == there->Write_port - other
            &&& here->Write_value == there->Write_value
        },
        init_sequence(base, echoed)[7] == (PortOp::Write { port: base, value: 0xAE }),
        init_sequence(base, echoed)[6] == (PortOp::Write {
            port: (base + 4) as u16,
            value: 0x1E,
        }),
        init_sequence(base, echoed)[9] == (PortOp::Write {
            port: (base + 4) as u16,
            value: 0x0B,
        }),
{
}

/// The line speed is set while the divisor is selected, and only then: 115200 baud,
/// eight data bits, no parity, one stop bit, with interrupts off and FIFOs on.
pub proof fn law_the_divisor_is_selected_while_it_is_set(base: u16, echoed: u8)
    requires
        base <= 0xFFFF - 5,
    ensures
        init_sequence(base, echoed).take(6) =~= seq![
            PortOp::Write { port: (base + 1) as u16, value: 0 },
            PortOp::Write { port: (base + 3) as u16, value: 0x80 },
            PortOp::Write { port: base, value: 1 },
            PortOp::Write { port: (base + 1) as u16, value: 0 },
            PortOp::Write { port: (base + 3) as u16, value: 3 },
            PortOp::Write { port: (base + 2) as u16, value: 0xC7 },
        ],
{
}

/// A UART is ready exactly when bit 5 of its line status is set.
pub proof fn law_one_bit_says_that_a_byte_can_be_sent(status: u8)
    ensures
        is_ready(status) <==> status & 0x20 != 0,
{
    assert((status / 0x20) % 2 == 1 <==> status & 0x20 != 0) by (bit_vector);
}

/// Polling looks at the line status and nothing else, once for each status seen.
pub proof fn law_polling_only_looks(base: u16, seen: Seq<u8>)
    requires
        base <= 0xFFFF - 5,
    ensures
        polls(base, seen).len() == seen.len(),
        forall|i: int|
            0 <= i < seen.len() ==> #[trigger] polls(base, seen)[i] == (PortOp::Read {
                port: (base + 5) as u16,
                value: seen[i],
            }),
{
}

/// Polling goes on while the UART is not ready and stops at once when it is: after
/// any number of refusals up to the bound, a ready status ends it, and one that is
/// not ready does so only beyond the bound.
pub proof fn law_polling_stops_when_the_uart_is_ready(refused: Seq<u8>, status: u8)
    requires
        forall|i: int| 0 <= i < refused.len() ==> (#[trigger] refused[i]) & 0x20 == 0,
    ensures
        status & 0x20 != 0 ==> (polled(refused.push(status)) <==> refused.len() <= 100_000),
        status & 0x20 == 0 ==> (polled(refused.push(status)) <==> refused.len() == 100_000),
        forall|more: Seq<u8>|
            status & 0x20 != 0 && more.len() > 0 ==> !polled(#[trigger] (refused.push(status) + more)),
        !polled(Seq::empty()),
{
    law_one_bit_says_that_a_byte_can_be_sent(status);
    let seen = refused.push(status);
    assert forall|i: int| 0 <= i < refused.len() implies !is_ready(#[trigger] seen[i]) by {
        law_one_bit_says_that_a_byte_can_be_sent(refused[i]);
    }
    assert forall|more: Seq<u8>| status & 0x20 != 0 && more.len() > 0 implies !polled(
        #[trigger] (seen + more),
    ) by {
        assert((seen + more)[refused.len() as int] == status);
    }
}

/// A UART is there exactly when the byte that was sent round its loopback came back.
pub proof fn law_a_uart_is_there_if_it_echoes<P: PortIo>(
    uart: Uart16550,
    io: &mut P,
    present: bool,
)
    requires
        uart.base <= 0xFFFF - 5,
        call_ensures(Uart16550::init::<P>, (&uart, io), present),
    ensures
        ({
            let log = final(io).log();
            let n = old(io).log().len();
            &&& log.len() == n + 10
            &&& log[n + 7 as int] == (PortOp::Write { port: uart.base, value: 0xAE })
            &&& log[n + 8 as int] is Read && log[n + 8 as int]->Read_port == uart.base
            &&& present <==> log[n + 8 as int]->Read_value == 0xAE
        }),
{
    let echoed = choose|echoed: u8|
        final(io).log() == old(io).log() + #[trigger] init_sequence(uart.base, echoed) && present
            == (echoed == PROBE);
    let n = old(io).log().len() as int;
    assert(final(io).log()[n + 7] == init_sequence(uart.base, echoed)[7]);
    assert(final(io).log()[n + 8] == init_sequence(uart.base, echoed)[8]);
}

/// A byte is sent last, to the data port, and whatever is done before it is to look at
/// the line status.
pub proof fn law_a_byte_is_sent_last<P: PortIo>(uart: Uart16550, io: &mut P, byte: u8, i: int)
    requires
        uart.base <= 0xFFFF - 5,
        call_ensures(Uart16550::write_byte::<P>, (&uart, io, byte), ()),
    ensures
        ({
            let log = final(io).log();
            let n = old(io).log().len();
            &&& n + 2 <= log.len() <= n + 100_002
            &&& log.last() == (PortOp::Write { port: uart.base, value: byte })
            &&& 0 <= i < n ==> log[i] == old(io).log()[i]
            &&& n <= i < log.len() - 1 ==> log[i] is Read && log[i]->Read_port == uart.base + 5
            &&& n <= i < log.len() - 2 ==> log[i]->Read_value & 0x20 == 0
            &&& log[log.len() - 2]->Read_value & 0x20 != 0 || log.len() == n + 100_002
        }),
{
    let seen = choose|seen: Seq<u8>|
        polled(seen) && final(io).log() == old(io).log() + #[trigger] polls(uart.base, seen) + seq![
            PortOp::Write { port: (uart.base + DATA) as u16, value: byte },
        ];
    let n = old(io).log().len() as int;
    let log = final(io).log();
    law_polling_only_looks(uart.base, seen);
    if n <= i < log.len() - 1 {
        assert(log[i] == polls(uart.base, seen)[i - n]);
        law_one_bit_says_that_a_byte_can_be_sent(seen[i - n]);
    }
    assert(log[log.len() - 2] == polls(uart.base, seen)[seen.len() - 1]);
    law_one_bit_says_that_a_byte_can_be_sent(seen.last());
}

} // verus!
