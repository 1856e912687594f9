//! The PCI Express configuration table: where configuration space is mapped.
use crate::acpi::SdtHeader;
use crate::bytes;
use vstd::prelude::*;

verus! {

/// `"MCFG"`, the signature of this table.
pub const MCFG_SIGNATURE: [u8; 4] = [0x4D, 0x43, 0x46, 0x47];

/// Offset of the first window: the table header and eight reserved bytes come
/// before it.
pub const MCFG_ENTRIES: usize = 44;

/// Bytes per window in the table.
pub const MCFG_ENTRY_LEN: usize = 16;

/// One window of memory-mapped configuration space.
#[derive(Clone, Copy, Debug, PartialEq, Eq, Structural)]
pub struct EcamWindow {
    /// Physical base of the region.
    pub base: u64,
    /// PCI segment group.
    pub segment: u16,
    /// First bus number this window covers.
    pub bus_start: u8,
    /// Last bus number this window covers.
    pub bus_end: u8,
}

impl EcamWindow {
    /// Whether `bus`, `dev` and `func` name a function inside this window.
    pub open spec fn covers(&self, bus: u8, dev: u8, func: u8) -> bool {
        self.bus_start <= bus <= self.bus_end && dev < 32 && func < 8
    }

    /// Where that function's 4 KiB of configuration space begin, past the base.
    pub open spec fn offset(&self, bus: u8, dev: u8, func: u8) -> int {
        (bus - self.bus_start) * 0x10_0000 + dev * 0x8000 + func * 0x1000
    }

    /// Physical address of a function's configuration space, or `None` if it is
    /// outside this window, or if the window reaches past the last address.
    #[must_use]
    pub fn config_address(&self, bus: u8, dev: u8, func: u8) -> (address: Option<u64>)
        ensures
            address == (if self.covers(bus, dev, func) && self.base + self.offset(bus, dev, func)
                <= u64::MAX {
                Some((self.base + self.offset(bus, dev, func)) as u64)
            } else {
                None::<u64>
            }),
    {
        if bus < self.bus_start || bus > self.bus_end || dev >= 32 || func >= 8 {
            return None;
        }
        let offset: u64 = (bus - self.bus_start) as u64 * 0x10_0000 + dev as u64 * 0x8000
            + func as u64 * 0x1000;
        self.base.checked_add(offset)
    }
}

/// The window in the `i`-th entry.
pub open spec fn window_at(body: Seq<u8>, i: int) -> EcamWindow {
    EcamWindow {
        base: bytes::le64(body, i * MCFG_ENTRY_LEN),
        segment: bytes::le16(body, i * MCFG_ENTRY_LEN + 8),
        bus_start: body[i * MCFG_ENTRY_LEN + 10],
        bus_end: body[i * MCFG_ENTRY_LEN + 11],
    }
}

/// Every window, in order. Trailing bytes too short for one are ignored.
pub open spec fn windows_in(body: Seq<u8>) -> Seq<EcamWindow> {
    Seq::new(body.len() / MCFG_ENTRY_LEN as nat, |i: int| window_at(body, i))
}

/// The table itself.
#[derive(Clone, Copy, Debug)]
pub struct Mcfg<'a> {
    /// The bytes of the windows.
    pub body: &'a [u8],
}

impl<'a> Mcfg<'a> {
    /// Parse the table from its bytes.
    #[must_use]
    pub fn parse(buf: &'a [u8]) -> (mcfg: Option<Self>)
        ensures
            mcfg is Some <==> super::is_table_of(buf@, MCFG_SIGNATURE@) && bytes::le32(buf@, 4)
                >= MCFG_ENTRIES,
            mcfg matches Some(m) ==> m.body@ == buf@.subrange(
                MCFG_ENTRIES as int,
                bytes::le32(buf@, 4) as int,
            ),
    {
        let header: SdtHeader = match SdtHeader::parse(buf) {
            Some(h) => h,
            None => return None,
        };
        if !header.is(&MCFG_SIGNATURE) {
            return None;
        }
        let length: usize = header.length as usize;
        if length < MCFG_ENTRIES {
            return None;
        }
        Some(Self { body: &buf[MCFG_ENTRIES..length] })
    }

    /// The configuration windows this machine exposes.
    pub fn windows(&self) -> (windows: Vec<EcamWindow>)
        ensures
            windows@ == windows_in(self.body@),
    {
        let n: usize = self.body.len() / MCFG_ENTRY_LEN;
        let mut windows: Vec<EcamWindow> = Vec::new();
        let mut i: usize = 0;
        while i < n
            invariant
                i <= n,
                n * MCFG_ENTRY_LEN <= self.body.len(),
                windows@ =~= Seq::new(i as nat, |j: int| window_at(self.body@, j)),
            decreases n - i,
        {
            let at: usize = i * MCFG_ENTRY_LEN;
            if let (Some(base), Some(segment)) = (
                bytes::u64_at(self.body, at),
                bytes::u16_at(self.body, at + 8),
            ) {
                windows.push(
                    EcamWindow {
                        base,
                        segment,
                        bus_start: self.body[at + 10],
                        bus_end: self.body[at + 11],
                    },
                );
            }
            i += 1;
        }
        windows
    }
}

/// Different functions of one window have configuration spaces at least 4 KiB
/// apart, and every one of them lies inside the window's buses.
pub proof fn law_config_spaces_are_disjoint(
    w: EcamWindow,
    bus: u8,
    dev: u8,
    func: u8,
    other_bus: u8,
    other_dev: u8,
    other_func: u8,
)
    requires
        w.covers(bus, dev, func),
        w.covers(other_bus, other_dev, other_func),
    ensures
        0 <= w.offset(bus, dev, func),
        w.offset(bus, dev, func) + 0x1000 <= (w.bus_end - w.bus_start + 1) * 0x10_0000,
        w.offset(bus, dev, func) % 0x1000 == 0,
        (bus, dev, func) != (other_bus, other_dev, other_func) ==> {
            ||| w.offset(bus, dev, func) + 0x1000 <= w.offset(other_bus, other_dev, other_func)
            ||| w.offset(other_bus, other_dev, other_func) + 0x1000 <= w.offset(bus, dev, func)
        },
{
}

/// Configuration space is laid out without gaps: the first function of the first
/// bus lies at the base of the window, the next function 4 KiB further on, the
/// next device after eight functions and the next bus after thirty-two devices.
pub proof fn law_functions_follow_one_another(w: EcamWindow, bus: u8, dev: u8, func: u8)
    ensures
        w.offset(w.bus_start, 0, 0) == 0,
        func < 255 ==> w.offset(bus, dev, (func + 1) as u8) == w.offset(bus, dev, func) + 4096,
        dev < 255 ==> w.offset(bus, (dev + 1) as u8, func) == w.offset(bus, dev, func) + 8 * 4096,
        bus < 255 ==> w.offset((bus + 1) as u8, dev, func) == w.offset(bus, dev, func) + 32 * 8
            * 4096,
{
}

/// A window covers whole buses, its first and its last included, and no other: on
/// each, thirty-two devices of eight functions.
pub proof fn law_a_window_covers_whole_buses(w: EcamWindow, bus: u8, dev: u8, func: u8)
    ensures
        w.covers(bus, dev, func) <==> w.covers(bus, 0, 0) && dev <= 31 && func <= 7,
        w.covers(bus, 0, 0) <==> !(bus < w.bus_start) && !(bus > w.bus_end),
{
}

/// There is a window for every whole sixteen bytes of the table: eight for the
/// base, two for the segment group and one each for the first and the last bus.
pub proof fn law_every_whole_entry_is_a_window(body: Seq<u8>)
    ensures
        windows_in(body).len() * 16 <= body.len() < windows_in(body).len() * 16 + 16,
        forall|i: int|
            0 <= i < windows_in(body).len() ==> {
                let w = #[trigger] windows_in(body)[i];
                &&& w.base == bytes::le64(body, 16 * i)
                &&& w.segment == bytes::le16(body, 16 * i + 8)
                &&& w.bus_start == body[16 * i + 10]
                &&& w.bus_end == body[16 * i + 11]
            },
{
}

/// The windows of a table stand in it from 44 on, sixteen bytes each, as many as lie
/// there whole.
pub proof fn law_the_windows_stand_in_the_table(
    buf: &[u8],
    mcfg: Mcfg,
    windows: Vec<EcamWindow>,
    i: int,
)
    requires
        call_ensures(Mcfg::parse, (buf,), Some(mcfg)),
        call_ensures(Mcfg::windows, (&mcfg,), windows),
    ensures
        44 + 16 * windows@.len() <= bytes::le32(buf@, 4) < 44 + 16 * windows@.len() + 16,
        0 <= i < windows@.len() ==> {
            let w = windows@[i];
            &&& w.base == bytes::le64(buf@, 44 + 16 * i)
            &&& w.segment == bytes::le16(buf@, 52 + 16 * i)
            &&& w.bus_start == buf@[54 + 16 * i]
            &&& w.bus_end == buf@[55 + 16 * i]
        },
{
    let len = bytes::le32(buf@, 4) as int;
    let body = buf@.subrange(44, len);
    law_every_whole_entry_is_a_window(body);
    if 0 <= i < windows@.len() {
        assert(windows_in(body)[i] == windows@[i]);
        assert(forall|k: int| 0 <= k < body.len() ==> #[trigger] body[k] == buf@[44 + k]);
    }
}

/// A function has configuration space exactly when the window covers it and does
/// not reach past the last address there, and it then lies as far past the base as
/// the functions before it take.
pub proof fn law_configuration_space_is_at_its_place(
    w: EcamWindow,
    bus: u8,
    dev: u8,
    func: u8,
    address: Option<u64>,
)
    requires
        call_ensures(EcamWindow::config_address, (&w, bus, dev, func), address),
    ensures
        ({
            let before = ((bus - w.bus_start) * 32 + dev) * 8 + func;
            &&& address is Some <==> w.bus_start <= bus <= w.bus_end && dev <= 31 && func <= 7
                && w.base + 4096 * before <= u64::MAX
            &&& address matches Some(a) ==> a - w.base == 4096 * before
        }),
{
}

} // verus!
