//! The Multiple APIC Description Table: which processors and interrupt
//! controllers a machine has, and how its legacy interrupt lines are wired.
use crate::acpi::SdtHeader;
use crate::bytes;
use vstd::prelude::*;

verus! {

/// `"APIC"`, the signature of this table.
pub const MADT_SIGNATURE: [u8; 4] = [0x41, 0x50, 0x49, 0x43];

/// Offset of the first entry: the table header, the local APIC address and the
/// flags come before it.
pub const MADT_ENTRIES: usize = 44;

/// One entry of the table.
#[derive(Clone, Copy, Debug, PartialEq, Eq, Structural)]
#[allow(inconsistent_fields)]
pub enum MadtEntry {
    /// A processor.
    LocalApic {
        /// Processor id in the firmware's namespace.
        acpi_id: u8,
        /// Local APIC id, which a startup message is addressed to.
        apic_id: u8,
        /// Whether this processor may be started.
        enabled: bool,
    },
    /// An I/O APIC, which routes device interrupts to processors.
    IoApic {
        /// This controller's id.
        id: u8,
        /// Physical address of its registers.
        address: u32,
        /// The first global system interrupt this controller covers.
        gsi_base: u32,
    },
    /// A legacy interrupt line that does not arrive on the global system
    /// interrupt of the same number.
    InterruptOverride {
        /// Source bus; 0 means ISA.
        bus: u8,
        /// The legacy line, as software names it.
        source_irq: u8,
        /// The global system interrupt it arrives on.
        gsi: u32,
        /// Polarity and trigger-mode bits.
        flags: u16,
    },
    /// A local APIC NMI line.
    LocalApicNmi {
        /// Processor this applies to; `0xFF` means all of them.
        acpi_id: u8,
        /// Polarity and trigger-mode bits.
        flags: u16,
        /// Which local interrupt input carries the NMI.
        lint: u8,
    },
    /// A processor with a 32-bit APIC id.
    LocalX2Apic {
        /// 32-bit local APIC id.
        apic_id: u32,
        /// Processor id in the firmware's namespace.
        acpi_id: u32,
        /// Whether this processor may be started.
        enabled: bool,
    },
    /// Any other entry, known only by its type byte.
    Other {
        /// The raw type byte.
        entry_type: u8,
    },
}

/// What the bytes of one entry say. A known type too short to hold its fields is
/// carried through by its type byte, like an unknown one.
pub open spec fn decoded(e: Seq<u8>) -> MadtEntry {
    if e[0] == 0 && e.len() >= 8 {
        MadtEntry::LocalApic {
            acpi_id: e[2],
            apic_id: e[3],
            enabled: bytes::le32(e, 4) % 2 == 1,
        }
    } else if e[0] == 1 && e.len() >= 12 {
        MadtEntry::IoApic {
            id: e[2],
            address: bytes::le32(e, 4),
            gsi_base: bytes::le32(e, 8),
        }
    } else if e[0] == 2 && e.len() >= 10 {
        MadtEntry::InterruptOverride {
            bus: e[2],
            source_irq: e[3],
            gsi: bytes::le32(e, 4),
            flags: bytes::le16(e, 8),
        }
    } else if e[0] == 4 && e.len() >= 6 {
        MadtEntry::LocalApicNmi { acpi_id: e[2], flags: bytes::le16(e, 3), lint: e[5] }
    } else if e[0] == 9 && e.len() >= 16 {
        MadtEntry::LocalX2Apic {
            apic_id: bytes::le32(e, 4),
            acpi_id: bytes::le32(e, 12),
            enabled: bytes::le32(e, 8) % 2 == 1,
        }
    } else {
        MadtEntry::Other { entry_type: e[0] }
    }
}

/// Whether an entry can be taken at `off`: its two-byte head is there, it is at
/// least as long as that head, and all of it lies inside the table.
pub open spec fn entry_at(body: Seq<u8>, off: int) -> bool {
    &&& 0 <= off
    &&& off + 2 <= body.len()
    &&& body[off + 1] >= 2
    &&& off + body[off + 1] <= body.len()
}

/// The entries from `off` on. The walk ends at the first place where no entry
/// can be taken.
pub open spec fn entries_from(body: Seq<u8>, off: int) -> Seq<MadtEntry>
    decreases body.len() - off,
{
    if entry_at(body, off) {
        seq![decoded(body.subrange(off, off + body[off + 1]))] + entries_from(
            body,
            off + body[off + 1],
        )
    } else {
        Seq::empty()
    }
}

/// The APIC id of an entry that describes a processor that may be started.
pub open spec fn startable(e: MadtEntry) -> Option<u32> {
    match e {
        MadtEntry::LocalApic { apic_id, enabled: true, .. } => Some(apic_id as u32),
        MadtEntry::LocalX2Apic { apic_id, enabled: true, .. } => Some(apic_id),
        _ => None,
    }
}

/// The APIC ids of the processors that may be started, in table order.
pub open spec fn startable_ids(entries: Seq<MadtEntry>) -> Seq<u32>
    decreases entries.len(),
{
    if entries.len() == 0 {
        Seq::empty()
    } else {
        let rest = startable_ids(entries.drop_first());
        match startable(entries[0]) {
            Some(id) => seq![id] + rest,
            None => rest,
        }
    }
}

/// The registers and first interrupt of the first I/O APIC.
pub open spec fn first_io_apic_of(entries: Seq<MadtEntry>) -> Option<(u32, u32)>
    decreases entries.len(),
{
    if entries.len() == 0 {
        None
    } else {
        match entries[0] {
            MadtEntry::IoApic { address, gsi_base, .. } => Some((address, gsi_base)),
            _ => first_io_apic_of(entries.drop_first()),
        }
    }
}

/// Where the first override for `irq` sends it, or the identity if there is none.
pub open spec fn gsi_of(entries: Seq<MadtEntry>, irq: u8) -> u32
    decreases entries.len(),
{
    if entries.len() == 0 {
        irq as u32
    } else {
        match entries[0] {
            MadtEntry::InterruptOverride { source_irq, gsi, .. } if source_irq == irq => gsi,
            _ => gsi_of(entries.drop_first(), irq),
        }
    }
}

/// The table itself.
#[derive(Clone, Copy, Debug)]
pub struct Madt<'a> {
    /// The bytes of the entries.
    pub body: &'a [u8],
    /// Physical address of the local APIC registers.
    pub local_apic_address: u32,
    /// Whether the machine also has the legacy interrupt controllers, which must
    /// be masked before the APICs are trusted.
    pub has_legacy_pics: bool,
}

impl<'a> Madt<'a> {
    /// The entries this table holds.
    pub open spec fn listed(&self) -> Seq<MadtEntry> {
        entries_from(self.body@, 0)
    }

    /// Parse the table from its bytes.
    #[must_use]
    pub fn parse(buf: &'a [u8]) -> (madt: Option<Self>)
        ensures
            madt is Some <==> super::is_table_of(buf@, MADT_SIGNATURE@) && bytes::le32(buf@, 4)
                >= MADT_ENTRIES,
            madt matches Some(m) ==> {
                &&& m.local_apic_address == bytes::le32(buf@, 36)
                &&& m.has_legacy_pics == (bytes::le32(buf@, 40) % 2 == 1)
                &&& m.listed() == entries_from(
                    buf@.subrange(MADT_ENTRIES as int, bytes::le32(buf@, 4) as int),
                    0,
                )
            },
    {
        let header: SdtHeader = match SdtHeader::parse(buf) {
            Some(h) => h,
            None => return None,
        };
        if !header.is(&MADT_SIGNATURE) {
            return None;
        }
        let length: usize = header.length as usize;
        if length < MADT_ENTRIES {
            return None;
        }
        match (bytes::u32_at(buf, 36), bytes::u32_at(buf, 40)) {
            (Some(local_apic_address), Some(flags)) => {
                let body: &'a [u8] = &buf[MADT_ENTRIES..length];
                Some(Self { body, local_apic_address, has_legacy_pics: flags % 2 == 1 })
            },
            _ => None,
        }
    }

    /// Walk the entries.
    pub fn entries(&self) -> (walk: MadtIter<'a>)
        ensures
            walk.remaining() == self.listed(),
    {
        MadtIter { body: self.body, off: 0 }
    }

    /// The APIC ids of every processor that may be started, in table order,
    /// written into `out` as far as there is room. Returns how many there are,
    /// which may be more than `out` holds.
    pub fn cpus(&self, out: &mut [u32]) -> (n: usize)
        ensures
            n == startable_ids(self.listed()).len(),
            final(out)@.len() == old(out)@.len(),
            forall|i: int|
                0 <= i < old(out)@.len() ==> #[trigger] final(out)@[i] == (if i < n {
                    startable_ids(self.listed())[i]
                } else {
                    old(out)@[i]
                }),
    {
        let mut n: usize = 0;
        let mut walk: MadtIter<'a> = self.entries();
        let ghost ids = startable_ids(self.listed());
        proof {
            lemma_startable_ids_bound(self.listed());
            law_a_walk_ends(self.body@, 0);
            assert(self.body.len() == self.body@.len());
        }
        assert(Seq::<u32>::empty() + ids =~= ids);
        loop
            invariant_except_break
                ids == startable_ids(self.listed()),
                n + startable_ids(walk.remaining()).len() == ids.len(),
                ids.skip(n as int) == startable_ids(walk.remaining()),
            invariant
                n <= ids.len() <= usize::MAX,
                out@.len() == old(out)@.len(),
                forall|i: int|
                    0 <= i < out@.len() ==> #[trigger] out@[i] == (if i < n {
                        ids[i]
                    } else {
                        old(out)@[i]
                    }),
            ensures
                n == ids.len(),
            decreases walk.remaining().len(),
        {
            let ghost before = walk.remaining();
            let e: MadtEntry = match walk.next() {
                Some(e) => e,
                None => break,
            };
            assert(before.drop_first() =~= walk.remaining());
            let id: u32 = match e {
                MadtEntry::LocalApic { apic_id, enabled: true, .. } => apic_id as u32,
                MadtEntry::LocalX2Apic { apic_id, enabled: true, .. } => apic_id,
                _ => continue,
            };
            assert(ids[n as int] == ids.skip(n as int)[0]);
            assert(ids.skip(n + 1) =~= ids.skip(n as int).drop_first());
            assert((seq![id] + startable_ids(walk.remaining())).drop_first() =~= startable_ids(
                walk.remaining(),
            ));
            if n < out.len() {
                out[n] = id;
            }
            n += 1;
        }
        n
    }

    /// The first I/O APIC, as `(address, first global system interrupt)`.
    #[must_use]
    pub fn first_io_apic(&self) -> (found: Option<(u32, u32)>)
        ensures
            found == first_io_apic_of(self.listed()),
    {
        let mut walk: MadtIter<'a> = self.entries();
        loop
            invariant
                first_io_apic_of(walk.remaining()) == first_io_apic_of(self.listed()),
            decreases walk.remaining().len(),
        {
            let ghost before = walk.remaining();
            match walk.next() {
                Some(e) => {
                    assert(before.drop_first() =~= walk.remaining());
                    if let MadtEntry::IoApic { address, gsi_base, .. } = e {
                        return Some((address, gsi_base));
                    }
                },
                None => return None,
            }
        }
    }

    /// The global system interrupt a legacy line arrives on. A line with no
    /// override keeps its own number.
    #[must_use]
    pub fn gsi_for_irq(&self, irq: u8) -> (gsi: u32)
        ensures
            gsi == gsi_of(self.listed(), irq),
    {
        let mut walk: MadtIter<'a> = self.entries();
        loop
            invariant
                gsi_of(walk.remaining(), irq) == gsi_of(self.listed(), irq),
            decreases walk.remaining().len(),
        {
            let ghost before = walk.remaining();
            match walk.next() {
                Some(e) => {
                    assert(before.drop_first() =~= walk.remaining());
                    if let MadtEntry::InterruptOverride { source_irq, gsi, .. } = e {
                        if source_irq == irq {
                            return gsi;
                        }
                    }
                },
                None => return irq as u32,
            }
        }
    }
}

/// A walk over the entries of a table.
#[derive(Clone, Copy, Debug)]
pub struct MadtIter<'a> {
    /// The bytes being walked.
    pub body: &'a [u8],
    /// Where the next entry begins.
    pub off: usize,
}

impl<'a> MadtIter<'a> {
    /// The entries still to come.
    pub open spec fn remaining(&self) -> Seq<MadtEntry> {
        entries_from(self.body@, self.off as int)
    }

    /// Take the next entry. At the end of the walk nothing changes any more.
    pub fn next(&mut self) -> (entry: Option<MadtEntry>)
        ensures
            match entry {
                Some(e) => old(self).remaining() == seq![e] + final(self).remaining(),
                None => old(self).remaining().len() == 0 && *final(self) == *old(self),
            },
    {
        let size: usize = self.body.len();
        if self.off >= size || size - self.off < 2 {
            return None;
        }
        let entry_type: u8 = self.body[self.off];
        let len: usize = self.body[self.off + 1] as usize;
        if len < 2 || len > size - self.off {
            return None;
        }
        let e: &'a [u8] = &self.body[self.off..self.off + len];
        assert(e@ == self.body@.subrange(self.off as int, self.off + len));
        self.off = self.off + len;
        let entry: Option<MadtEntry> = decode(entry_type, e);
        entry
    }
}

/// Decode the bytes of one entry, of which the first is `entry_type`.
fn decode(entry_type: u8, e: &[u8]) -> (entry: Option<MadtEntry>)
    requires
        e@.len() >= 2,
        e@[0] == entry_type,
    ensures
        entry == Some(decoded(e@)),
{
    let len: usize = e.len();
    let entry: MadtEntry = if entry_type == 0 && len >= 8 {
        MadtEntry::LocalApic {
            acpi_id: e[2],
            apic_id: e[3],
            enabled: match bytes::u32_at(e, 4) {
                Some(flags) => flags % 2 == 1,
                None => return None,
            },
        }
    } else if entry_type == 1 && len >= 12 {
        match (bytes::u32_at(e, 4), bytes::u32_at(e, 8)) {
            (Some(address), Some(gsi_base)) => MadtEntry::IoApic { id: e[2], address, gsi_base },
            _ => return None,
        }
    } else if entry_type == 2 && len >= 10 {
        match (bytes::u32_at(e, 4), bytes::u16_at(e, 8)) {
            (Some(gsi), Some(flags)) => MadtEntry::InterruptOverride {
                bus: e[2],
                source_irq: e[3],
                gsi,
                flags,
            },
            _ => return None,
        }
    } else if entry_type == 4 && len >= 6 {
        match bytes::u16_at(e, 3) {
            Some(flags) => MadtEntry::LocalApicNmi { acpi_id: e[2], flags, lint: e[5] },
            None => return None,
        }
    } else if entry_type == 9 && len >= 16 {
        match (bytes::u32_at(e, 4), bytes::u32_at(e, 12), bytes::u32_at(e, 8)) {
            (Some(apic_id), Some(acpi_id), Some(flags)) => MadtEntry::LocalX2Apic {
                apic_id,
                acpi_id,
                enabled: flags % 2 == 1,
            },
            _ => return None,
        }
    } else {
        MadtEntry::Other { entry_type }
    };
    Some(entry)
}

proof fn lemma_startable_ids_bound(entries: Seq<MadtEntry>)
    ensures
        startable_ids(entries).len() <= entries.len(),
    decreases entries.len(),
{
    if entries.len() > 0 {
        lemma_startable_ids_bound(entries.drop_first());
    }
}

/// A walk ends: every entry takes at least two bytes, so there is at most one for
/// every two.
pub proof fn law_a_walk_ends(body: Seq<u8>, off: int)
    requires
        0 <= off <= body.len(),
    ensures
        2 * entries_from(body, off).len() <= body.len() - off,
    decreases body.len() - off,
{
    if entry_at(body, off) {
        law_a_walk_ends(body, off + body[off + 1]);
    }
}

/// Every entry that can be taken is, whatever its type, and the walk goes on after
/// it; where none can be taken the walk is over.
pub proof fn law_an_entry_of_any_type_advances_the_walk(body: Seq<u8>, off: int)
    ensures
        entry_at(body, off) ==> entries_from(body, off).len() > 0 && entries_from(
            body,
            off,
        ).drop_first() == entries_from(body, off + body[off + 1]),
        !entry_at(body, off) ==> entries_from(body, off).len() == 0,
{
    if entry_at(body, off) {
        assert(entries_from(body, off).drop_first() =~= entries_from(body, off + body[off + 1]));
    }
}

/// Only processors that may be started are listed: every id comes from an entry
/// that says so, and every such entry is listed.
pub proof fn law_only_startable_processors_are_listed(entries: Seq<MadtEntry>, id: u32)
    ensures
        startable_ids(entries).contains(id) <==> exists|i: int|
            0 <= i < entries.len() && #[trigger] startable(entries[i]) == Some(id),
    decreases entries.len(),
{
    if entries.len() > 0 {
        let rest = entries.drop_first();
        let ids = startable_ids(rest);
        law_only_startable_processors_are_listed(rest, id);
        if startable_ids(entries).contains(id) {
            let k = choose|k: int|
                0 <= k < startable_ids(entries).len() && startable_ids(entries)[k] == id;
            if startable(entries[0]) == Some(id) {
            } else {
                if startable(entries[0]) is Some {
                    assert(ids[k - 1] == id);
                } else {
                    assert(ids[k] == id);
                }
                assert(ids.contains(id));
                let i = choose|i: int|
                    0 <= i < rest.len() && #[trigger] startable(rest[i]) == Some(id);
                assert(startable(entries[i + 1]) == Some(id));
            }
        }
        if exists|i: int|
            0 <= i < entries.len() && #[trigger] startable(entries[i]) == Some(id) {
            let i = choose|i: int|
                0 <= i < entries.len() && #[trigger] startable(entries[i]) == Some(id);
            if i == 0 {
                assert(startable_ids(entries)[0] == id);
            } else {
                assert(startable(rest[i - 1]) == Some(id));
                assert(ids.contains(id));
                let k = choose|k: int| 0 <= k < ids.len() && ids[k] == id;
                if startable(entries[0]) is Some {
                    assert(startable_ids(entries)[k + 1] == id);
                } else {
                    assert(startable_ids(entries)[k] == id);
                }
            }
        }
    }
}

/// The lowest bit of the two flag fields.
proof fn lemma_flag(e: Seq<u8>)
    ensures
        bytes::le32(e, 4) % 2 == e[4] % 2,
        bytes::le32(e, 8) % 2 == e[8] % 2,
{
}

/// Every entry of a walk is what the bytes at its place say, and the places follow
/// one another: the first is where the walk begins, each next one lies as far on
/// as the length byte says, and at the last no whole entry is left. The places are
/// returned, the end of the walk included.
pub proof fn law_every_entry_is_what_its_bytes_say(body: Seq<u8>, off: int) -> (places: Seq<int>)
    requires
        0 <= off <= body.len(),
    ensures
        places.len() == entries_from(body, off).len() + 1,
        places[0] == off,
        ({
            let end = places.last();
            ||| end + 2 > body.len()
            ||| body[end + 1] < 2
            ||| end + body[end + 1] > body.len()
        }),
        forall|i: int|
            0 <= i < places.len() - 1 ==> {
                let at = #[trigger] places[i];
                let kind = body[at];
                let len = body[at + 1];
                &&& places[i + 1] == at + len
                &&& 0 <= at && len >= 2 && at + len <= body.len()
                &&& match entries_from(body, off)[i] {
                    MadtEntry::LocalApic { acpi_id, apic_id, enabled } => {
                        &&& kind == 0 && len >= 8
                        &&& acpi_id == body[at + 2]
                        &&& apic_id == body[at + 3]
                        &&& enabled == (body[at + 4] % 2 == 1)
                    },
                    MadtEntry::IoApic { id, address, gsi_base } => {
                        &&& kind == 1 && len >= 12
                        &&& id == body[at + 2]
                        &&& address == bytes::le32(body, at + 4)
                        &&& gsi_base == bytes::le32(body, at + 8)
                    },
                    MadtEntry::InterruptOverride { bus, source_irq, gsi, flags } => {
                        &&& kind == 2 && len >= 10
                        &&& bus == body[at + 2]
                        &&& source_irq == body[at + 3]
                        &&& gsi == bytes::le32(body, at + 4)
                        &&& flags == bytes::le16(body, at + 8)
                    },
                    MadtEntry::LocalApicNmi { acpi_id, flags, lint } => {
                        &&& kind == 4 && len >= 6
                        &&& acpi_id == body[at + 2]
                        &&& flags == bytes::le16(body, at + 3)
                        &&& lint == body[at + 5]
                    },
                    MadtEntry::LocalX2Apic { apic_id, acpi_id, enabled } => {
                        &&& kind == 9 && len >= 16
                        &&& apic_id == bytes::le32(body, at + 4)
                        &&& enabled == (body[at + 8] % 2 == 1)
                        &&& acpi_id == bytes::le32(body, at + 12)
                    },
                    MadtEntry::Other { entry_type } => {
                        &&& entry_type == kind
                        &&& kind == 0 ==> len < 8
                        &&& kind == 1 ==> len < 12
                        &&& kind == 2 ==> len < 10
                        &&& kind == 4 ==> len < 6
                        &&& kind == 9 ==> len < 16
                    },
                }
            },
    decreases body.len() - off,
{
    if entry_at(body, off) {
        let next = off + body[off + 1];
        let rest = law_every_entry_is_what_its_bytes_say(body, next);
        let places = seq![off] + rest;
        let e = body.subrange(off, next);
        let entries = entries_from(body, off);
        assert(entries[0] == decoded(e));
        lemma_flag(e);
        assert forall|i: int| 0 < i < places.len() implies places[i] == rest[i - 1] by {}
        assert forall|i: int| 0 < i < entries.len() implies entries[i] == entries_from(
            body,
            next,
        )[i - 1] by {}
        assert(places.last() == rest.last());
        places
    } else {
        seq![off]
    }
}

/// A legacy line that no override names arrives on the interrupt of its own
/// number.
pub proof fn law_a_line_without_an_override_keeps_its_number(entries: Seq<MadtEntry>, irq: u8)
    requires
        forall|k: int|
            0 <= k < entries.len() ==> ((#[trigger] entries[k]) matches MadtEntry::InterruptOverride {
                source_irq,
                ..
            } ==> source_irq != irq),
    ensures
        gsi_of(entries, irq) == irq,
    decreases entries.len(),
{
    if entries.len() > 0 {
        let rest = entries.drop_first();
        assert forall|k: int| 0 <= k < rest.len() implies ((
        #[trigger] rest[k]) matches MadtEntry::InterruptOverride { source_irq, .. } ==> source_irq
            != irq) by {
            assert(rest[k] == entries[k + 1]);
        }
        law_a_line_without_an_override_keeps_its_number(rest, irq);
    }
}

/// A legacy line arrives where the first override that names it says, whatever
/// later entries say.
pub proof fn law_the_first_override_of_a_line_decides(entries: Seq<MadtEntry>, irq: u8, k: int)
    requires
        0 <= k < entries.len(),
        entries[k] is InterruptOverride,
        entries[k]->InterruptOverride_source_irq == irq,
        forall|j: int|
            0 <= j < k ==> ((#[trigger] entries[j]) matches MadtEntry::InterruptOverride {
                source_irq,
                ..
            } ==> source_irq != irq),
    ensures
        gsi_of(entries, irq) == entries[k]->InterruptOverride_gsi,
    decreases k,
{
    if k > 0 {
        let rest = entries.drop_first();
        assert forall|j: int| 0 <= j < k - 1 implies ((
        #[trigger] rest[j]) matches MadtEntry::InterruptOverride { source_irq, .. } ==> source_irq
            != irq) by {
            assert(rest[j] == entries[j + 1]);
        }
        assert(rest[k - 1] == entries[k]);
        law_the_first_override_of_a_line_decides(rest, irq, k - 1);
    }
}

/// The I/O APIC that is found is the first one listed, whatever stands before and
/// after it, and none is found exactly when none is listed.
pub proof fn law_the_first_io_apic_is_found(entries: Seq<MadtEntry>)
    ensures
        match first_io_apic_of(entries) {
            Some((address, gsi_base)) => exists|k: int|
                {
                    &&& 0 <= k < entries.len()
                    &&& (#[trigger] entries[k]) is IoApic
                    &&& entries[k]->IoApic_address == address
                    &&& entries[k]->IoApic_gsi_base == gsi_base
                    &&& forall|j: int| 0 <= j < k ==> !((#[trigger] entries[j]) is IoApic)
                },
            None => forall|k: int| 0 <= k < entries.len() ==> !((#[trigger] entries[k]) is IoApic),
        },
    decreases entries.len(),
{
    if entries.len() > 0 && !(entries[0] is IoApic) {
        let rest = entries.drop_first();
        law_the_first_io_apic_is_found(rest);
        match first_io_apic_of(entries) {
            Some((address, gsi_base)) => {
                let k = choose|k: int|
                    {
                        &&& 0 <= k < rest.len()
                        &&& (#[trigger] rest[k]) is IoApic
                        &&& rest[k]->IoApic_address == address
                        &&& rest[k]->IoApic_gsi_base == gsi_base
                        &&& forall|j: int| 0 <= j < k ==> !((#[trigger] rest[j]) is IoApic)
                    };
                assert(entries[k + 1] == rest[k]);
                assert forall|j: int| 0 <= j < k + 1 implies !((#[trigger] entries[j]) is IoApic) by {
                    if j > 0 {
                        assert(rest[j - 1] == entries[j]);
                    }
                }
            },
            None => {
                assert forall|k: int| 0 <= k < entries.len() implies !((
                #[trigger] entries[k]) is IoApic) by {
                    if k > 0 {
                        assert(rest[k - 1] == entries[k]);
                    }
                }
            },
        }
    }
}

/// The processors that may be started are listed once for each entry that says
/// so, in the order of the table: the places of those entries are returned.
pub proof fn law_startable_processors_keep_their_order(entries: Seq<MadtEntry>) -> (places: Seq<int>)
    ensures
        places.len() == startable_ids(entries).len(),
        forall|a: int, b: int| 0 <= a < b < places.len() ==> places[a] < places[b],
        forall|k: int| #[trigger]
            places.contains(k) <==> 0 <= k < entries.len() && match entries[k] {
                MadtEntry::LocalApic { enabled, .. } => enabled,
                MadtEntry::LocalX2Apic { enabled, .. } => enabled,
                _ => false,
            },
        forall|i: int|
            0 <= i < places.len() ==> match entries[#[trigger] places[i]] {
                MadtEntry::LocalApic { apic_id, .. } => startable_ids(entries)[i] == apic_id,
                MadtEntry::LocalX2Apic { apic_id, .. } => startable_ids(entries)[i] == apic_id,
                _ => false,
            },
    decreases entries.len(),
{
    if entries.len() == 0 {
        Seq::empty()
    } else {
        let rest = entries.drop_first();
        let behind = law_startable_processors_keep_their_order(rest);
        let moved = Seq::new(behind.len(), |i: int| behind[i] + 1);
        assert forall|k: int| #[trigger] moved.contains(k) <==> behind.contains(k - 1) by {
            if moved.contains(k) {
                let i = choose|i: int| 0 <= i < moved.len() && moved[i] == k;
                assert(behind[i] == k - 1);
            }
            if behind.contains(k - 1) {
                let i = choose|i: int| 0 <= i < behind.len() && behind[i] == k - 1;
                assert(moved[i] == k);
            }
        }
        assert forall|i: int| 0 <= i < behind.len() implies 0 <= #[trigger] behind[i] < rest.len()
            && entries[behind[i] + 1] == rest[behind[i]] by {
            assert(behind.contains(behind[i]));
        }
        if startable(entries[0]) is Some {
            let places = seq![0int] + moved;
            assert forall|k: int| #[trigger]
                places.contains(k) <==> 0 <= k < entries.len() && match entries[k] {
                    MadtEntry::LocalApic { enabled, .. } => enabled,
                    MadtEntry::LocalX2Apic { enabled, .. } => enabled,
                    _ => false,
                } by {
                assert(places[0] == 0);
                if moved.contains(k) {
                    let i = choose|i: int| 0 <= i < moved.len() && moved[i] == k;
                    assert(places[i + 1] == k);
                }
                if places.contains(k) && k != 0 {
                    let i = choose|i: int| 0 <= i < places.len() && places[i] == k;
                    assert(moved[i - 1] == k);
                }
                assert(moved.contains(k) <==> behind.contains(k - 1));
                if 0 < k < entries.len() {
                    assert(rest[k - 1] == entries[k]);
                }
            }
            assert forall|i: int| 0 < i < places.len() implies #[trigger] places[i] == behind[i - 1]
                + 1 && startable_ids(entries)[i] == startable_ids(rest)[i - 1] by {}
            places
        } else {
            assert forall|k: int| #[trigger]
                moved.contains(k) <==> 0 <= k < entries.len() && match entries[k] {
                    MadtEntry::LocalApic { enabled, .. } => enabled,
                    MadtEntry::LocalX2Apic { enabled, .. } => enabled,
                    _ => false,
                } by {
                assert(moved.contains(k) <==> behind.contains(k - 1));
                if 0 < k < entries.len() {
                    assert(rest[k - 1] == entries[k]);
                }
            }
            moved
        }
    }
}

/// A table is read from its own bytes: the local APIC's address at 36, the flag for
/// the legacy controllers in the lowest bit at 40, and the entries from 44 to the
/// declared length.
pub proof fn law_a_table_is_read_from_its_bytes(buf: &[u8], madt: Madt)
    requires
        call_ensures(Madt::parse, (buf,), Some(madt)),
    ensures
        madt.local_apic_address == bytes::le32(buf@, 36),
        madt.has_legacy_pics <==> buf@[40] % 2 == 1,
        madt.listed() == entries_from(buf@.subrange(44, bytes::le32(buf@, 4) as int), 0),
{
}

/// The line that software names arrives where the table says: at the interrupt of
/// its own number if no override in the table names it, and otherwise where the
/// first override that does says.
pub proof fn law_a_line_arrives_where_the_table_says(madt: Madt, irq: u8, gsi: u32)
    requires
        call_ensures(Madt::gsi_for_irq, (&madt, irq), gsi),
    ensures
        (forall|k: int|
            0 <= k < madt.listed().len() ==> ((
            #[trigger] madt.listed()[k]) matches MadtEntry::InterruptOverride { source_irq, .. }
                ==> source_irq != irq)) ==> gsi == irq,
        forall|k: int|
            {
                &&& 0 <= k < madt.listed().len()
                &&& (#[trigger] madt.listed()[k]) is InterruptOverride
                &&& madt.listed()[k]->InterruptOverride_source_irq == irq
                &&& forall|j: int|
                    0 <= j < k ==> ((
                    #[trigger] madt.listed()[j]) matches MadtEntry::InterruptOverride {
                        source_irq,
                        ..
                    } ==> source_irq != irq)
            } ==> gsi == madt.listed()[k]->InterruptOverride_gsi,
{
    let entries = madt.listed();
    if forall|k: int|
        0 <= k < entries.len() ==> ((#[trigger] entries[k]) matches MadtEntry::InterruptOverride {
            source_irq,
            ..
        } ==> source_irq != irq) {
        law_a_line_without_an_override_keeps_its_number(entries, irq);
    }
    assert forall|k: int|
        {
            &&& 0 <= k < entries.len()
            &&& (#[trigger] entries[k]) is InterruptOverride
            &&& entries[k]->InterruptOverride_source_irq == irq
            &&& forall|j: int|
                0 <= j < k ==> ((#[trigger] entries[j]) matches MadtEntry::InterruptOverride {
                    source_irq,
                    ..
                } ==> source_irq != irq)
        } implies gsi == entries[k]->InterruptOverride_gsi by {
        law_the_first_override_of_a_line_decides(entries, irq, k);
    }
}

/// The first I/O APIC of the table is found, and none only where it has none.
pub proof fn law_the_table_gives_its_first_io_apic(madt: Madt, found: Option<(u32, u32)>)
    requires
        call_ensures(Madt::first_io_apic, (&madt,), found),
    ensures
        found is None <==> forall|k: int|
            0 <= k < madt.listed().len() ==> !((#[trigger] madt.listed()[k]) is IoApic),
        found matches Some((address, gsi_base)) ==> exists|k: int|
            {
                &&& 0 <= k < madt.listed().len()
                &&& (#[trigger] madt.listed()[k]) is IoApic
                &&& madt.listed()[k]->IoApic_address == address
                &&& madt.listed()[k]->IoApic_gsi_base == gsi_base
                &&& forall|j: int| 0 <= j < k ==> !((#[trigger] madt.listed()[j]) is IoApic)
            },
{
    law_the_first_io_apic_is_found(madt.listed());
}

/// The processors that may be started are written in table order as far as there is
/// room, the rest of the room is left alone, and all of them are counted.
pub proof fn law_every_startable_processor_is_counted(madt: Madt, out: &mut [u32], n: usize, i: int)
    requires
        call_ensures(Madt::cpus, (&madt, out), n),
        0 <= i < old(out)@.len(),
    ensures
        n == startable_ids(madt.listed()).len(),
        final(out)@.len() == old(out)@.len(),
        i < n ==> final(out)@[i] == startable_ids(madt.listed())[i],
        i >= n ==> final(out)@[i] == old(out)@[i],
{
}

} // verus!
