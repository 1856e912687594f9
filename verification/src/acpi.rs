//! ACPI tables: how a PC says what it is made of.
//!
//! The firmware advertises a root pointer, the root pointer names a directory,
//! and the directory names the tables. Each one is checksummed, and nothing in
//! it is believed until the checksum has passed. Everything here takes bytes and
//! returns values: finding and mapping the memory is the caller's business.
//!
//! Malformed input is refused with `None`. No input makes a parser read past the
//! bytes it was given.
pub use hpet::Hpet;
pub use madt::{Madt, MadtEntry, MadtIter};
pub use mcfg::{EcamWindow, Mcfg};

use crate::bytes;
use vstd::prelude::*;

pub mod hpet;
pub mod madt;
pub mod mcfg;

verus! {

/// The bytes a root pointer begins with: `"RSD PTR "`.
pub const RSDP_SIGNATURE: [u8; 8] = [0x52, 0x53, 0x44, 0x20, 0x50, 0x54, 0x52, 0x20];

/// Length of a revision 0 root pointer, which is also what its checksum covers.
pub const RSDP_V1_LEN: usize = 20;

/// Smallest length of a revision 2 root pointer.
pub const RSDP_V2_LEN: usize = 36;

/// Length of the header every system description table starts with.
pub const SDT_HEADER_LEN: usize = 36;

/// `"XSDT"`.
pub const XSDT_SIGNATURE: [u8; 4] = [0x58, 0x53, 0x44, 0x54];

/// `"RSDT"`.
pub const RSDT_SIGNATURE: [u8; 4] = [0x52, 0x53, 0x44, 0x54];

/// Whether the bytes sum to zero modulo 256.
pub open spec fn checksummed(s: Seq<u8>) -> bool {
    bytes::byte_sum(s) % 256 == 0
}

/// Whether the bytes sum to zero modulo 256, which is ACPI's checksum for every
/// table.
#[must_use]
pub fn checksum_ok(bytes: &[u8]) -> (ok: bool)
    ensures
        ok == checksummed(bytes@),
{
    let mut sum: u8 = 0;
    let mut i: usize = 0;
    while i < bytes.len()
        invariant
            i <= bytes.len(),
            sum == bytes::byte_sum(bytes@.take(i as int)) % 256,
        decreases bytes.len() - i,
    {
        assert(bytes@.take(i + 1).drop_last() =~= bytes@.take(i as int));
        sum = sum.wrapping_add(bytes[i]);
        i += 1;
    }
    assert(bytes@.take(i as int) =~= bytes@);
    sum == 0
}

/// The Root System Description Pointer: where the chain of tables begins.
#[derive(Clone, Copy, Debug, PartialEq, Eq)]
pub struct Rsdp {
    /// ACPI revision: 0 for the 32-bit form, 2 and up for the 64-bit one.
    pub revision: u8,
    /// Physical address of the RSDT, or zero.
    pub rsdt: u32,
    /// Physical address of the XSDT, or zero. Always zero below revision 2.
    pub xsdt: u64,
    /// The six-byte OEM id, for logging.
    pub oem_id: [u8; 6],
}

/// What makes `s` a root pointer.
///
/// Revision 2 has two checksums, one over the original twenty bytes and one over
/// the length the structure declares, and both have to pass.
pub open spec fn is_rsdp(s: Seq<u8>) -> bool {
    &&& s.len() >= RSDP_V1_LEN
    &&& s.take(8) == RSDP_SIGNATURE@
    &&& checksummed(s.take(RSDP_V1_LEN as int))
    &&& s[15] >= 2 ==> {
        &&& s.len() >= RSDP_V2_LEN
        &&& RSDP_V2_LEN <= bytes::le32(s, 20) <= s.len()
        &&& checksummed(s.take(bytes::le32(s, 20) as int))
    }
}

impl Rsdp {
    /// Parse and validate a root pointer.
    ///
    /// `None` if the signature is wrong, the buffer is short, or either checksum
    /// fails.
    #[must_use]
    pub fn parse(buf: &[u8]) -> (rsdp: Option<Self>)
        ensures
            rsdp is Some <==> is_rsdp(buf@),
            rsdp matches Some(r) ==> {
                &&& r.revision == buf@[15]
                &&& r.rsdt == bytes::le32(buf@, 16)
                &&& r.xsdt == (if buf@[15] >= 2 { bytes::le64(buf@, 24) } else { 0 })
                &&& r.oem_id@ == buf@.subrange(9, 15)
            },
    {
        if buf.len() < RSDP_V1_LEN || !bytes::holds_at(buf, 0, &RSDP_SIGNATURE) {
            assert(buf.len() >= 8 ==> buf@.take(8) == buf@.subrange(0, 8));
            return None;
        }
        assert(buf@.take(8) == buf@.subrange(0, 8));
        assert(buf@.take(20) == buf@.subrange(0, 20));
        if !checksum_ok(&buf[0..RSDP_V1_LEN]) {
            return None;
        }
        let revision: u8 = buf[15];
        let rsdt: u32 = match bytes::u32_at(buf, 16) {
            Some(v) => v,
            None => return None,
        };
        let oem_id: [u8; 6] = [buf[9], buf[10], buf[11], buf[12], buf[13], buf[14]];
        assert(oem_id@ =~= buf@.subrange(9, 15));
        let xsdt: u64 = if revision >= 2 {
            if buf.len() < RSDP_V2_LEN {
                return None;
            }
            let len: usize = match bytes::u32_at(buf, 20) {
                Some(v) => v as usize,
                None => return None,
            };
            if len < RSDP_V2_LEN || len > buf.len() {
                return None;
            }
            assert(buf@.take(len as int) == buf@.subrange(0, len as int));
            if !checksum_ok(&buf[0..len]) {
                return None;
            }
            match bytes::u64_at(buf, 24) {
                Some(v) => v,
                None => return None,
            }
        } else {
            0
        };
        Some(Self { revision, rsdt, xsdt, oem_id })
    }

    /// The directory to walk, as `(address, entry width)`, preferring the 64-bit
    /// XSDT. An RSDT has four-byte entries and an XSDT eight-byte ones.
    #[must_use]
    pub fn directory(&self) -> (directory: Option<(u64, usize)>)
        ensures
            directory == (if self.revision >= 2 && self.xsdt != 0 {
                Some((self.xsdt, 8usize))
            } else if self.rsdt != 0 {
                Some((self.rsdt as u64, 4usize))
            } else {
                None::<(u64, usize)>
            }),
    {
        if self.revision >= 2 && self.xsdt != 0 {
            Some((self.xsdt, 8))
        } else if self.rsdt != 0 {
            Some((self.rsdt as u64, 4))
        } else {
            None
        }
    }
}

/// The header shared by every system description table.
#[derive(Clone, Copy, Debug, PartialEq, Eq)]
pub struct SdtHeader {
    /// Four-character table signature, such as `APIC`.
    pub signature: [u8; 4],
    /// Length of the whole table in bytes, header included.
    pub length: u32,
    /// Table revision.
    pub revision: u8,
    /// OEM table id, for logging.
    pub oem_table_id: [u8; 8],
}

/// What makes the start of `s` a system description table: a declared length
/// that covers the header and fits, and a checksum over exactly that length.
pub open spec fn is_table(s: Seq<u8>) -> bool {
    &&& s.len() >= SDT_HEADER_LEN
    &&& SDT_HEADER_LEN <= bytes::le32(s, 4) <= s.len()
    &&& checksummed(s.take(bytes::le32(s, 4) as int))
}

/// What makes the start of `s` a table with signature `sig`.
pub open spec fn is_table_of(s: Seq<u8>, sig: Seq<u8>) -> bool {
    is_table(s) && s.take(4) == sig
}

impl SdtHeader {
    /// Parse a header and verify the checksum of the whole table, so that a
    /// caller who gets a header back may believe the body.
    #[must_use]
    pub fn parse(buf: &[u8]) -> (header: Option<Self>)
        ensures
            header is Some <==> is_table(buf@),
            header matches Some(h) ==> {
                &&& h.signature@ == buf@.take(4)
                &&& h.length == bytes::le32(buf@, 4)
                &&& h.revision == buf@[8]
                &&& h.oem_table_id@ == buf@.subrange(16, 24)
            },
    {
        if buf.len() < SDT_HEADER_LEN {
            return None;
        }
        let length: usize = match bytes::u32_at(buf, 4) {
            Some(v) => v as usize,
            None => return None,
        };
        if length < SDT_HEADER_LEN || length > buf.len() {
            return None;
        }
        assert(buf@.take(length as int) == buf@.subrange(0, length as int));
        if !checksum_ok(&buf[0..length]) {
            return None;
        }
        let signature: [u8; 4] = [buf[0], buf[1], buf[2], buf[3]];
        let oem_table_id: [u8; 8] = [
            buf[16], buf[17], buf[18], buf[19], buf[20], buf[21], buf[22], buf[23],
        ];
        assert(signature@ =~= buf@.take(4));
        assert(oem_table_id@ =~= buf@.subrange(16, 24));
        Some(Self { signature, length: length as u32, revision: buf[8], oem_table_id })
    }

    /// Whether this table's signature is `sig`.
    #[must_use]
    pub fn is(&self, sig: &[u8; 4]) -> (same: bool)
        ensures
            same == (self.signature@ == sig@),
    {
        let same: bool = self.signature[0] == sig[0] && self.signature[1] == sig[1]
            && self.signature[2] == sig[2] && self.signature[3] == sig[3];
        assert(same ==> self.signature@ =~= sig@);
        same
    }
}

/// The signature a directory with `width`-byte entries carries.
pub open spec fn directory_signature(width: usize) -> Seq<u8> {
    if width == 8 {
        XSDT_SIGNATURE@
    } else {
        RSDT_SIGNATURE@
    }
}

/// The `i`-th pointer in a directory's entries, if all of it is there.
pub open spec fn directory_entry(entries: Seq<u8>, width: usize, i: int) -> Option<u64> {
    if width == 8 {
        if i * 8 + 8 <= entries.len() {
            Some(bytes::le64(entries, i * 8))
        } else {
            None
        }
    } else {
        if i * width + 4 <= entries.len() {
            Some(bytes::le32(entries, i * width) as u64)
        } else {
            None
        }
    }
}

/// The pointers among the first `n` entries, in order.
pub open spec fn directory_addresses(entries: Seq<u8>, width: usize, n: nat) -> Seq<u64>
    decreases n,
{
    if n == 0 {
        Seq::empty()
    } else {
        let before = directory_addresses(entries, width, (n - 1) as nat);
        match directory_entry(entries, width, n - 1) {
            Some(address) => before.push(address),
            None => before,
        }
    }
}

/// The table directory, an XSDT or an RSDT: an array of physical addresses of
/// other tables.
#[derive(Clone, Copy, Debug)]
pub struct Directory<'a> {
    /// The bytes after the header.
    pub entries: &'a [u8],
    /// Bytes per entry.
    pub width: usize,
}

impl<'a> Directory<'a> {
    /// Wrap the bytes of an XSDT (`width` 8) or RSDT (`width` 4).
    ///
    /// `None` unless the table is valid and its signature is the one the width
    /// implies: an XSDT read as an RSDT would be a directory of half-addresses.
    #[must_use]
    pub fn parse(buf: &'a [u8], width: usize) -> (directory: Option<Self>)
        ensures
            directory is Some <==> is_table_of(buf@, directory_signature(width)),
            directory matches Some(d) ==> {
                &&& d.entries@ == buf@.subrange(
                    SDT_HEADER_LEN as int,
                    bytes::le32(buf@, 4) as int,
                )
                &&& d.width == width
            },
    {
        let header: SdtHeader = match SdtHeader::parse(buf) {
            Some(h) => h,
            None => return None,
        };
        let right: bool = if width == 8 {
            header.is(&XSDT_SIGNATURE)
        } else {
            header.is(&RSDT_SIGNATURE)
        };
        if !right {
            return None;
        }
        let entries: &'a [u8] = &buf[SDT_HEADER_LEN..header.length as usize];
        Some(Self { entries, width })
    }

    /// How many whole pointers the directory holds. A trailing partial entry is
    /// not counted.
    #[must_use]
    pub fn len(&self) -> (n: usize)
        requires
            self.width > 0,
        ensures
            n == self.entries@.len() / self.width as nat,
    {
        self.entries.len() / self.width
    }

    /// Whether the directory is empty.
    #[must_use]
    pub fn is_empty(&self) -> (empty: bool)
        requires
            self.width > 0,
        ensures
            empty == (self.entries@.len() / self.width as nat == 0),
    {
        self.len() == 0
    }

    /// The physical address of the `i`-th table.
    #[must_use]
    pub fn entry(&self, i: usize) -> (address: Option<u64>)
        ensures
            address == directory_entry(self.entries@, self.width, i as int),
    {
        assert(self.entries.len() == self.entries@.len());
        let off: usize = match i.checked_mul(self.width) {
            Some(off) => off,
            None => return None,
        };
        if self.width == 8 {
            bytes::u64_at(self.entries, off)
        } else {
            match bytes::u32_at(self.entries, off) {
                Some(address) => Some(address as u64),
                None => None,
            }
        }
    }

    /// Every table address, in order.
    pub fn iter(&self) -> (addresses: Vec<u64>)
        requires
            self.width > 0,
        ensures
            addresses@ == directory_addresses(
                self.entries@,
                self.width,
                self.entries@.len() / self.width as nat,
            ),
    {
        let n: usize = self.len();
        let mut addresses: Vec<u64> = Vec::new();
        let mut i: usize = 0;
        while i < n
            invariant
                i <= n,
                addresses@ == directory_addresses(self.entries@, self.width, i as nat),
            decreases n - i,
        {
            if let Some(address) = self.entry(i) {
                addresses.push(address);
            }
            i += 1;
        }
        addresses
    }
}

/// An XSDT is never accepted as an RSDT, nor an RSDT as an XSDT.
pub proof fn law_directory_widths_exclude_each_other(s: Seq<u8>, width: usize)
    requires
        width != 8,
    ensures
        !(is_table_of(s, directory_signature(8)) && is_table_of(s, directory_signature(width))),
{
    assert(XSDT_SIGNATURE@[0] != RSDT_SIGNATURE@[0]);
}

/// The tables a machine is brought up from.
pub open spec fn table_signatures() -> Seq<Seq<u8>> {
    seq![
        XSDT_SIGNATURE@,
        RSDT_SIGNATURE@,
        madt::MADT_SIGNATURE@,
        mcfg::MCFG_SIGNATURE@,
        hpet::HPET_SIGNATURE@,
    ]
}

/// No bytes are a table of two different kinds: a parser for one kind refuses
/// what a parser for another accepts.
pub proof fn law_a_table_has_one_kind(s: Seq<u8>, i: int, j: int)
    requires
        0 <= i < j < table_signatures().len(),
    ensures
        !(is_table_of(s, table_signatures()[i]) && is_table_of(s, table_signatures()[j])),
{
    assert(XSDT_SIGNATURE@[0] != RSDT_SIGNATURE@[0]);
    assert(madt::MADT_SIGNATURE@[0] == 0x41);
    assert(mcfg::MCFG_SIGNATURE@[0] == 0x4D);
    assert(hpet::HPET_SIGNATURE@[0] == 0x48);
}

/// A directory of four-byte or eight-byte entries lists one address for every
/// whole entry, and the `i`-th one listed is the `i`-th entry.
pub proof fn law_directory_lists_every_whole_entry(entries: Seq<u8>, width: usize, n: nat)
    requires
        width >= 4,
        n <= entries.len() / width as nat,
    ensures
        directory_addresses(entries, width, n).len() == n,
        forall|i: int|
            0 <= i < n ==> Some(#[trigger] directory_addresses(entries, width, n)[i])
                == directory_entry(entries, width, i),
    decreases n,
{
    if n > 0 {
        law_directory_lists_every_whole_entry(entries, width, (n - 1) as nat);
        let w = width as int;
        let len = entries.len() as int;
        assert((n - 1) * w + w <= len) by (nonlinear_arith)
            requires
                n <= len / w,
                w > 0,
        ;
    }
}

proof fn lemma_byte_sum_update(s: Seq<u8>, i: int, b: u8)
    requires
        0 <= i < s.len(),
    ensures
        bytes::byte_sum(s.update(i, b)) == bytes::byte_sum(s) - s[i] + b,
    decreases s.len(),
{
    if i < s.len() - 1 {
        assert(s.update(i, b).drop_last() =~= s.drop_last().update(i, b));
        lemma_byte_sum_update(s.drop_last(), i, b);
    } else {
        assert(s.update(i, b).drop_last() =~= s.drop_last());
    }
}

/// A single changed byte never goes unnoticed: bytes whose checksum passes do not
/// pass with any one of them changed.
pub proof fn law_a_changed_byte_is_noticed(s: Seq<u8>, i: int, b: u8)
    requires
        0 <= i < s.len(),
        b != s[i],
        checksummed(s),
    ensures
        !checksummed(s.update(i, b)),
{
    lemma_byte_sum_update(s, i, b);
}

/// Only the length that a table declares counts: what lies beyond it in the buffer
/// makes no difference.
pub proof fn law_only_the_declared_length_counts(s: Seq<u8>, sig: Seq<u8>)
    requires
        s.len() >= SDT_HEADER_LEN,
        SDT_HEADER_LEN <= bytes::le32(s, 4) <= s.len(),
    ensures
        is_table_of(s, sig) <==> is_table_of(s.take(bytes::le32(s, 4) as int), sig),
{
    let len = bytes::le32(s, 4) as int;
    let t = s.take(len);
    assert(t =~= s.subrange(0, len));
    bytes::lemma_fields_of_subrange(s, 0, len);
    assert(bytes::le32(s.subrange(0, len), 4) == bytes::le32(s, 4));
    assert(t.take(len) =~= s.take(len));
    assert(t.take(4) =~= s.take(4));
}

/// Exactly one last byte makes a checksum pass: the one that brings the sum of all
/// bytes to a multiple of 256.
pub proof fn law_one_byte_makes_a_checksum_pass(s: Seq<u8>, b: u8)
    ensures
        checksummed(s.push(b)) <==> (bytes::byte_sum(s) + b) % 256 == 0,
        checksummed(Seq::empty()),
{
    assert(s.push(b).drop_last() =~= s);
}

/// A root pointer is `"RSD PTR "` and what follows it to the length of its
/// revision, with checksums that pass: twenty bytes always, and from revision 2 on
/// also as many as it declares, which are at least 36 and all there.
pub proof fn law_a_root_pointer_is_marked_and_checksummed(s: Seq<u8>)
    ensures
        is_rsdp(s) ==> s.len() >= 20,
        is_rsdp(s) ==> s[0] == 'R' as u8 && s[1] == 'S' as u8 && s[2] == 'D' as u8 && s[3]
            == ' ' as u8 && s[4] == 'P' as u8 && s[5] == 'T' as u8 && s[6] == 'R' as u8 && s[7]
            == ' ' as u8,
        is_rsdp(s) ==> bytes::byte_sum(s.take(20)) % 256 == 0,
        is_rsdp(s) && s[15] >= 2 ==> 36 <= bytes::le32(s, 20) <= s.len() && bytes::byte_sum(
            s.take(bytes::le32(s, 20) as int),
        ) % 256 == 0,
        s.len() >= 20 && s[0] == 'R' as u8 && s[1] == 'S' as u8 && s[2] == 'D' as u8 && s[3]
            == ' ' as u8 && s[4] == 'P' as u8 && s[5] == 'T' as u8 && s[6] == 'R' as u8 && s[7]
            == ' ' as u8 && bytes::byte_sum(s.take(20)) % 256 == 0 && (s[15] < 2 || 36
            <= bytes::le32(s, 20) <= s.len() && bytes::byte_sum(
            s.take(bytes::le32(s, 20) as int),
        ) % 256 == 0) ==> is_rsdp(s),
{
    if s.len() >= 20 {
        let mark = s.take(8);
        assert(mark[0] == s[0] && mark[1] == s[1] && mark[2] == s[2] && mark[3] == s[3] && mark[4]
            == s[4] && mark[5] == s[5] && mark[6] == s[6] && mark[7] == s[7]);
        if s[0] == 0x52 && s[1] == 0x53 && s[2] == 0x44 && s[3] == 0x20 && s[4] == 0x50 && s[5]
            == 0x54 && s[6] == 0x52 && s[7] == 0x20 {
            assert(mark =~= RSDP_SIGNATURE@);
        }
    }
}

/// A table of some signature begins with its four bytes, declares a length that
/// holds its header and is all there, and passes its checksum over that length.
/// Nothing else is asked of it.
pub proof fn law_a_table_is_marked_and_checksummed(s: Seq<u8>, sig: Seq<u8>)
    requires
        sig.len() == 4,
    ensures
        is_table_of(s, sig) <==> {
            &&& s.len() >= 36
            &&& s[0] == sig[0] && s[1] == sig[1] && s[2] == sig[2] && s[3] == sig[3]
            &&& 36 <= bytes::le32(s, 4) <= s.len()
            &&& bytes::byte_sum(s.take(bytes::le32(s, 4) as int)) % 256 == 0
        },
        is_table(s) <==> is_table_of(s, s.take(4)),
{
    if s.len() >= 36 {
        let mark = s.take(4);
        assert(mark[0] == s[0] && mark[1] == s[1] && mark[2] == s[2] && mark[3] == s[3]);
        if s[0] == sig[0] && s[1] == sig[1] && s[2] == sig[2] && s[3] == sig[3] {
            assert(mark =~= sig);
        }
    }
}

/// A directory of eight-byte entries says `"XSDT"`, and one of any other width
/// `"RSDT"`.
pub proof fn law_the_signature_tells_the_width(width: usize)
    ensures
        directory_signature(width).len() == 4,
        directory_signature(width)[0] == (if width == 8 {
            'X' as u8
        } else {
            'R' as u8
        }),
        directory_signature(width)[1] == 'S' as u8,
        directory_signature(width)[2] == 'D' as u8,
        directory_signature(width)[3] == 'T' as u8,
{
}

/// An entry of a directory is the address that its own bytes spell: eight of them,
/// or four in a directory of any other width. There is one wherever those bytes are
/// all there.
pub proof fn law_an_entry_is_its_own_bytes(entries: Seq<u8>, width: usize, i: int)
    requires
        i >= 0,
    ensures
        match directory_entry(entries, width, i) {
            Some(address) => {
                let at = i * width;
                &&& width == 8 ==> at + 8 <= entries.len() && address == bytes::le64(entries, at)
                &&& width != 8 ==> at + 4 <= entries.len() && address == bytes::le32(entries, at)
            },
            None => entries.len() < i * width + (if width == 8 {
                8int
            } else {
                4int
            }),
        },
{
}

/// Listing one entry more adds its address behind the others, if the entry is all
/// there, and otherwise nothing.
pub proof fn law_addresses_are_listed_in_order(entries: Seq<u8>, width: usize, n: nat)
    ensures
        directory_addresses(entries, width, 0).len() == 0,
        match directory_entry(entries, width, n as int) {
            Some(address) => {
                let more = directory_addresses(entries, width, n + 1);
                &&& more.len() == directory_addresses(entries, width, n).len() + 1
                &&& more.last() == address
                &&& more.drop_last() == directory_addresses(entries, width, n)
            },
            None => directory_addresses(entries, width, n + 1) == directory_addresses(
                entries,
                width,
                n,
            ),
        },
{
    let before = directory_addresses(entries, width, n);
    if let Some(address) = directory_entry(entries, width, n as int) {
        assert(before.push(address).drop_last() =~= before);
    }
}

/// A root pointer is read from its own bytes, whatever it points to: the revision
/// at 15, the narrow directory at 16 and, from revision 2 on, the wide one at 24.
pub proof fn law_a_root_pointer_is_read_from_its_bytes(buf: &[u8], rsdp: Rsdp, i: int)
    requires
        call_ensures(Rsdp::parse, (buf,), Some(rsdp)),
        0 <= i < 6,
    ensures
        rsdp.revision == buf@[15],
        rsdp.rsdt == bytes::le32(buf@, 16),
        rsdp.revision >= 2 ==> rsdp.xsdt == bytes::le64(buf@, 24),
        rsdp.revision < 2 ==> rsdp.xsdt == 0,
        rsdp.oem_id@[i] == buf@[9 + i],
{
    assert(rsdp.oem_id@[i] == buf@.subrange(9, 15)[i]);
}

/// The wide directory is walked where there is one, the narrow one otherwise, and
/// neither where both addresses are null. The entries are as wide as the directory.
pub proof fn law_the_wide_directory_is_preferred(rsdp: Rsdp, directory: Option<(u64, usize)>)
    requires
        call_ensures(Rsdp::directory, (&rsdp,), directory),
    ensures
        match directory {
            Some((address, width)) => {
                &&& address != 0
                &&& width == 8 || width == 4
                &&& width == 8 ==> address == rsdp.xsdt && rsdp.revision >= 2
                &&& width == 4 ==> address == rsdp.rsdt && (rsdp.xsdt == 0 || rsdp.revision < 2)
            },
            None => rsdp.rsdt == 0 && (rsdp.xsdt == 0 || rsdp.revision < 2),
        },
{
}

/// A table header is read from its own bytes.
pub proof fn law_a_header_is_read_from_its_bytes(buf: &[u8], header: SdtHeader, i: int)
    requires
        call_ensures(SdtHeader::parse, (buf,), Some(header)),
        0 <= i < 8,
    ensures
        i < 4 ==> header.signature@[i] == buf@[i],
        header.length == bytes::le32(buf@, 4),
        header.revision == buf@[8],
        header.oem_table_id@[i] == buf@[16 + i],
{
    if i < 4 {
        assert(header.signature@[i] == buf@.take(4)[i]);
    }
    assert(header.oem_table_id@[i] == buf@.subrange(16, 24)[i]);
}

/// An address that a directory gives out stands in its table: the entries follow the
/// header, and none of an entry lies beyond the declared length.
pub proof fn law_an_address_stands_in_the_table(
    buf: &[u8],
    width: usize,
    directory: Directory,
    i: usize,
    address: Option<u64>,
)
    requires
        call_ensures(Directory::parse, (buf, width), Some(directory)),
        call_ensures(Directory::entry, (&directory, i), address),
    ensures
        ({
            let at = 36 + i * width;
            let wide: int = if width == 8 {
                8
            } else {
                4
            };
            &&& address is Some <==> at + wide <= bytes::le32(buf@, 4)
            &&& address matches Some(a) ==> if width == 8 {
                a == bytes::le64(buf@, at)
            } else {
                a == bytes::le32(buf@, at)
            }
        }),
{
    let at = i * width;
    assert(at >= 0) by (nonlinear_arith)
        requires
            at == i * width,
            i >= 0,
            width >= 0,
    ;
    law_an_entry_is_its_own_bytes(directory.entries@, width, i as int);
    bytes::lemma_fields_of_subrange(buf@, 36, bytes::le32(buf@, 4) as int);
}

} // verus!
