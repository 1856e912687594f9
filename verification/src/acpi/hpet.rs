//! The High Precision Event Timer description table.
use crate::acpi::SdtHeader;
use crate::bytes;
use vstd::prelude::*;

verus! {

/// `"HPET"`, the signature of this table.
pub const HPET_SIGNATURE: [u8; 4] = [0x48, 0x50, 0x45, 0x54];

/// Smallest length of this table.
pub const HPET_LEN: usize = 56;

/// What the table says about the timer.
#[derive(Clone, Copy, Debug, PartialEq, Eq, Structural)]
pub struct Hpet {
    /// Physical base of the timer's registers.
    pub address: u64,
    /// Which timer block this is, when a machine has more than one.
    pub number: u8,
    /// Smallest tick the hardware guarantees.
    pub min_tick: u16,
}

impl Hpet {
    /// Parse the table from its bytes.
    #[must_use]
    pub fn parse(buf: &[u8]) -> (hpet: Option<Self>)
        ensures
            hpet == (if super::is_table_of(buf@, HPET_SIGNATURE@) && bytes::le32(buf@, 4)
                >= HPET_LEN {
                Some(
                    Hpet {
                        address: bytes::le64(buf@, 44),
                        number: buf@[52],
                        min_tick: bytes::le16(buf@, 53),
                    },
                )
            } else {
                None::<Hpet>
            }),
    {
        let header: SdtHeader = match SdtHeader::parse(buf) {
            Some(h) => h,
            None => return None,
        };
        if !header.is(&HPET_SIGNATURE) || (header.length as usize) < HPET_LEN {
            return None;
        }
        // The address sits four bytes into a Generic Address Structure at offset 40.
        match (bytes::u64_at(buf, 44), bytes::u16_at(buf, 53)) {
            (Some(address), Some(min_tick)) => Some(Self { address, number: buf[52], min_tick }),
            _ => None,
        }
    }
}

/// A table is read from its own bytes, and is one only if it is marked as one and
/// all of it is there.
pub proof fn law_a_table_is_read_from_its_bytes(buf: &[u8], hpet: Option<Hpet>)
    requires
        call_ensures(Hpet::parse, (buf,), hpet),
    ensures
        hpet is Some <==> super::is_table(buf@) && buf@[0] == 'H' as u8 && buf@[1] == 'P' as u8
            && buf@[2] == 'E' as u8 && buf@[3] == 'T' as u8 && bytes::le32(buf@, 4) >= 56,
        hpet matches Some(h) ==> {
            &&& h.address == bytes::le64(buf@, 44)
            &&& h.number == buf@[52]
            &&& h.min_tick == bytes::le16(buf@, 53)
        },
{
    super::law_a_table_is_marked_and_checksummed(buf@, HPET_SIGNATURE@);
}

} // verus!
