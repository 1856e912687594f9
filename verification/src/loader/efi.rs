//! Values of the firmware interface that the loader interprets.
use crate::bytes;
use vstd::prelude::*;

pub mod gop_format;
pub mod memory_type;

verus! {

/// What a firmware call reports. High bit set means error.
pub type Status = usize;

/// The error bit of a status.
pub const ERROR_BIT: usize = usize::MAX / 2 + 1;

/// The call succeeded.
pub const SUCCESS: usize = 0;

/// A parameter was refused: what leaving the firmware reports when the memory map
/// has changed since it was read.
pub const INVALID_PARAMETER: usize = ERROR_BIT + 2;

/// The buffer does not hold the answer: how the memory map query reports the size
/// it needs.
pub const BUFFER_TOO_SMALL: usize = ERROR_BIT + 5;

/// Whether a status is an error.
#[must_use]
pub fn is_error(status: Status) -> (error: bool)
    ensures
        error == (status >= ERROR_BIT),
{
    status >= ERROR_BIT
}

/// A globally unique identifier.
#[derive(Clone, Copy, Debug, PartialEq, Eq)]
pub struct Guid {
    /// First 32 bits, little-endian in memory.
    pub a: u32,
    /// Next 16 bits.
    pub b: u16,
    /// Next 16 bits.
    pub c: u16,
    /// The final eight bytes, in byte order.
    pub d: [u8; 8],
}

impl Guid {
    /// Whether two identifiers are the same.
    pub open spec fn same(self, other: Guid) -> bool {
        &&& self.a == other.a
        &&& self.b == other.b
        &&& self.c == other.c
        &&& self.d@ == other.d@
    }

    /// Whether this is `other`.
    #[must_use]
    pub fn is(&self, other: &Guid) -> (same: bool)
        ensures
            same == self.same(*other),
    {
        if !(self.a == other.a && self.b == other.b && self.c == other.c) {
            return false;
        }
        let mut i: usize = 0;
        while i < 8
            invariant
                i <= 8,
                forall|j: int| 0 <= j < i ==> self.d@[j] == other.d@[j],
            decreases 8 - i,
        {
            if self.d[i] != other.d[i] {
                return false;
            }
            i = i + 1;
        }
        assert(self.d@ =~= other.d@);
        true
    }
}

/// Names the root pointer of the firmware tables of revision 2 and later, which
/// is the one with wide table addresses.
#[must_use]
pub fn acpi2_guid() -> (guid: Guid)
    ensures
        guid == acpi2(),
{
    Guid {
        a: 0x8868_e871,
        b: 0xe4f1,
        c: 0x11d3,
        d: [0xbc, 0x22, 0x00, 0x80, 0xc7, 0x3c, 0x88, 0x81],
    }
}

/// See [`acpi2_guid`].
pub open spec fn acpi2() -> Guid {
    Guid {
        a: 0x8868_e871,
        b: 0xe4f1,
        c: 0x11d3,
        d: [0xbc, 0x22, 0x00, 0x80, 0xc7, 0x3c, 0x88, 0x81],
    }
}

/// Names the root pointer of the oldest firmware tables.
#[must_use]
pub fn acpi1_guid() -> (guid: Guid)
    ensures
        guid == acpi1(),
{
    Guid {
        a: 0xeb9d_2d30,
        b: 0x2d88,
        c: 0x11d3,
        d: [0x9a, 0x16, 0x00, 0x90, 0x27, 0x3f, 0xc1, 0x4d],
    }
}

/// See [`acpi1_guid`].
pub open spec fn acpi1() -> Guid {
    Guid {
        a: 0xeb9d_2d30,
        b: 0x2d88,
        c: 0x11d3,
        d: [0x9a, 0x16, 0x00, 0x90, 0x27, 0x3f, 0xc1, 0x4d],
    }
}

/// Names the interface to the display.
#[must_use]
pub fn gop_guid() -> (guid: Guid)
    ensures
        guid == (Guid {
            a: 0x9042_a9de,
            b: 0x23dc,
            c: 0x4a38,
            d: [0x96, 0xfb, 0x7a, 0xde, 0xd0, 0x80, 0x51, 0x6a],
        }),
{
    Guid {
        a: 0x9042_a9de,
        b: 0x23dc,
        c: 0x4a38,
        d: [0x96, 0xfb, 0x7a, 0xde, 0xd0, 0x80, 0x51, 0x6a],
    }
}

/// Names the interface through which the loader finds the volume it was itself
/// loaded from.
#[must_use]
pub fn loaded_image_guid() -> (guid: Guid)
    ensures
        guid == (Guid {
            a: 0x5b1b_31a1,
            b: 0x9562,
            c: 0x11d2,
            d: [0x8e, 0x3f, 0x00, 0xa0, 0xc9, 0x69, 0x72, 0x3b],
        }),
{
    Guid {
        a: 0x5b1b_31a1,
        b: 0x9562,
        c: 0x11d2,
        d: [0x8e, 0x3f, 0x00, 0xa0, 0xc9, 0x69, 0x72, 0x3b],
    }
}

/// Names the interface to a file system.
#[must_use]
pub fn simple_fs_guid() -> (guid: Guid)
    ensures
        guid == (Guid {
            a: 0x964e_5b22,
            b: 0x6459,
            c: 0x11d2,
            d: [0x8e, 0x39, 0x00, 0xa0, 0xc9, 0x69, 0x72, 0x3b],
        }),
{
    Guid {
        a: 0x964e_5b22,
        b: 0x6459,
        c: 0x11d2,
        d: [0x8e, 0x39, 0x00, 0xa0, 0xc9, 0x69, 0x72, 0x3b],
    }
}

/// Names the file information that carries the file size.
#[must_use]
pub fn file_info_guid() -> (guid: Guid)
    ensures
        guid == (Guid {
            a: 0x0957_6e92,
            b: 0x6d3f,
            c: 0x11d2,
            d: [0x8e, 0x39, 0x00, 0xa0, 0xc9, 0x69, 0x72, 0x3b],
        }),
{
    Guid {
        a: 0x0957_6e92,
        b: 0x6d3f,
        c: 0x11d2,
        d: [0x8e, 0x39, 0x00, 0xa0, 0xc9, 0x69, 0x72, 0x3b],
    }
}

/// The head of every firmware table.
#[derive(Clone, Copy, Debug, PartialEq, Eq, Structural)]
pub struct TableHeader {
    /// Identifies which table this is.
    pub signature: u64,
    /// Revision of the table layout.
    pub revision: u32,
    /// Size of the whole table in bytes.
    pub header_size: u32,
    /// Checksum of the table with this field zeroed.
    pub crc32: u32,
    /// Reserved, zero.
    pub reserved: u32,
}

/// Allocate pages wherever there are any.
pub const ALLOCATE_ANY_PAGES: u32 = 0;

/// Open a file for reading.
pub const FILE_MODE_READ: u64 = 1;

/// Where the file size stands in the file information, after the size of the
/// information itself.
pub const FILE_INFO_SIZE_OFFSET: usize = 8;

/// One entry of the firmware's memory map.
///
/// The entries of a map lie as far apart as the firmware says, which may be more
/// than this structure takes.
#[derive(Clone, Copy, Debug, PartialEq, Eq, Structural)]
pub struct MemoryDescriptor {
    /// One of [`memory_type`].
    pub ty: u32,
    /// Padding that aligns the fields after it.
    pub pad: u32,
    /// Physical base of the range.
    pub phys_start: u64,
    /// Virtual base, meaningful only once the firmware runs in virtual mode.
    pub virt_start: u64,
    /// Length in pages of the firmware.
    pub pages: u64,
    /// Capability bits.
    pub attribute: u64,
}

/// Bytes of one memory descriptor.
pub const DESCRIPTOR_LEN: usize = 40;

/// Where the type stands in a descriptor.
pub const DESCRIPTOR_TY: usize = 0;

/// Where the padding stands in a descriptor.
pub const DESCRIPTOR_PAD: usize = 4;

/// Where the physical base stands in a descriptor.
pub const DESCRIPTOR_PHYS: usize = 8;

/// Where the virtual base stands in a descriptor.
pub const DESCRIPTOR_VIRT: usize = 16;

/// Where the length stands in a descriptor.
pub const DESCRIPTOR_PAGES: usize = 24;

/// Where the capability bits stand in a descriptor.
pub const DESCRIPTOR_ATTRIBUTE: usize = 32;

impl MemoryDescriptor {
    /// The descriptor whose bytes start at `off`.
    pub open spec fn at(map: Seq<u8>, off: int) -> MemoryDescriptor {
        MemoryDescriptor {
            ty: bytes::le32(map, off + DESCRIPTOR_TY),
            pad: bytes::le32(map, off + DESCRIPTOR_PAD),
            phys_start: bytes::le64(map, off + DESCRIPTOR_PHYS),
            virt_start: bytes::le64(map, off + DESCRIPTOR_VIRT),
            pages: bytes::le64(map, off + DESCRIPTOR_PAGES),
            attribute: bytes::le64(map, off + DESCRIPTOR_ATTRIBUTE),
        }
    }

    /// Read the descriptor at `off` field by field: how the buffer is aligned is
    /// the firmware's business.
    #[must_use]
    pub fn read(map: &[u8], off: usize) -> (descriptor: Option<MemoryDescriptor>)
        ensures
            descriptor == (if off + DESCRIPTOR_LEN <= map@.len() {
                Some(MemoryDescriptor::at(map@, off as int))
            } else {
                None::<MemoryDescriptor>
            }),
    {
        if map.len() < DESCRIPTOR_LEN || off > map.len() - DESCRIPTOR_LEN {
            return None;
        }
        let (Some(ty), Some(pad), Some(phys_start), Some(virt_start), Some(pages), Some(attribute))
            = (
            bytes::u32_at(map, off + DESCRIPTOR_TY),
            bytes::u32_at(map, off + DESCRIPTOR_PAD),
            bytes::u64_at(map, off + DESCRIPTOR_PHYS),
            bytes::u64_at(map, off + DESCRIPTOR_VIRT),
            bytes::u64_at(map, off + DESCRIPTOR_PAGES),
            bytes::u64_at(map, off + DESCRIPTOR_ATTRIBUTE),
        ) else {
            return None;
        };
        Some(MemoryDescriptor { ty, pad, phys_start, virt_start, pages, attribute })
    }
}

/// What the firmware says about a display mode.
#[derive(Clone, Copy, Debug, PartialEq, Eq)]
pub struct GopModeInfo {
    /// Structure version.
    pub version: u32,
    /// Visible width in pixels.
    pub horizontal_resolution: u32,
    /// Visible height in pixels.
    pub vertical_resolution: u32,
    /// One of [`gop_format`].
    pub pixel_format: u32,
    /// Channel masks, meaningful only for [`gop_format::BIT_MASK`].
    pub pixel_information: [u32; 4],
    /// Pixels per scan line, not bytes: the stride is this times four.
    pub pixels_per_scan_line: u32,
}

/// Two identifiers are the same exactly when all their parts are.
pub proof fn law_identifiers_differ_where_a_part_does(g: Guid, h: Guid)
    ensures
        g.same(h) <==> g.a == h.a && g.b == h.b && g.c == h.c && forall|i: int|
            0 <= i < 8 ==> #[trigger] g.d@[i] == h.d@[i],
{
    if g.a == h.a && g.b == h.b && g.c == h.c && forall|i: int|
        0 <= i < 8 ==> #[trigger] g.d@[i] == h.d@[i] {
        assert(g.d@ =~= h.d@);
    }
}

/// The fields of a descriptor lie one after the other, aligned to their size: each
/// is read from its own bytes, wherever the descriptor starts.
pub proof fn law_a_descriptor_is_read_from_its_own_bytes(map: Seq<u8>, off: int)
    ensures
        MemoryDescriptor::at(map, off).ty == bytes::le32(map, off),
        MemoryDescriptor::at(map, off).pad == bytes::le32(map, off + 4),
        MemoryDescriptor::at(map, off).phys_start == bytes::le64(map, off + 8),
        MemoryDescriptor::at(map, off).virt_start == bytes::le64(map, off + 16),
        MemoryDescriptor::at(map, off).pages == bytes::le64(map, off + 24),
        MemoryDescriptor::at(map, off).attribute == bytes::le64(map, off + 32),
{
}

/// The names of the two root pointers are the registered ones, and no identifier
/// is both.
pub proof fn law_the_root_pointers_have_names_of_their_own(g: Guid)
    ensures
        !(g.same(acpi1()) && g.same(acpi2())),
        g.same(acpi2()) <==> g.a == 0x8868_e871 && g.b == 0xe4f1 && g.c == 0x11d3 && g.d@ =~= seq![
            0xbcu8,
            0x22,
            0x00,
            0x80,
            0xc7,
            0x3c,
            0x88,
            0x81,
        ],
        g.same(acpi1()) <==> g.a == 0xeb9d_2d30 && g.b == 0x2d88 && g.c == 0x11d3 && g.d@ =~= seq![
            0x9au8,
            0x16,
            0x00,
            0x90,
            0x27,
            0x3f,
            0xc1,
            0x4d,
        ],
{
    assert(acpi2().d@ =~= seq![0xbcu8, 0x22, 0x00, 0x80, 0xc7, 0x3c, 0x88, 0x81]);
    assert(acpi1().d@ =~= seq![0x9au8, 0x16, 0x00, 0x90, 0x27, 0x3f, 0xc1, 0x4d]);
}

/// A status is an error exactly when its highest bit is set.
pub proof fn law_the_highest_bit_says_error(status: Status, error: bool)
    requires
        call_ensures(is_error, (status,), error),
    ensures
        error <==> status > isize::MAX,
        SUCCESS == 0 && INVALID_PARAMETER == isize::MAX + 3 && BUFFER_TOO_SMALL == isize::MAX + 6,
{
}

/// Every interface of the firmware has the name it is registered under, and no two
/// share one.
pub proof fn law_every_interface_has_its_registered_name(gop: Guid, image: Guid, fs: Guid, info: Guid)
    requires
        call_ensures(gop_guid, (), gop),
        call_ensures(loaded_image_guid, (), image),
        call_ensures(simple_fs_guid, (), fs),
        call_ensures(file_info_guid, (), info),
    ensures
        gop.a == 0x9042_a9de && gop.b == 0x23dc && gop.c == 0x4a38,
        gop.d@ =~= seq![0x96u8, 0xfb, 0x7a, 0xde, 0xd0, 0x80, 0x51, 0x6a],
        image.a == 0x5b1b_31a1 && image.b == 0x9562 && image.c == 0x11d2,
        image.d@ =~= seq![0x8eu8, 0x3f, 0x00, 0xa0, 0xc9, 0x69, 0x72, 0x3b],
        fs.a == 0x964e_5b22 && fs.b == 0x6459 && fs.c == 0x11d2,
        fs.d@ =~= seq![0x8eu8, 0x39, 0x00, 0xa0, 0xc9, 0x69, 0x72, 0x3b],
        info.a == 0x0957_6e92 && info.b == 0x6d3f && info.c == 0x11d2,
        info.d@ =~= seq![0x8eu8, 0x39, 0x00, 0xa0, 0xc9, 0x69, 0x72, 0x3b],
        !gop.same(image) && !gop.same(fs) && !gop.same(info),
        !image.same(fs) && !image.same(info) && !fs.same(info),
{
}

} // verus!
