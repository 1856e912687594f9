//! What the loader hands to the kernel.
//!
//! The firmware knows the memory map, the framebuffer and where its tables are,
//! and it stops answering the moment the kernel takes over. Whatever the kernel
//! needs is collected before that and handed across in the structures here.
use crate::framebuffer;
use vstd::prelude::*;

pub mod free;
pub mod runs;
pub mod summary;

pub use free::{free_runs, largest_free_run, MAX_FREE_RUNS};
pub use summary::{summarise, MemoryStats};

verus! {

/// Virtual base of the linear map of physical memory.
///
/// The loader builds this map and the kernel inherits it, so the constant is one
/// of the terms of the hand-off, as much as any field of [`BootInfo`].
pub const PHYS_MAP_BASE: u64 = 0xFFFF_8000_0000_0000;

/// Virtual base the kernel image is linked at.
pub const KERNEL_VMA: u64 = 0xFFFF_FFFF_8000_0000;

/// The least of a sum and the largest 64-bit value.
pub open spec fn saturated(n: int) -> u64 {
    if n > u64::MAX {
        u64::MAX
    } else {
        n as u64
    }
}

/// The address a physical one is reachable at through the linear map.
///
/// Saturating rather than wrapping: an address so high that the linear map cannot
/// reach it must not silently alias something low.
#[must_use]
pub fn phys_to_virt(phys: u64) -> (virt: u64)
    ensures
        virt == saturated(PHYS_MAP_BASE + phys),
{
    PHYS_MAP_BASE.saturating_add(phys)
}

/// What the firmware said about one range of physical memory.
///
/// Deliberately coarse: the kernel only needs to know what it may take.
#[derive(Clone, Copy, Debug, PartialEq, Eq, Structural)]
pub enum MemoryKind {
    /// Free for the kernel's frame allocator.
    Usable,
    /// Firmware, device registers, or anything else the kernel must never
    /// allocate.
    Reserved,
    /// Holds firmware tables; usable once the kernel has parsed everything it
    /// wants out of them.
    AcpiReclaimable,
    /// Firmware storage that must survive sleep states. Never usable.
    AcpiNvs,
    /// The loader's own image and data, and what it allocated for the kernel.
    LoaderReclaimable,
    /// Physically present but reported bad by the firmware.
    BadMemory,
}

impl MemoryKind {
    /// Whether the frame allocator may take this range immediately at boot.
    ///
    /// The reclaimable kinds are excluded: their names are a statement about the
    /// future.
    #[must_use]
    pub fn usable_at_boot(self) -> (usable: bool)
        ensures
            usable == (self == MemoryKind::Usable),
    {
        match self {
            MemoryKind::Usable => true,
            _ => false,
        }
    }
}

/// One entry of the physical memory map.
#[derive(Clone, Copy, Debug, PartialEq, Eq, Structural)]
pub struct MemoryRegion {
    /// Physical base address.
    pub start: u64,
    /// Length in bytes.
    pub len: u64,
    /// What the firmware said this range is.
    pub kind: MemoryKind,
}

impl MemoryRegion {
    /// Build a region. A length of zero is legal: firmware does emit empty
    /// ranges.
    #[must_use]
    pub fn new(start: u64, len: u64, kind: MemoryKind) -> (region: MemoryRegion)
        ensures
            region == (MemoryRegion { start, len, kind }),
    {
        MemoryRegion { start, len, kind }
    }

    /// One past the last byte, as far as the address space goes.
    pub open spec fn limit(self) -> u64 {
        saturated(self.start + self.len)
    }

    /// One past the last byte, saturating instead of wrapping: a firmware entry
    /// that claims to reach past the end of the address space must not silently
    /// become an empty region.
    #[must_use]
    pub fn end(&self) -> (end: u64)
        ensures
            end == self.limit(),
    {
        self.start.saturating_add(self.len)
    }

    /// Whether this region contains `addr`.
    #[must_use]
    pub fn contains(&self, addr: u64) -> (inside: bool)
        ensures
            inside == (self.start <= addr < self.limit()),
    {
        addr >= self.start && addr < self.end()
    }
}

/// A linear framebuffer the firmware already set up.
#[derive(Clone, Copy, Debug, PartialEq, Eq, Structural)]
pub struct Framebuffer {
    /// Physical base address of the pixel buffer.
    pub phys: u64,
    /// Visible width in pixels.
    pub width: u32,
    /// Visible height in pixels.
    pub height: u32,
    /// Bytes per row, which is more than the visible pixels where the firmware
    /// pads its rows.
    pub stride: u32,
    /// Bits per pixel.
    pub bpp: u32,
    /// Channel order.
    pub format: PixelFormat,
}

impl Framebuffer {
    /// Build a descriptor of a 32-bit framebuffer.
    #[must_use]
    pub fn new(phys: u64, width: u32, height: u32, stride: u32, format: PixelFormat) -> (fb: Framebuffer)
        ensures
            fb == (Framebuffer { phys, width, height, stride, bpp: 32, format }),
    {
        Framebuffer { phys, width, height, stride, bpp: 32, format }
    }

    /// Total bytes the buffer occupies, which is what must be mapped: whole rows,
    /// padding included.
    #[must_use]
    pub fn bytes(&self) -> (total: u64)
        ensures
            total == self.height * self.stride,
    {
        assert(self.height * self.stride <= u32::MAX * u32::MAX) by (nonlinear_arith)
            requires
                self.height <= u32::MAX,
                self.stride <= u32::MAX,
        ;
        self.height as u64 * self.stride as u64
    }

    /// Whether the geometry is self-consistent: not empty, and rows at least as
    /// wide as the visible pixels.
    pub open spec fn sane(self) -> bool {
        self.phys != 0 && self.width > 0 && self.height > 0 && self.stride >= self.width * 4
    }

    /// Whether the geometry is self-consistent. Firmware that reports otherwise is
    /// not to be drawn on.
    #[must_use]
    pub fn is_sane(&self) -> (sane: bool)
        ensures
            sane == self.sane(),
    {
        self.phys != 0 && self.width > 0 && self.height > 0 && self.stride as u64 >= self.width
            as u64 * 4
    }
}

/// What must be mapped is never less than the visible pixels.
pub proof fn law_a_sane_framebuffer_maps_every_visible_pixel(fb: Framebuffer)
    requires
        fb.sane(),
    ensures
        fb.height * fb.stride >= fb.height * (fb.width * 4),
{
    assert(fb.height * fb.stride >= fb.height * (fb.width * 4)) by (nonlinear_arith)
        requires
            fb.stride >= fb.width * 4,
            fb.height >= 0,
    ;
}

/// Channel order of a 32-bit pixel, as the firmware reports it.
#[derive(Clone, Copy, Debug, PartialEq, Eq, Structural)]
pub enum PixelFormat {
    /// Blue in the lowest byte, which nearly every PC reports.
    Bgrx8888,
    /// Red in the lowest byte.
    Rgbx8888,
}

impl PixelFormat {
    /// The same byte order as the drawing code names it.
    ///
    /// The names invert: the firmware names a format by its channels in memory
    /// order, the drawing code by the packed word on a little-endian machine,
    /// whose lowest byte comes first in memory.
    #[must_use]
    pub fn to_framebuffer(self) -> (format: framebuffer::PixelFormat)
        ensures
            format.blue_lowest == (self == PixelFormat::Bgrx8888),
    {
        match self {
            PixelFormat::Bgrx8888 => framebuffer::PixelFormat::xrgb8888(),
            PixelFormat::Rgbx8888 => framebuffer::PixelFormat::xbgr8888(),
        }
    }
}

/// Everything the kernel needs that it cannot discover for itself once the
/// firmware is gone.
#[derive(Clone, Copy, Debug, PartialEq, Eq)]
pub struct BootInfo {
    /// Must equal [`BootInfo::MAGIC`].
    pub magic: u64,
    /// Must equal [`BootInfo::VERSION`].
    pub version: u32,
    /// Number of entries in the memory map.
    pub memory_map_len: u32,
    /// Physical address of the memory map.
    pub memory_map: u64,
    /// The firmware framebuffer, if there was one; its base is 0 if not.
    pub framebuffer: Framebuffer,
    /// Physical address of the root pointer of the firmware tables, or 0.
    pub rsdp: u64,
    /// Physical base of an initial file system the loader placed, or 0.
    pub initrd: u64,
    /// Length of that file system in bytes.
    pub initrd_len: u64,
    /// Physical base of the kernel image as loaded.
    pub kernel_phys: u64,
    /// Bytes of physical memory the kernel image occupies.
    pub kernel_len: u64,
}

/// Why a [`BootInfo`] was rejected.
#[derive(Clone, Copy, Debug, PartialEq, Eq, Structural)]
pub enum BootInfoError {
    /// The magic did not match: this is not a `BootInfo` at all.
    BadMagic,
    /// The magic matched but the version did not: a stale loader or kernel.
    BadVersion,
    /// The memory map is absent or empty; there is nothing to allocate from.
    NoMemoryMap,
}

impl BootInfo {
    /// `"STAROSPC"` as little-endian bytes.
    pub const MAGIC: u64 = 0x4350_534F_5241_5453;

    /// Bumped whenever a field's meaning or position changes.
    pub const VERSION: u32 = 1;

    /// What is wrong with this structure, if anything: the first check that
    /// fails.
    pub open spec fn fault(self) -> Option<BootInfoError> {
        if self.magic != Self::MAGIC {
            Some(BootInfoError::BadMagic)
        } else if self.version != Self::VERSION {
            Some(BootInfoError::BadVersion)
        } else if self.memory_map == 0 || self.memory_map_len == 0 {
            Some(BootInfoError::NoMemoryMap)
        } else {
            None
        }
    }

    /// Check that this structure is one of ours and is self-consistent.
    ///
    /// # Errors
    /// See [`BootInfoError`].
    pub fn validate(&self) -> (verdict: Result<(), BootInfoError>)
        ensures
            verdict == (match self.fault() {
                Some(e) => Err(e),
                None => Ok::<(), BootInfoError>(()),
            }),
    {
        if self.magic != Self::MAGIC {
            return Err(BootInfoError::BadMagic);
        }
        if self.version != Self::VERSION {
            return Err(BootInfoError::BadVersion);
        }
        if self.memory_map == 0 || self.memory_map_len == 0 {
            return Err(BootInfoError::NoMemoryMap);
        }
        Ok(())
    }

    /// The framebuffer, if the firmware provided a usable one.
    #[must_use]
    pub fn framebuffer(&self) -> (fb: Option<Framebuffer>)
        ensures
            fb == (if self.framebuffer.sane() {
                Some(self.framebuffer)
            } else {
                None::<Framebuffer>
            }),
    {
        if self.framebuffer.is_sane() {
            Some(self.framebuffer)
        } else {
            None
        }
    }

    /// The initial file system, as base and length, if one was loaded.
    #[must_use]
    pub fn initrd(&self) -> (place: Option<(u64, u64)>)
        ensures
            place == (if self.initrd != 0 && self.initrd_len != 0 {
                Some((self.initrd, self.initrd_len))
            } else {
                None::<(u64, u64)>
            }),
    {
        if self.initrd != 0 && self.initrd_len != 0 {
            Some((self.initrd, self.initrd_len))
        } else {
            None
        }
    }
}

/// The linear map never reaches an address twice below the point where it runs
/// out: different physical addresses have different virtual ones.
pub proof fn law_the_linear_map_does_not_alias(a: u64, b: u64)
    requires
        PHYS_MAP_BASE + a <= u64::MAX,
        PHYS_MAP_BASE + b <= u64::MAX,
        a != b,
    ensures
        saturated(PHYS_MAP_BASE + a) != saturated(PHYS_MAP_BASE + b),
{
}

/// A physical address below the distance between the two virtual bases is
/// reached below the kernel image, so the linear map of a machine with that much
/// memory does not overlap it.
pub proof fn law_the_linear_map_stays_below_the_kernel_image(phys: u64)
    ensures
        saturated(PHYS_MAP_BASE + phys) < KERNEL_VMA <==> phys < 0x7FFF_8000_0000,
        saturated(PHYS_MAP_BASE + phys) >= PHYS_MAP_BASE,
{
}

/// A region ends as far past its start as it is long, or at the end of the address
/// space if it would run past that.
pub proof fn law_a_region_ends_its_length_past_its_start(region: MemoryRegion)
    ensures
        region.start + region.len <= u64::MAX ==> region.limit() - region.start == region.len,
        region.start + region.len > u64::MAX ==> region.limit() == u64::MAX,
{
}

/// A sum is kept while 64 bits hold it, and becomes the largest value they hold
/// once it is more.
pub proof fn law_a_saturated_sum_never_wraps(n: int)
    requires
        n >= 0,
    ensures
        n <= u64::MAX ==> saturated(n) == n,
        n >= u64::MAX ==> saturated(n) == u64::MAX,
{
}

/// A framebuffer is unfit for use exactly when it has no address, has no pixels,
/// or has rows that run into one another.
pub proof fn law_an_unfit_framebuffer_is_found_out(fb: Framebuffer)
    ensures
        fb.phys == 0 ==> !fb.sane(),
        fb.width == 0 || fb.height == 0 ==> !fb.sane(),
        fb.stride < 4 * fb.width ==> !fb.sane(),
        fb.phys > 0 && fb.width > 0 && fb.height > 0 && fb.stride >= 4 * fb.width ==> fb.sane(),
{
}

/// A hand-off is accepted exactly when it is marked as one, is of this version and
/// brings a memory map that is not empty. A wrong mark is found before a wrong
/// version, and that before a missing map.
pub proof fn law_a_hand_off_is_refused_for_what_is_wrong(info: BootInfo)
    ensures
        info.fault() == Some(BootInfoError::BadMagic) <==> info.magic != BootInfo::MAGIC,
        info.fault() == Some(BootInfoError::BadVersion) <==> info.magic == BootInfo::MAGIC
            && info.version != 1,
        info.fault() == Some(BootInfoError::NoMemoryMap) <==> info.magic == BootInfo::MAGIC
            && info.version == 1 && (info.memory_map == 0 || info.memory_map_len == 0),
        info.fault() is None <==> info.magic == BootInfo::MAGIC && info.version == 1
            && info.memory_map > 0 && info.memory_map_len > 0,
{
}

/// A physical address is reached one fixed distance up, or at the last address of
/// all where that would run past it.
pub proof fn law_the_linear_map_is_one_distance_up(phys: u64, virt: u64)
    requires
        call_ensures(phys_to_virt, (phys,), virt),
    ensures
        phys <= 0x7FFF_FFFF_FFFF ==> virt - phys == 0xFFFF_8000_0000_0000,
        phys > 0x7FFF_FFFF_FFFF ==> virt == u64::MAX,
{
}

/// A region holds the addresses that lie less than its length past its start, but
/// that the last address of all is in none.
pub proof fn law_a_region_holds_its_addresses(region: MemoryRegion, addr: u64, inside: bool)
    requires
        call_ensures(MemoryRegion::contains, (&region, addr), inside),
    ensures
        inside <==> addr < u64::MAX && 0 <= addr - region.start < region.len,
{
}

/// Only memory that is free from the start may be taken at boot.
pub proof fn law_only_free_memory_is_usable_at_boot(kind: MemoryKind, usable: bool)
    requires
        call_ensures(MemoryKind::usable_at_boot, (kind,), usable),
    ensures
        kind == MemoryKind::Usable ==> usable,
        kind == MemoryKind::Reserved || kind == MemoryKind::AcpiReclaimable || kind
            == MemoryKind::AcpiNvs || kind == MemoryKind::LoaderReclaimable || kind
            == MemoryKind::BadMemory ==> !usable,
{
}

} // verus!
