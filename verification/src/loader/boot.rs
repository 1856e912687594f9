//! The decisions of the loader, in the order it takes them.
//!
//! The order is not stylistic. Everything that needs the firmware happens first;
//! the memory map is taken last, because every call to the firmware invalidates
//! its key; and nothing may be allocated between taking it and leaving, which is
//! why the buffers those two steps use are sized before.
use crate::bootinfo::{BootInfo, Framebuffer, PixelFormat};
use crate::elf64;
use crate::elf64::Elf;
use crate::loader::efi;
use crate::loader::efi::{gop_format, GopModeInfo, Guid};
use crate::loader::fs::Loaded;
use crate::loader::memmap;
use crate::loader::pages;
use crate::loader::pages::{Error, PAGE_SIZE};
use crate::loader::paging;
use crate::loader::paging::{
    MapError, PageTables, Place, Rights, Translation, KERNEL_VMA, PHYS_MAP_BASE,
};
use vstd::prelude::*;

pub use crate::loader::run::run;

verus! {

/// One GiB, the granularity the identity and linear maps are rounded to.
pub const GIB: u64 = 0x4000_0000;

/// How much physical address space is mapped at least, however little memory is
/// installed. The interrupt controllers, the timer and the device configuration
/// window all sit just below 4 GiB on every PC.
pub const MIN_MAPPED: u64 = 0x1_0000_0000;

/// Extra descriptors to budget for beyond what the first size query reports:
/// allocating the kernel image and the page tables fragments the map.
pub const MAP_SLACK_DESCRIPTORS: usize = 32;

/// How many times leaving the firmware is tried. A handful: firmware that changes
/// its map on every read will never converge.
pub const EXIT_ATTEMPTS: usize = 8;

/// Bytes of one region in the array that the kernel is handed.
pub const REGION_LEN: usize = 24;

/// One entry of the firmware's list of tables.
#[derive(Clone, Copy, Debug, PartialEq, Eq)]
pub struct ConfigurationTable {
    /// Which table this is.
    pub guid: Guid,
    /// Physical address of the table.
    pub table: u64,
}

/// The root pointer in a list of tables: the first of revision 2, or else the last
/// of the oldest revision, or else `fallback`.
pub open spec fn rsdp_in(entries: Seq<ConfigurationTable>, fallback: u64) -> u64
    decreases entries.len(),
{
    if entries.len() == 0 {
        fallback
    } else if entries[0].guid.same(efi::acpi2()) {
        entries[0].table
    } else if entries[0].guid.same(efi::acpi1()) {
        rsdp_in(entries.drop_first(), entries[0].table)
    } else {
        rsdp_in(entries.drop_first(), fallback)
    }
}

/// Find the root pointer of the firmware tables, preferring the one of revision 2.
/// There may be none, which is 0.
#[must_use]
pub fn find_rsdp(entries: &[ConfigurationTable]) -> (rsdp: u64)
    ensures
        rsdp == rsdp_in(entries@, 0),
{
    let mut fallback: u64 = 0;
    let mut i: usize = 0;
    assert(entries@.skip(0) =~= entries@);
    while i < entries.len()
        invariant
            i <= entries.len(),
            rsdp_in(entries@.skip(i as int), fallback) == rsdp_in(entries@, 0),
        decreases entries.len() - i,
    {
        let e = entries[i];
        assert(entries@.skip(i as int).drop_first() =~= entries@.skip(i + 1));
        if e.guid.is(&efi::acpi2_guid()) {
            return e.table;
        }
        if e.guid.is(&efi::acpi1_guid()) {
            fallback = e.table;
        }
        i = i + 1;
    }
    fallback
}

/// A root pointer of revision 2 wins wherever it stands: the first of them is
/// taken. With none, the last of the oldest revision is taken; with neither, there
/// is no root pointer.
pub proof fn law_the_newer_root_pointer_wins(
    entries: Seq<ConfigurationTable>,
    fallback: u64,
    k: int,
)
    requires
        0 <= k < entries.len(),
    ensures
        entries[k].guid.same(efi::acpi2()) && (forall|j: int|
            0 <= j < k ==> !(#[trigger] entries[j]).guid.same(efi::acpi2())) ==> rsdp_in(
            entries,
            fallback,
        ) == entries[k].table,
        entries[k].guid.same(efi::acpi1()) && (forall|j: int|
            0 <= j < entries.len() ==> !(#[trigger] entries[j]).guid.same(efi::acpi2())) && (
        forall|j: int| k < j < entries.len() ==> !(#[trigger] entries[j]).guid.same(efi::acpi1()))
            ==> rsdp_in(entries, fallback) == entries[k].table,
    decreases entries.len(),
{
    let rest = entries.drop_first();
    assert(forall|j: int| 0 <= j < rest.len() ==> #[trigger] rest[j] == entries[j + 1]);
    if entries[k].guid.same(efi::acpi2()) && (forall|j: int|
        0 <= j < k ==> !(#[trigger] entries[j]).guid.same(efi::acpi2())) {
        if k > 0 {
            law_the_newer_root_pointer_wins(rest, fallback, k - 1);
            law_the_newer_root_pointer_wins(rest, entries[0].table, k - 1);
            assert(rest[k - 1].guid.same(efi::acpi2()));
            assert(forall|j: int|
                0 <= j < k - 1 ==> !(#[trigger] rest[j]).guid.same(efi::acpi2()));
        }
    }
    if entries[k].guid.same(efi::acpi1()) && (forall|j: int|
        0 <= j < entries.len() ==> !(#[trigger] entries[j]).guid.same(efi::acpi2())) && (
    forall|j: int| k < j < entries.len() ==> !(#[trigger] entries[j]).guid.same(efi::acpi1())) {
        assert(forall|j: int|
            0 <= j < rest.len() ==> !(#[trigger] rest[j]).guid.same(efi::acpi2()));
        if k > 0 {
            law_the_newer_root_pointer_wins(rest, fallback, k - 1);
            law_the_newer_root_pointer_wins(rest, entries[0].table, k - 1);
            assert(forall|j: int|
                k - 1 < j < rest.len() ==> !(#[trigger] rest[j]).guid.same(efi::acpi1()));
        } else {
            lemma_no_root_pointer(rest, entries[0].table);
        }
    }
}

proof fn lemma_no_root_pointer(entries: Seq<ConfigurationTable>, fallback: u64)
    requires
        forall|j: int|
            0 <= j < entries.len() ==> !(#[trigger] entries[j]).guid.same(efi::acpi2())
                && !entries[j].guid.same(efi::acpi1()),
    ensures
        rsdp_in(entries, fallback) == fallback,
    decreases entries.len(),
{
    if entries.len() > 0 {
        assert(forall|j: int|
            0 <= j < entries.drop_first().len() ==> #[trigger] entries.drop_first()[j]
                == entries[j + 1]);
        lemma_no_root_pointer(entries.drop_first(), fallback);
    }
}

/// What the firmware says about its display.
#[derive(Clone, Copy, Debug, PartialEq, Eq)]
pub enum GopAnswer {
    /// There is no display protocol.
    NoProtocol,
    /// There is one, and it has no mode.
    NoMode,
    /// The current mode.
    Mode {
        /// Physical base of the linear framebuffer.
        framebuffer_base: u64,
        /// The description of the mode.
        info: GopModeInfo,
    },
}

/// What became of the display.
#[derive(Clone, Copy, Debug, PartialEq, Eq, Structural)]
pub enum GopReport {
    /// There is no display protocol.
    NoProtocol,
    /// There is one, and it has no mode.
    NoMode,
    /// The mode has no linear layout that a console can write.
    UnsupportedFormat,
    /// The geometry is not self-consistent.
    Inconsistent,
    /// The display can be drawn on.
    Found,
}

/// No framebuffer.
pub open spec fn no_framebuffer() -> Framebuffer {
    Framebuffer {
        phys: 0,
        width: 0,
        height: 0,
        stride: 0,
        bpp: 32,
        format: PixelFormat::Bgrx8888,
    }
}

/// The framebuffer that a mode describes, if its pixels can be written.
pub open spec fn framebuffer_of(base: u64, info: GopModeInfo) -> Option<Framebuffer> {
    let format = if info.pixel_format == gop_format::BGR {
        Some(PixelFormat::Bgrx8888)
    } else if info.pixel_format == gop_format::RGB {
        Some(PixelFormat::Rgbx8888)
    } else {
        None
    };
    match format {
        Some(format) => Some(
            Framebuffer {
                phys: base,
                width: info.horizontal_resolution,
                height: info.vertical_resolution,
                stride: (info.pixels_per_scan_line * 4) as u32,
                bpp: 32,
                format,
            },
        ),
        None => None,
    }
}

/// Whether the rows of a mode whose pixels can be written have a length in bytes
/// that a framebuffer can state.
pub open spec fn row_fits(info: GopModeInfo) -> bool {
    info.pixel_format == gop_format::BGR || info.pixel_format == gop_format::RGB
        ==> info.pixels_per_scan_line * 4 <= u32::MAX
}

/// What becomes of a display.
pub open spec fn located(answer: GopAnswer) -> (Framebuffer, GopReport) {
    match answer {
        GopAnswer::NoProtocol => (no_framebuffer(), GopReport::NoProtocol),
        GopAnswer::NoMode => (no_framebuffer(), GopReport::NoMode),
        GopAnswer::Mode { framebuffer_base, info } => match framebuffer_of(
            framebuffer_base,
            info,
        ) {
            None => (no_framebuffer(), GopReport::UnsupportedFormat),
            Some(fb) => if fb.sane() {
                (fb, GopReport::Found)
            } else {
                (no_framebuffer(), GopReport::Inconsistent)
            },
        },
    }
}

/// Describe the display, or report its absence.
///
/// A missing framebuffer is not fatal: a headless machine with a serial console is
/// a perfectly good target. The rows are as long as the firmware says, which is
/// not always the visible width.
#[must_use]
pub fn locate_framebuffer(answer: &GopAnswer) -> (found: (Framebuffer, GopReport))
    requires
        answer matches GopAnswer::Mode { info, .. } ==> row_fits(*info),
    ensures
        found == located(*answer),
{
    let none = Framebuffer::new(0, 0, 0, 0, PixelFormat::Bgrx8888);
    match answer {
        GopAnswer::NoProtocol => (none, GopReport::NoProtocol),
        GopAnswer::NoMode => (none, GopReport::NoMode),
        GopAnswer::Mode { framebuffer_base, info } => {
            let format = if info.pixel_format == gop_format::BGR {
                PixelFormat::Bgrx8888
            } else if info.pixel_format == gop_format::RGB {
                PixelFormat::Rgbx8888
            } else {
                return (none, GopReport::UnsupportedFormat);
            };
            let fb = Framebuffer::new(
                *framebuffer_base,
                info.horizontal_resolution,
                info.vertical_resolution,
                info.pixels_per_scan_line * 4,
                format,
            );
            if !fb.is_sane() {
                return (none, GopReport::Inconsistent);
            }
            (fb, GopReport::Found)
        },
    }
}

/// What a size query of the memory map comes to: how many bytes it takes and how
/// far apart its descriptors are. The firmware answers that the buffer is too
/// small, which is the intended way to ask and no error.
///
/// # Errors
/// Any other failure of the query, and a distance of zero.
pub fn memory_map_size(status: usize, size: usize, descriptor_size: usize) -> (result: Result<
    (usize, usize),
    Error,
>)
    ensures
        result == (if status >= efi::ERROR_BIT && status != efi::BUFFER_TOO_SMALL {
            Err(Error { stage: "GetMemoryMap (size query)", status })
        } else if descriptor_size == 0 {
            Err(Error { stage: "firmware reported a zero descriptor size", status: 0 })
        } else {
            Ok((size, descriptor_size))
        }),
{
    if status != efi::BUFFER_TOO_SMALL {
        if let Err(e) = pages::check("GetMemoryMap (size query)", status) {
            return Err(e);
        }
    }
    if descriptor_size == 0 {
        return Err(Error::own("firmware reported a zero descriptor size"));
    }
    Ok((size, descriptor_size))
}

/// How far the identity and linear maps reach: over all memory, in whole
/// gibibytes, and over the devices below 4 GiB in any case.
///
/// # Errors
/// An impossible distance between descriptors.
pub fn mapped_extent(map: &[u8], descriptor_size: usize) -> (result: Result<u64, Error>)
    ensures
        result == (match memmap::extent_of(map@, descriptor_size as int, GIB as int, true) {
            Err(_) => Err(
                Error { stage: "firmware reported an impossible descriptor size", status: 0 },
            ),
            Ok(top) => Ok(
                if top > MIN_MAPPED {
                    top
                } else {
                    MIN_MAPPED
                },
            ),
        }),
{
    match memmap::highest_ram_address(map, descriptor_size, GIB) {
        Err(_) => Err(Error::own("firmware reported an impossible descriptor size")),
        Ok(top) => Ok(
            if top > MIN_MAPPED {
                top
            } else {
                MIN_MAPPED
            },
        ),
    }
}

/// The part of the framebuffer that needs mapping of its own, as base and length:
/// whole pages, and only where the framebuffer starts above what is mapped anyway.
pub open spec fn window_above(fb: Framebuffer, mapped: u64) -> Option<(u64, u64)> {
    let base = fb.phys - fb.phys % PAGE_SIZE;
    let end = elf64::page_up(fb.phys + fb.height * fb.stride);
    if fb.sane() && base >= mapped {
        Some((base as u64, (end - base) as u64))
    } else {
        None
    }
}

/// The part of the framebuffer that needs mapping of its own. It is reported
/// through the display protocol rather than through the memory map, so nothing
/// ties it to where memory ends.
#[must_use]
pub fn framebuffer_window(fb: &Framebuffer, mapped: u64) -> (window: Option<(u64, u64)>)
    requires
        fb.sane() ==> elf64::page_up(fb.phys + fb.height * fb.stride) <= u64::MAX,
    ensures
        window == window_above(*fb, mapped),
{
    if !fb.is_sane() {
        return None;
    }
    let base = fb.phys - fb.phys % PAGE_SIZE;
    assert(fb.phys + fb.height * fb.stride <= u64::MAX);
    let last = fb.phys + fb.bytes();
    let over = last % PAGE_SIZE;
    let end = if over == 0 {
        last
    } else {
        last + (PAGE_SIZE - over)
    };
    if base >= mapped {
        Some((base, end - base))
    } else {
        None
    }
}

/// How large the buffers for leaving the firmware are.
#[derive(Clone, Copy, Debug, PartialEq, Eq, Structural)]
pub struct Buffers {
    /// Pages for the firmware's memory map.
    pub map_pages: usize,
    /// Bytes of that buffer.
    pub map_capacity: usize,
    /// How many regions the array for the kernel's memory map holds.
    pub region_capacity: usize,
    /// Pages for that array.
    pub region_pages: usize,
}

/// The pages for a memory map with room for it to grow.
pub open spec fn map_pages(map_len: int, descriptor_size: int) -> int {
    pages::pages_holding(map_len + MAP_SLACK_DESCRIPTORS * descriptor_size)
}

/// The buffers for leaving the firmware.
pub open spec fn buffers_for(map_len: int, descriptor_size: int) -> Buffers {
    let pages = map_pages(map_len, descriptor_size);
    let regions = pages * PAGE_SIZE / descriptor_size;
    Buffers {
        map_pages: pages as usize,
        map_capacity: (pages * PAGE_SIZE) as usize,
        region_capacity: regions as usize,
        region_pages: pages::pages_holding(regions * REGION_LEN) as usize,
    }
}

/// Whether the buffers for leaving the firmware fit the address space.
pub open spec fn buffers_fit(map_len: int, descriptor_size: int) -> bool {
    let capacity = map_pages(map_len, descriptor_size) * PAGE_SIZE;
    &&& descriptor_size > 0
    &&& map_len + MAP_SLACK_DESCRIPTORS * descriptor_size <= usize::MAX
    &&& capacity <= usize::MAX
    &&& capacity / descriptor_size * REGION_LEN <= usize::MAX
}

/// Size the buffers for leaving the firmware.
///
/// One region per descriptor is the worst case; joining regions only ever reduces
/// it. Sized this way the conversion cannot fail for want of room once there is no
/// way to allocate more.
#[must_use]
pub fn size_buffers(map_len: usize, descriptor_size: usize) -> (buffers: Buffers)
    requires
        buffers_fit(map_len as int, descriptor_size as int),
    ensures
        buffers == buffers_for(map_len as int, descriptor_size as int),
{
    let wanted = map_len + MAP_SLACK_DESCRIPTORS * descriptor_size;
    let map_pages = pages::pages_for(wanted as u64);
    let map_capacity = map_pages * PAGE_SIZE as usize;
    let region_capacity = map_capacity / descriptor_size;
    assert(region_capacity <= map_capacity) by (nonlinear_arith)
        requires
            region_capacity == map_capacity / descriptor_size,
            descriptor_size > 0,
    ;
    let region_bytes = region_capacity * REGION_LEN;
    let region_pages = pages::pages_for(region_bytes as u64);
    Buffers { map_pages, map_capacity, region_capacity, region_pages }
}

/// The array for the kernel's memory map never runs out: a memory map that fits
/// its buffer has no more regions than the array holds.
pub proof fn law_the_region_array_never_runs_out(map: Seq<u8>, stride: int, capacity: int)
    requires
        stride > 0,
        map.len() <= capacity,
    ensures
        memmap::regions_of(map, stride, memmap::descriptor_count(map, stride)).len() <= capacity
            / stride,
{
    let count = memmap::descriptor_count(map, stride);
    memmap::law_the_reported_room_is_what_is_needed(map, stride, 0, count);
    assert(map.len() as int / stride <= capacity / stride) by {
        vstd::arithmetic::div_mod::lemma_div_is_ordered(map.len() as int, capacity, stride);
    }
}

/// What an attempt to leave the firmware leads to.
#[derive(Clone, Copy, Debug, PartialEq, Eq)]
pub enum ExitStep {
    /// The firmware is gone.
    Left,
    /// The memory map has changed since it was read: read it again and try again.
    Retry,
    /// There is no point in trying again.
    Failed(Error),
}

/// What attempt number `attempt` to leave the firmware leads to. A stale key is
/// the expected outcome, not an error, and worth a few attempts.
#[must_use]
pub fn exit_step(attempt: usize, status: usize) -> (step: ExitStep)
    ensures
        step == (if status == efi::SUCCESS {
            ExitStep::Left
        } else if status == efi::INVALID_PARAMETER && attempt < EXIT_ATTEMPTS {
            ExitStep::Retry
        } else {
            ExitStep::Failed(Error { stage: "ExitBootServices", status })
        }),
{
    if status == efi::SUCCESS {
        return ExitStep::Left;
    }
    if status != efi::INVALID_PARAMETER || attempt >= EXIT_ATTEMPTS {
        return ExitStep::Failed(Error::efi("ExitBootServices", status));
    }
    ExitStep::Retry
}

/// The structure the kernel is handed.
#[must_use]
pub fn hand_off(
    regions_phys: u64,
    count: usize,
    framebuffer: Framebuffer,
    rsdp: u64,
    initrd: Option<Loaded>,
    kernel_phys: u64,
    kernel_len: u64,
) -> (info: BootInfo)
    requires
        count <= u32::MAX,
    ensures
        info == (BootInfo {
            magic: BootInfo::MAGIC,
            version: BootInfo::VERSION,
            memory_map_len: count as u32,
            memory_map: regions_phys,
            framebuffer,
            rsdp,
            initrd: match initrd {
                Some(file) => file.phys,
                None => 0,
            },
            initrd_len: match initrd {
                Some(file) => file.len,
                None => 0,
            },
            kernel_phys,
            kernel_len,
        }),
        info.fault() is None <==> regions_phys != 0 && count != 0,
{
    let (initrd, initrd_len) = match initrd {
        Some(file) => (file.phys, file.len),
        None => (0, 0),
    };
    BootInfo {
        magic: BootInfo::MAGIC,
        version: BootInfo::VERSION,
        memory_map_len: count as u32,
        memory_map: regions_phys,
        framebuffer,
        rsdp,
        initrd,
        initrd_len,
        kernel_phys,
        kernel_len,
    }
}

/// Why a kernel image is not one this loader can place: the first thing that is
/// wrong with it, and the stage that it is reported as.
pub open spec fn kernel_fault(image: Seq<u8>) -> Option<Seq<char>> {
    match elf64::header_fault(image) {
        Some(e) => Some(e.reason()),
        None => match elf64::span_of(elf64::loadable_in(image)) {
            Err(e) => Some(e.reason()),
            Ok((base, _)) => if base != KERNEL_VMA {
                Some("kernel image is not linked at the expected base"@)
            } else {
                None
            },
        },
    }
}

/// Open a kernel image: the image, and how many bytes of memory it needs.
///
/// # Errors
/// Anything wrong with the image, and one that is linked anywhere but where the
/// kernel is mapped: it would run at an address its own code does not believe in.
pub fn open_kernel(image: &[u8]) -> (result: Result<(Elf, u64), Error>)
    ensures
        match result {
            Err(e) => e.status == 0 && kernel_fault(image@) == Some(e.stage@),
            Ok((elf, size)) => {
                &&& kernel_fault(image@) is None
                &&& elf.wf()
                &&& elf.image@ == image@
                &&& elf.entry == crate::bytes::le64(image@, 24)
                &&& elf.loadable() == elf64::loadable_in(image@)
                &&& elf64::span_of(elf.loadable()) == Ok::<(u64, u64), elf64::ElfError>(
                    (KERNEL_VMA, size),
                )
            },
        },
{
    let elf = match Elf::parse(image) {
        Ok(elf) => elf,
        Err(e) => {
            return Err(Error::own(e.as_str()));
        },
    };
    match elf.load_span() {
        Err(e) => Err(Error::own(e.as_str())),
        Ok((base, size)) => {
            if base != KERNEL_VMA {
                return Err(Error::own("kernel image is not linked at the expected base"));
            }
            Ok((elf, size))
        },
    }
}

/// The rights a segment is mapped with: never both writing and executing.
pub open spec fn rights_for(r: elf64::Rights) -> Rights {
    if r.execute {
        Rights { write: false, execute: true }
    } else {
        Rights { write: r.write, execute: false }
    }
}

/// The rights a segment is mapped with.
#[must_use]
pub fn segment_rights(r: elf64::Rights) -> (rights: Rights)
    ensures
        rights == rights_for(r),
{
    if r.execute {
        Rights::rx()
    } else if r.write {
        Rights::rw()
    } else {
        Rights::ro()
    }
}

/// Nothing of the kernel is ever mapped both writable and executable.
pub proof fn law_no_segment_is_mapped_writable_and_executable(r: elf64::Rights)
    ensures
        !(rights_for(r).write && rights_for(r).execute),
{
}

/// Why a kernel could not be loaded.
#[derive(Clone, Copy, Debug, PartialEq, Eq, Structural)]
pub enum LoadError {
    /// A segment asks to be both writable and executable.
    WritableAndExecutable,
    /// A segment could not be mapped.
    Mapping(MapError),
}

impl LoadError {
    /// The stage a failure is reported as.
    pub open spec fn text(self) -> Seq<char> {
        match self {
            LoadError::WritableAndExecutable =>
                "kernel image contains a writable+executable segment"@,
            LoadError::Mapping(MapError::Misaligned) => "misaligned mapping request"@,
            LoadError::Mapping(MapError::Collides) =>
                "mapping collides with an existing large page"@,
            LoadError::Mapping(MapError::OutOfFrames) => "allocate page table"@,
        }
    }

    /// The stage a failure is reported as.
    #[must_use]
    pub fn stage(self) -> (text: &'static str)
        ensures
            text@ == self.text(),
    {
        match self {
            LoadError::WritableAndExecutable =>
                "kernel image contains a writable+executable segment",
            LoadError::Mapping(e) => e.stage(),
        }
    }
}

/// Some bytes with others written over them from `at` on.
pub open spec fn written(block: Seq<u8>, at: int, file: Seq<u8>) -> Seq<u8> {
    Seq::new(
        block.len(),
        |i: int|
            if at <= i < at + file.len() {
                file[i - at]
            } else {
                block[i]
            },
    )
}

/// A block of memory with the bytes of the first `n` segments in their places.
pub open spec fn filled(
    segments: Seq<Result<elf64::Placed, elf64::ElfError>>,
    n: nat,
    block: Seq<u8>,
) -> Seq<u8>
    decreases n,
{
    if n == 0 {
        block
    } else {
        let s = segments[n - 1]->Ok_0;
        written(filled(segments, (n - 1) as nat, block), s.vaddr - KERNEL_VMA, s.file)
    }
}

/// Bytes of the whole pages that a segment occupies.
pub open spec fn paged_len(s: elf64::Placed) -> int {
    pages::pages_holding(s.memsz as int) * PAGE_SIZE
}

/// Where a segment is placed.
pub open spec fn placed(s: elf64::Placed, kernel_phys: int) -> int {
    kernel_phys + (s.vaddr - KERNEL_VMA)
}

/// What the processor makes of an address once the first `n` segments are mapped:
/// it leads into the last of them whose pages hold it, or else where it led before.
pub open spec fn leads(
    segments: Seq<Result<elf64::Placed, elf64::ElfError>>,
    n: nat,
    kernel_phys: int,
    before: PageTables,
    v: u64,
) -> Option<Translation>
    decreases n,
{
    if n == 0 {
        before.translate(v)
    } else {
        let s = segments[n - 1]->Ok_0;
        let phys = placed(s, kernel_phys);
        let off = paging::offset(v, s.vaddr);
        if off < paged_len(s) {
            Some(
                Translation {
                    phys: phys + off,
                    rights: rights_for(s.rights),
                    size: PAGE_SIZE as int,
                },
            )
        } else {
            leads(segments, (n - 1) as nat, kernel_phys, before, v)
        }
    }
}

/// The places at which the first `n` segments need tables.
pub open spec fn kernel_places(
    segments: Seq<Result<elf64::Placed, elf64::ElfError>>,
    n: nat,
    kernel_phys: int,
) -> Set<Place>
    decreases n,
{
    if n == 0 {
        Set::empty()
    } else {
        let s = segments[n - 1]->Ok_0;
        kernel_places(segments, (n - 1) as nat, kernel_phys) + paging::paths(
            0,
            s.vaddr as int,
            placed(s, kernel_phys),
            paged_len(s),
        )
    }
}

/// The tables that the first `n` segments lack.
pub open spec fn lacking(
    tables: PageTables,
    segments: Seq<Result<elf64::Placed, elf64::ElfError>>,
    n: nat,
    kernel_phys: int,
) -> Set<Place> {
    kernel_places(segments, n, kernel_phys).difference(tables.taken())
}

/// Whether none of the first `n` segments is both writable and executable.
pub open spec fn none_wx(segments: Seq<Result<elf64::Placed, elf64::ElfError>>, n: nat) -> bool {
    forall|i: int|
        0 <= i < n ==> !((#[trigger] segments[i])->Ok_0.rights.write
            && segments[i]->Ok_0.rights.execute)
}

/// A segment of an image lies in its block, whole pages included.
proof fn lemma_segment_fits(elf: Elf, size: u64, k: int)
    requires
        elf64::span_of(elf.loadable()) == Ok::<(u64, u64), elf64::ElfError>((KERNEL_VMA, size)),
        0 <= k < elf.loadable().len(),
    ensures
        elf.loadable()[k] is Ok,
        ({
            let s = elf.loadable()[k]->Ok_0;
            &&& KERNEL_VMA <= s.vaddr
            &&& s.vaddr + paged_len(s) <= KERNEL_VMA + size
            &&& s.file.len() <= s.memsz <= paged_len(s)
            &&& s.vaddr % PAGE_SIZE == 0
            &&& size <= 0x8000_0000
        }),
{
    elf64::law_the_load_span_covers_every_segment(elf.loadable(), KERNEL_VMA, size);
    elf64::law_the_load_span_is_whole_pages(elf, KERNEL_VMA, size);
    elf64::law_segments_are_aligned_and_inside_the_image(
        elf.image@,
        elf.phoff as int,
        elf.phentsize as int,
        elf.phnum as int,
        0,
        k,
    );
    let s = elf.loadable()[k]->Ok_0;
    let end = s.vaddr + s.memsz;
    let p = pages::pages_holding(s.memsz as int);
    let top = (KERNEL_VMA + size) / PAGE_SIZE as int;
    let v = s.vaddr as int / PAGE_SIZE as int;
    assert(KERNEL_VMA + size == top * PAGE_SIZE);
    assert(s.vaddr == v * PAGE_SIZE);
    assert(end <= top * PAGE_SIZE);
    assert(v + p <= top);
}

/// Put the bytes of a segment where they go.
fn put(block: &mut [u8], at: usize, file: &[u8])
    requires
        at + file@.len() <= old(block)@.len(),
    ensures
        final(block)@ == written(old(block)@, at as int, file@),
{
    let mut i: usize = 0;
    while i < file.len()
        invariant
            i <= file.len(),
            block@.len() == old(block)@.len(),
            at + file@.len() <= block.len(),
            forall|j: int|
                0 <= j < block@.len() ==> #[trigger] block@[j] == (if at <= j < at + i {
                    file@[j - at]
                } else {
                    old(block)@[j]
                }),
        decreases file.len() - i,
    {
        block[at + i] = file[i];
        i = i + 1;
    }
    assert(block@ =~= written(old(block)@, at as int, file@));
}

/// Load a kernel: put the bytes of every segment where they go in the block of
/// memory at `kernel_phys`, and map every segment with its rights.
///
/// The block was cleared when it was allocated, so the part of a segment that the
/// file does not supply is zero already.
///
/// # Errors
/// A segment that is both writable and executable, and a refused mapping.
pub fn load_kernel(
    elf: &Elf,
    size: u64,
    kernel_phys: u64,
    block: &mut [u8],
    tables: &mut PageTables,
    spare: &mut Vec<u64>,
) -> (result: Result<(), LoadError>)
    requires
        elf.wf(),
        elf64::span_of(elf.loadable()) == Ok::<(u64, u64), elf64::ElfError>((KERNEL_VMA, size)),
        old(block)@.len() == size,
        kernel_phys % PAGE_SIZE == 0,
        kernel_phys + size <= 0x10_0000_0000_0000,
        old(tables).wf(),
        old(tables).can_take(old(spare)@),
    ensures
        final(tables).wf(),
        final(tables).can_take(final(spare)@),
        final(tables).grew(*old(tables), old(spare)@, final(spare)@),
        ({
            let segments = elf.loadable();
            match result {
                Ok(()) => {
                    &&& none_wx(segments, segments.len())
                    &&& final(block)@ == filled(segments, segments.len(), old(block)@)
                    &&& has_come(
                        *final(tables),
                        final(spare)@,
                        *old(tables),
                        old(spare)@,
                        segments,
                        segments.len(),
                        kernel_phys,
                    )
                },
                Err(LoadError::WritableAndExecutable) => exists|k: nat| #[trigger]
                    none_wx(segments, k) && k < segments.len() && !none_wx(segments, k + 1)
                        && final(block)@ == filled(segments, k, old(block)@) && has_come(
                        *final(tables),
                        final(spare)@,
                        *old(tables),
                        old(spare)@,
                        segments,
                        k,
                        kernel_phys,
                    ),
                Err(LoadError::Mapping(e)) => {
                    &&& exists|k: nat, mid: PageTables, held: Seq<u64>|
                        {
                            &&& k < segments.len()
                            &&& none_wx(segments, k + 1)
                            &&& final(block)@ == filled(segments, k + 1, old(block)@)
                            &&& has_come(
                                mid,
                                held,
                                *old(tables),
                                old(spare)@,
                                segments,
                                k,
                                kernel_phys,
                            )
                            &&& #[trigger] refused(
                                *final(tables),
                                final(spare)@,
                                mid,
                                held,
                                segments,
                                k,
                                kernel_phys,
                                e,
                            )
                        }
                    &&& e == MapError::OutOfFrames ==> final(spare)@.len() == 0
                        && final(tables).ran_out(
                        *old(tables),
                        kernel_places(segments, segments.len(), kernel_phys as int),
                        old(spare)@.len(),
                    )
                },
            }
        }),
{
    let mut walk = elf.segments();
    let ghost segments = elf.loadable();
    let ghost mut k: nat = 0;
    proof {
        assert(segments.skip(0) =~= segments);
        assert(tables.added(*old(tables)) =~= Set::empty());
        assert(lacking(*old(tables), segments, 0, kernel_phys as int) =~= Set::empty());
        paging::lemma_takes_nothing(*old(tables), spare@);
    }
    loop
        invariant
            elf.wf(),
            walk.wf(),
            segments == elf.loadable(),
            elf64::span_of(segments) == Ok::<(u64, u64), elf64::ElfError>((KERNEL_VMA, size)),
            block@.len() == size,
            old(block)@.len() == size,
            kernel_phys % PAGE_SIZE == 0,
            kernel_phys + size <= 0x10_0000_0000_0000,
            tables.wf(),
            tables.can_take(spare@),
            k <= segments.len(),
            walk.remaining() == segments.skip(k as int),
            none_wx(segments, k),
            block@ == filled(segments, k, old(block)@),
            has_come(*tables, spare@, *old(tables), old(spare)@, segments, k, kernel_phys),
        ensures
            k == segments.len(),
            block@.len() == size,
            tables.wf(),
            tables.can_take(spare@),
            none_wx(segments, k),
            block@ == filled(segments, k, old(block)@),
            has_come(*tables, spare@, *old(tables), old(spare)@, segments, k, kernel_phys),
        decreases walk.phnum - walk.index,
    {
        match walk.next() {
            None => {
                break;
            },
            Some(Err(_)) => {
                proof {
                    lemma_segment_fits(*elf, size, k as int);
                }
                return Err(LoadError::WritableAndExecutable);
            },
            Some(Ok(segment)) => {
                proof {
                    lemma_segment_fits(*elf, size, k as int);
                    assert(segments.skip(k as int).drop_first() =~= segments.skip((k + 1) as int));
                    assert(segments[k as int] == segments.skip(k as int)[0]);
                    assert(segment@ == segments[k as int]->Ok_0);
                }
                if segment.rights.is_wx() {
                    assert(!none_wx(segments, k + 1));
                    return Err(LoadError::WritableAndExecutable);
                }
                let at = segment.vaddr - KERNEL_VMA;
                put(block, at as usize, segment.file);
                let ghost mid = *tables;
                let ghost held = spare@;
                let rights = segment_rights(segment.rights);
                let len = segment.pages() * PAGE_SIZE;
                match tables.map_small(spare, segment.vaddr, kernel_phys + at, len, rights) {
                    Ok(()) => {
                        proof {
                            lemma_one_more(
                                *tables,
                                spare@,
                                mid,
                                held,
                                *old(tables),
                                old(spare)@,
                                segments,
                                k,
                                kernel_phys,
                                len,
                            );
                        }
                    },
                    Err(e) => {
                        proof {
                            assert(refused(
                                *tables,
                                spare@,
                                mid,
                                held,
                                segments,
                                k,
                                kernel_phys,
                                e,
                            ));
                            lemma_refused(
                                *tables,
                                spare@,
                                mid,
                                held,
                                *old(tables),
                                old(spare)@,
                                segments,
                                k,
                                kernel_phys,
                                e,
                            );
                        }
                        return Err(LoadError::Mapping(e));
                    },
                }
                proof {
                    k = k + 1;
                }
            },
        }
    }
    Ok(())
}

/// Whether some tables lead where the first `n` segments are, and elsewhere where
/// they led before.
pub open spec fn hold(
    tables: PageTables,
    segments: Seq<Result<elf64::Placed, elf64::ElfError>>,
    n: nat,
    kernel_phys: u64,
    before: PageTables,
) -> bool {
    forall|v: u64| #[trigger]
        tables.translate(v) == leads(segments, n, kernel_phys as int, before, v)
}

/// Whether `now` is what `before` becomes when the first `n` segments are mapped
/// with spare frames of which `had` became `left`: it leads where they are, and the
/// tables that they lacked have been made, in those frames, and no others.
pub open spec fn has_come(
    now: PageTables,
    left: Seq<u64>,
    before: PageTables,
    had: Seq<u64>,
    segments: Seq<Result<elf64::Placed, elf64::ElfError>>,
    n: nat,
    kernel_phys: u64,
) -> bool {
    &&& now.wf()
    &&& now.grew(before, had, left)
    &&& now.added(before) == lacking(before, segments, n, kernel_phys as int)
    &&& hold(now, segments, n, kernel_phys, before)
}

/// Whether segment `k` is refused a mapping in `mid` with the spare frames `held`,
/// which leaves `now` and `left`.
pub open spec fn refused(
    now: PageTables,
    left: Seq<u64>,
    mid: PageTables,
    held: Seq<u64>,
    segments: Seq<Result<elf64::Placed, elf64::ElfError>>,
    k: nat,
    kernel_phys: u64,
    e: MapError,
) -> bool {
    let s = segments[k as int]->Ok_0;
    now.outcome(
        0,
        mid,
        held,
        left,
        s.vaddr,
        placed(s, kernel_phys as int) as u64,
        paged_len(s) as u64,
        rights_for(s.rights),
        Err(e),
    )
}

/// The places of some segments are among those of more of them.
proof fn lemma_kernel_places(
    segments: Seq<Result<elf64::Placed, elf64::ElfError>>,
    k: nat,
    n: nat,
    kernel_phys: int,
)
    requires
        k <= n,
    ensures
        kernel_places(segments, k, kernel_phys).subset_of(
            kernel_places(segments, n, kernel_phys),
        ),
        kernel_places(segments, n, kernel_phys).finite(),
    decreases n,
{
    if n > 0 {
        let s = segments[n - 1]->Ok_0;
        paging::lemma_paths_finite(
            0,
            s.vaddr as int,
            placed(s, kernel_phys),
            paged_len(s),
        );
        if k < n {
            lemma_kernel_places(segments, k, (n - 1) as nat, kernel_phys);
        } else {
            lemma_kernel_places(segments, (n - 1) as nat, (n - 1) as nat, kernel_phys);
        }
    }
}

/// One more segment mapped.
proof fn lemma_one_more(
    now: PageTables,
    left: Seq<u64>,
    mid: PageTables,
    held: Seq<u64>,
    before: PageTables,
    had: Seq<u64>,
    segments: Seq<Result<elf64::Placed, elf64::ElfError>>,
    k: nat,
    kernel_phys: u64,
    len: u64,
)
    requires
        k < segments.len(),
        len == paged_len(segments[k as int]->Ok_0),
        segments[k as int]->Ok_0.vaddr >= KERNEL_VMA,
        placed(segments[k as int]->Ok_0, kernel_phys as int) <= u64::MAX,
        has_come(mid, held, before, had, segments, k, kernel_phys),
        now.wf(),
        ({
            let s = segments[k as int]->Ok_0;
            now.outcome(
                0,
                mid,
                held,
                left,
                s.vaddr,
                placed(s, kernel_phys as int) as u64,
                len,
                rights_for(s.rights),
                Ok(()),
            )
        }),
    ensures
        has_come(now, left, before, had, segments, k + 1, kernel_phys),
{
    let s = segments[k as int]->Ok_0;
    let phys = placed(s, kernel_phys as int);
    paging::lemma_grew(now, mid, before, had, held, left);
    paging::lemma_grew_taken(mid, before, had, held);
    paging::lemma_needed_paths(0, mid, s.vaddr as int, phys, len as int);
    assert(now.added(before) =~= lacking(before, segments, k + 1, kernel_phys as int));
    assert forall|v: u64| #[trigger]
        now.translate(v) == leads(segments, k + 1, kernel_phys as int, before, v) by {
        assert(mid.translate(v) == leads(segments, k, kernel_phys as int, before, v));
        paging::lemma_small(s.vaddr as int, phys, len as int, paging::offset(v, s.vaddr));
    }
}

/// A segment refused for want of frames: there are tables for some of what the
/// kernel needs, and not for all of it.
proof fn lemma_refused(
    now: PageTables,
    left: Seq<u64>,
    mid: PageTables,
    held: Seq<u64>,
    before: PageTables,
    had: Seq<u64>,
    segments: Seq<Result<elf64::Placed, elf64::ElfError>>,
    k: nat,
    kernel_phys: u64,
    e: MapError,
)
    requires
        k < segments.len(),
        segments[k as int]->Ok_0.vaddr >= KERNEL_VMA,
        0 <= paged_len(segments[k as int]->Ok_0) <= u64::MAX,
        placed(segments[k as int]->Ok_0, kernel_phys as int) <= u64::MAX,
        has_come(mid, held, before, had, segments, k, kernel_phys),
        refused(now, left, mid, held, segments, k, kernel_phys, e),
    ensures
        now.grew(before, had, left),
        e == MapError::OutOfFrames ==> left.len() == 0 && now.ran_out(
            before,
            kernel_places(segments, segments.len(), kernel_phys as int),
            had.len(),
        ),
{
    paging::lemma_grew(now, mid, before, had, held, left);
    if e == MapError::OutOfFrames {
        let s = segments[k as int]->Ok_0;
        let phys = placed(s, kernel_phys as int);
        let own = paging::paths(0, s.vaddr as int, phys, paged_len(s));
        let all = kernel_places(segments, segments.len(), kernel_phys as int);
        paging::lemma_needed_paths(0, mid, s.vaddr as int, phys, paged_len(s));
        lemma_kernel_places(segments, k, segments.len(), kernel_phys as int);
        lemma_kernel_places(segments, k + 1, segments.len(), kernel_phys as int);
        assert(own.subset_of(kernel_places(segments, k + 1, kernel_phys as int)));
        assert(now.added(before).subset_of(all));
        let x = paging::lemma_lacks_one(own.difference(now.taken()));
        paging::lemma_ran_out(now, before, all, had.len(), x);
    }
}

/// Whether the pages of no two segments share an address.
pub open spec fn segments_apart(segments: Seq<Result<elf64::Placed, elf64::ElfError>>) -> bool {
    forall|i: int, j: int|
        0 <= i < j < segments.len() ==> {
            let a = (#[trigger] segments[i])->Ok_0;
            let b = (#[trigger] segments[j])->Ok_0;
            a.vaddr + paged_len(a) <= b.vaddr || b.vaddr + paged_len(b) <= a.vaddr
        }
}

/// An address that no earlier segment holds leads where it led before.
proof fn lemma_leads_before(
    segments: Seq<Result<elf64::Placed, elf64::ElfError>>,
    n: nat,
    kernel_phys: int,
    before: PageTables,
    v: u64,
)
    requires
        n <= segments.len(),
        v >= KERNEL_VMA,
        forall|i: int|
            0 <= i < n ==> {
                let s = (#[trigger] segments[i])->Ok_0;
                &&& KERNEL_VMA <= s.vaddr
                &&& s.vaddr + paged_len(s) <= 0x1_0000_0000_0000_0000
                &&& v < s.vaddr || s.vaddr + paged_len(s) <= v
            },
    ensures
        leads(segments, n, kernel_phys, before, v) == before.translate(v),
    decreases n,
{
    if n > 0 {
        let s = segments[n - 1]->Ok_0;
        lemma_leads_before(segments, (n - 1) as nat, kernel_phys, before, v);
        if v < s.vaddr {
            lemma_offset_is(v, s.vaddr, -1, v - s.vaddr + 0x1_0000_0000_0000);
        } else {
            lemma_offset_is(v, s.vaddr, 0, v - s.vaddr);
        }
    }
}

/// A kernel is not refused a mapping where there are as many spare frames as tables
/// that it lacks, its segments share no page, and nothing is mapped yet where they
/// go: whichever segment it has come to, that one is granted.
pub proof fn law_a_kernel_with_frames_is_loaded(
    now: PageTables,
    left: Seq<u64>,
    before: PageTables,
    had: Seq<u64>,
    segments: Seq<Result<elf64::Placed, elf64::ElfError>>,
    k: nat,
    kernel_phys: u64,
)
    requires
        k < segments.len(),
        has_come(now, left, before, had, segments, k, kernel_phys),
        had.len() >= lacking(before, segments, segments.len(), kernel_phys as int).len(),
        kernel_phys % PAGE_SIZE == 0,
        segments_apart(segments),
        forall|i: int|
            0 <= i < segments.len() ==> {
                let s = (#[trigger] segments[i])->Ok_0;
                &&& KERNEL_VMA <= s.vaddr
                &&& s.vaddr % PAGE_SIZE == 0
                &&& s.vaddr + paged_len(s) <= 0x1_0000_0000_0000_0000
                &&& placed(s, kernel_phys as int) + paged_len(s) <= 0x10_0000_0000_0000
            },
        forall|v: u64| v >= KERNEL_VMA ==> #[trigger] before.translate(v) is None,
    ensures
        ({
            let s = segments[k as int]->Ok_0;
            now.verdict(
                0,
                left.len(),
                s.vaddr,
                placed(s, kernel_phys as int) as u64,
                paged_len(s) as u64,
            ) is Ok
        }),
{
    let s = segments[k as int]->Ok_0;
    let phys = placed(s, kernel_phys as int);
    let own = paging::paths(0, s.vaddr as int, phys, paged_len(s));
    let lacks = own.difference(now.taken());
    let so_far = lacking(before, segments, k, kernel_phys as int);
    let all = lacking(before, segments, segments.len(), kernel_phys as int);
    paging::lemma_paths_finite(0, s.vaddr as int, phys, paged_len(s));
    paging::lemma_grew_taken(now, before, had, left);
    lemma_kernel_places(segments, k, segments.len(), kernel_phys as int);
    lemma_kernel_places(segments, k + 1, segments.len(), kernel_phys as int);
    assert(own.subset_of(kernel_places(segments, k + 1, kernel_phys as int)));
    assert(lacks.disjoint(so_far));
    assert((lacks + so_far).subset_of(all));
    vstd::set_lib::lemma_set_disjoint_lens(lacks, so_far);
    vstd::set_lib::lemma_len_subset(lacks + so_far, all);
    assert forall|v: u64| s.vaddr <= v < s.vaddr + paged_len(s) implies #[trigger] now.translate(
        v,
    ) is None by {
        assert forall|i: int| 0 <= i < k implies ({
            let t = (#[trigger] segments[i])->Ok_0;
            v < t.vaddr || t.vaddr + paged_len(t) <= v
        }) by {
            assert(segments[k as int]->Ok_0 == s);
        }
        lemma_leads_before(segments, k, kernel_phys as int, before, v);
        assert(before.translate(v) is None);
    }
    paging::law_a_request_with_frames_is_granted(
        0,
        now,
        left.len(),
        s.vaddr,
        phys as u64,
        paged_len(s) as u64,
    );
}

/// Loading a kernel never makes anything writable and executable at once: an
/// address that is both afterwards was both before.
pub proof fn law_loading_keeps_writing_and_executing_apart(
    segments: Seq<Result<elf64::Placed, elf64::ElfError>>,
    n: nat,
    kernel_phys: int,
    before: PageTables,
    v: u64,
)
    requires
        n <= segments.len(),
    ensures
        leads(segments, n, kernel_phys, before, v) matches Some(t) && t.rights.write
            && t.rights.execute ==> leads(segments, n, kernel_phys, before, v)
            == before.translate(v),
    decreases n,
{
    if n > 0 {
        law_loading_keeps_writing_and_executing_apart(
            segments,
            (n - 1) as nat,
            kernel_phys,
            before,
            v,
        );
    }
}

/// The distance from an address of the kernel to where it leads is the same
/// everywhere in the image, whichever segment the address belongs to.
pub proof fn law_the_whole_image_is_moved_by_one_distance(
    segments: Seq<Result<elf64::Placed, elf64::ElfError>>,
    n: nat,
    kernel_phys: int,
    before: PageTables,
    v: u64,
    k: int,
)
    requires
        0 <= k < n <= segments.len(),
        forall|i: int|
            0 <= i < n ==> KERNEL_VMA <= (#[trigger] segments[i])->Ok_0.vaddr
                && segments[i]->Ok_0.vaddr + paged_len(segments[i]->Ok_0)
                <= 0x1_0000_0000_0000_0000,
        segments[k]->Ok_0.vaddr <= v < segments[k]->Ok_0.vaddr + paged_len(segments[k]->Ok_0),
    ensures
        leads(segments, n, kernel_phys, before, v) matches Some(t) && t.phys == kernel_phys + (v
            - KERNEL_VMA),
    decreases n,
{
    let s = segments[n - 1]->Ok_0;
    if k < n - 1 {
        law_the_whole_image_is_moved_by_one_distance(
            segments,
            (n - 1) as nat,
            kernel_phys,
            before,
            v,
            k,
        );
    }
}

/// Where segment bytes end up: byte `x` of segment `k`, as long as no later
/// segment covers it.
proof fn lemma_filled(
    segments: Seq<Result<elf64::Placed, elf64::ElfError>>,
    n: nat,
    block: Seq<u8>,
    i: int,
)
    requires
        0 <= i < block.len(),
    ensures
        filled(segments, n, block).len() == block.len(),
        (forall|j: int|
            0 <= j < n ==> !in_file(#[trigger] segments[j], i)) ==> filled(segments, n, block)[i]
            == block[i],
    decreases n,
{
    if n > 0 {
        lemma_filled(segments, (n - 1) as nat, block, i);
        let s = segments[n - 1];
        assert(!in_file(s, i) ==> filled(segments, n, block)[i] == filled(
            segments,
            (n - 1) as nat,
            block,
        )[i]);
    }
}

/// Whether byte `i` of the kernel's memory comes out of the file part of a
/// segment.
pub open spec fn in_file(s: Result<elf64::Placed, elf64::ElfError>, i: int) -> bool {
    s->Ok_0.vaddr - KERNEL_VMA <= i < s->Ok_0.vaddr - KERNEL_VMA + s->Ok_0.file.len()
}

/// Whether byte `i` of the kernel's memory belongs to a segment.
pub open spec fn in_memory(s: Result<elf64::Placed, elf64::ElfError>, i: int) -> bool {
    s->Ok_0.vaddr - KERNEL_VMA <= i < s->Ok_0.vaddr - KERNEL_VMA + s->Ok_0.memsz
}

/// Every segment ends up in the kernel's memory whole: byte for byte what the file
/// holds of it, and what the block held before, which is zero, for the rest. This
/// is so wherever no other segment claims the same byte.
pub proof fn law_every_segment_is_placed_whole(
    segments: Seq<Result<elf64::Placed, elf64::ElfError>>,
    block: Seq<u8>,
    k: int,
    i: int,
)
    requires
        0 <= k < segments.len(),
        0 <= i < block.len(),
        forall|j: int|
            0 <= j < segments.len() ==> (#[trigger] segments[j])->Ok_0.file.len()
                <= segments[j]->Ok_0.memsz,
        in_memory(segments[k], i),
        forall|j: int|
            0 <= j < segments.len() && j != k ==> !in_memory(#[trigger] segments[j], i),
    ensures
        filled(segments, segments.len(), block)[i] == (if in_file(segments[k], i) {
            segments[k]->Ok_0.file[i - (segments[k]->Ok_0.vaddr - KERNEL_VMA)]
        } else {
            block[i]
        }),
{
    if in_file(segments[k], i) {
        lemma_filled_last(segments, segments.len(), block, k, i);
    } else {
        assert forall|j: int| 0 <= j < segments.len() implies !in_file(
            #[trigger] segments[j],
            i,
        ) by {}
        lemma_filled(segments, segments.len(), block, i);
    }
}

proof fn lemma_filled_last(
    segments: Seq<Result<elf64::Placed, elf64::ElfError>>,
    n: nat,
    block: Seq<u8>,
    k: int,
    i: int,
)
    requires
        0 <= k < n,
        0 <= i < block.len(),
        in_file(segments[k], i),
        forall|j: int| k < j < n ==> !in_file(#[trigger] segments[j], i),
    ensures
        filled(segments, n, block)[i] == segments[k]->Ok_0.file[i - (segments[k]->Ok_0.vaddr
            - KERNEL_VMA)],
    decreases n,
{
    lemma_filled(segments, (n - 1) as nat, block, i);
    if k < n - 1 {
        lemma_filled_last(segments, (n - 1) as nat, block, k, i);
        assert(!in_file(segments[n - 1], i));
    }
}

/// Map physical memory twice: at its own address with the given rights, and in the
/// linear map for reading and writing.
///
/// # Errors
/// A refused mapping, of the first or of the second.
pub fn map_physical(
    tables: &mut PageTables,
    spare: &mut Vec<u64>,
    base: u64,
    len: u64,
    rights: Rights,
) -> (result: Result<(), MapError>)
    requires
        old(tables).wf(),
        old(tables).can_take(old(spare)@),
        PHYS_MAP_BASE + base <= u64::MAX,
        paging::whole_pages(base, base, len) ==> base + len <= 0x8000_0000_0000,
    ensures
        final(tables).wf(),
        final(tables).can_take(final(spare)@),
        final(tables).grew(*old(tables), old(spare)@, final(spare)@),
        match old(tables).verdict(old(tables).largest(), old(spare)@.len(), base, base, len) {
            Err(e) => result == Err::<(), MapError>(e) && final(tables).outcome(
                old(tables).largest(),
                *old(tables),
                old(spare)@,
                final(spare)@,
                base,
                base,
                len,
                rights,
                result,
            ),
            Ok(()) => exists|mid: PageTables, held: Seq<u64>|
                mid.wf() && mid.outcome(
                    old(tables).largest(),
                    *old(tables),
                    old(spare)@,
                    held,
                    base,
                    base,
                    len,
                    rights,
                    Ok(()),
                ) && #[trigger] final(tables).outcome(
                    old(tables).largest(),
                    mid,
                    held,
                    final(spare)@,
                    (PHYS_MAP_BASE + base) as u64,
                    base,
                    len,
                    Rights { write: true, execute: false },
                    result,
                ),
        },
        match result {
            Ok(()) => {
                &&& final(tables).added(*old(tables)) == both_places(
                    old(tables).largest(),
                    base,
                    len,
                ).difference(old(tables).taken())
                &&& forall|v: u64| #[trigger]
                    final(tables).translate(v) == doubly(*old(tables), base, len, rights, v)
            },
            Err(e) => e == MapError::OutOfFrames ==> final(spare)@.len() == 0
                && final(tables).ran_out(
                *old(tables),
                both_places(old(tables).largest(), base, len),
                old(spare)@.len(),
            ),
        },
{
    let ghost before = *tables;
    let ghost g = tables.largest();
    let ghost high = PHYS_MAP_BASE + base;
    let ghost all = both_places(g, base, len);
    let ghost low_paths = paging::paths(g, base as int, base as int, len as int);
    let ghost high_paths = paging::paths(g, high, base as int, len as int);
    proof {
        paging::lemma_paths_finite(g, base as int, base as int, len as int);
        paging::lemma_paths_finite(g, high, base as int, len as int);
        paging::lemma_needed_paths(g, before, base as int, base as int, len as int);
    }
    match tables.map(spare, base, base, len, rights) {
        Err(e) => {
            proof {
                if e == MapError::OutOfFrames {
                    let x = paging::lemma_lacks_one(low_paths.difference(tables.taken()));
                    assert(tables.added(before).subset_of(all));
                    paging::lemma_ran_out(*tables, before, all, old(spare)@.len(), x);
                }
            }
            return Err(e);
        },
        Ok(()) => {},
    }
    let ghost mid = *tables;
    let ghost held = spare@;
    let virt = PHYS_MAP_BASE + base;
    assert(virt % PAGE_SIZE == 0);
    let result = tables.map(spare, virt, base, len, Rights::rw());
    proof {
        paging::lemma_grew(*tables, mid, before, old(spare)@, held, spare@);
        paging::lemma_grew_taken(mid, before, old(spare)@, held);
        paging::lemma_needed_paths(g, mid, high, base as int, len as int);
        match result {
            Ok(()) => {
                assert(tables.added(before) =~= all.difference(before.taken()));
                assert forall|v: u64| #[trigger]
                    tables.translate(v) == doubly(before, base, len, rights, v) by {
                    assert(mid.translate(v) == mid.translate(v));
                }
            },
            Err(e) => {
                if e == MapError::OutOfFrames {
                    let x = paging::lemma_lacks_one(high_paths.difference(tables.taken()));
                    assert(tables.added(before).subset_of(all));
                    paging::lemma_ran_out(*tables, before, all, old(spare)@.len(), x);
                }
            },
        }
    }
    result
}

/// The places at which mapping physical memory twice needs tables.
pub open spec fn both_places(largest: nat, base: u64, len: u64) -> Set<Place> {
    paging::paths(largest, base as int, base as int, len as int) + paging::paths(
        largest,
        PHYS_MAP_BASE + base,
        base as int,
        len as int,
    )
}

/// A page of memory at `base` that is mapped at `virt`, where it holds the address
/// `off` above that.
pub open spec fn page_of(
    largest: nat,
    virt: int,
    base: u64,
    len: u64,
    rights: Rights,
    off: int,
) -> Translation {
    Translation {
        phys: base + off,
        rights,
        size: paging::span(
            paging::level_at(largest, virt, base as int, len as int, off),
        ),
    }
}

/// What the processor makes of an address once physical memory is mapped twice.
pub open spec fn doubly(
    before: PageTables,
    base: u64,
    len: u64,
    rights: Rights,
    v: u64,
) -> Option<Translation> {
    let g = before.largest();
    let rw = Rights { write: true, execute: false };
    let high = paging::offset(v, (PHYS_MAP_BASE + base) as u64);
    let low = paging::offset(v, base);
    if high < len {
        Some(page_of(g, PHYS_MAP_BASE + base, base, len, rw, high))
    } else if low < len {
        Some(page_of(g, base as int, base, len, rights, low))
    } else {
        before.translate(v)
    }
}

/// Memory is mapped at both places where there are as many spare frames as tables
/// that it lacks and nothing is mapped yet at either: the first mapping is granted,
/// and the second after it.
pub proof fn law_memory_with_frames_is_mapped_twice(
    before: PageTables,
    had: Seq<u64>,
    mid: PageTables,
    held: Seq<u64>,
    base: u64,
    len: u64,
    rights: Rights,
)
    requires
        paging::whole_pages(base, base, len),
        PHYS_MAP_BASE + base <= u64::MAX,
        base + len <= 0x8000_0000_0000,
        both_places(before.largest(), base, len).difference(before.taken()).len() <= had.len(),
        forall|v: u64| base <= v < base + len ==> #[trigger] before.translate(v) is None,
        forall|v: u64|
            PHYS_MAP_BASE + base <= v < PHYS_MAP_BASE + base + len
                ==> #[trigger] before.translate(v) is None,
    ensures
        before.verdict(before.largest(), had.len(), base, base, len) is Ok,
        mid.outcome(before.largest(), before, had, held, base, base, len, rights, Ok(())) ==> mid.verdict(
            before.largest(),
            held.len(),
            (PHYS_MAP_BASE + base) as u64,
            base,
            len,
        ) is Ok,
{
    let g = before.largest();
    let high = PHYS_MAP_BASE + base;
    let low_paths = paging::paths(g, base as int, base as int, len as int);
    let high_paths = paging::paths(g, high, base as int, len as int);
    let all = both_places(g, base, len).difference(before.taken());
    let first = low_paths.difference(before.taken());
    paging::lemma_paths_finite(g, base as int, base as int, len as int);
    paging::lemma_paths_finite(g, high, base as int, len as int);
    vstd::set_lib::lemma_len_subset(first, all);
    paging::law_a_request_with_frames_is_granted(g, before, had.len(), base, base, len);
    if mid.outcome(before.largest(), before, had, held, base, base, len, rights, Ok(())) {
        paging::lemma_needed_paths(g, before, base as int, base as int, len as int);
        paging::lemma_grew_taken(mid, before, had, held);
        assert(mid.added(before) == first);
        lemma_two_parts(low_paths, high_paths, before.taken(), mid.taken());
        lemma_high_half(g, mid, before, base, len, rights);
        paging::law_a_request_with_frames_is_granted(g, mid, held.len(), high as u64, base, len);
    }
}

/// What two parts of a request lack one after the other is what both lack.
proof fn lemma_two_parts(
    low: Set<Place>,
    high: Set<Place>,
    before: Set<Place>,
    after: Set<Place>,
)
    requires
        low.finite(),
        high.finite(),
        after == before + low.difference(before),
    ensures
        low.difference(before).len() + high.difference(after).len() == (low + high).difference(
            before,
        ).len(),
{
    let first = low.difference(before);
    let second = high.difference(after);
    assert(first.disjoint(second));
    assert((low + high).difference(before) =~= first + second);
    vstd::set_lib::lemma_set_disjoint_lens(first, second);
}

/// Mapping memory at its own address leaves the linear map as it was.
proof fn lemma_high_half(
    largest: nat,
    mid: PageTables,
    before: PageTables,
    base: u64,
    len: u64,
    rights: Rights,
)
    requires
        base + len <= 0x8000_0000_0000,
        mid.maps(largest, before, base, base, len, rights, len as int),
        forall|v: u64|
            PHYS_MAP_BASE + base <= v < PHYS_MAP_BASE + base + len
                ==> #[trigger] before.translate(v) is None,
    ensures
        forall|v: u64|
            PHYS_MAP_BASE + base <= v < PHYS_MAP_BASE + base + len
                ==> #[trigger] mid.translate(v) is None,
{
    assert forall|v: u64|
        PHYS_MAP_BASE + base <= v < PHYS_MAP_BASE + base + len implies #[trigger] mid.translate(
        v,
    ) is None by {
        lemma_offset_is(v, base, 0xFFFF, v - base - 0xFFFF_0000_0000_0000);
        assert(before.translate(v) is None);
    }
}

/// Physical memory that has been mapped twice is found at both places: at its own
/// address, and in the linear map where it can be written and never executed.
pub proof fn law_physical_memory_is_found_at_both_places(
    before: PageTables,
    base: u64,
    len: u64,
    rights: Rights,
    p: u64,
)
    requires
        base <= p < base + len,
        base + len <= 0x8000_0000_0000,
    ensures
        doubly(before, base, len, rights, p) matches Some(t) && t.phys == p && t.rights == rights,
        doubly(before, base, len, rights, (PHYS_MAP_BASE + p) as u64) matches Some(t) && t.phys
            == p && t.rights == (Rights { write: true, execute: false }),
{
    let high = (PHYS_MAP_BASE + base) as u64;
    lemma_offset_is(p, base, 0, p - base);
    lemma_offset_is(p, high, -0x1_0000, p - base + 0x8000_0000_0000);
    lemma_offset_is((PHYS_MAP_BASE + p) as u64, high, 0, p - base);
}

/// With no root pointer of either revision in the list there is none to find.
pub proof fn law_without_a_root_pointer_none_is_found(entries: Seq<ConfigurationTable>)
    requires
        forall|j: int|
            0 <= j < entries.len() ==> !(#[trigger] entries[j]).guid.same(efi::acpi2())
                && !entries[j].guid.same(efi::acpi1()),
    ensures
        rsdp_in(entries, 0) == 0,
{
    lemma_no_root_pointer(entries, 0);
}

/// A display is found exactly when its mode has one of the two layouts that can be
/// written, an address, pixels, and rows at least as long as they are wide. It then
/// is what the mode says, with rows of as many bytes as four times their pixels.
pub proof fn law_a_display_is_found_if_it_can_be_drawn_on(
    framebuffer_base: u64,
    info: GopModeInfo,
)
    requires
        info.pixels_per_scan_line * 4 <= u32::MAX,
    ensures
        ({
            let (fb, report) = located(GopAnswer::Mode { framebuffer_base, info });
            let layout = info.pixel_format == 0 || info.pixel_format == 1;
            let whole = framebuffer_base > 0 && info.horizontal_resolution > 0
                && info.vertical_resolution > 0 && info.pixels_per_scan_line
                >= info.horizontal_resolution;
            &&& report == GopReport::Found <==> layout && whole
            &&& report == GopReport::UnsupportedFormat <==> !layout
            &&& report == GopReport::Inconsistent <==> layout && !whole
            &&& report == GopReport::Found ==> {
                &&& fb.phys == framebuffer_base
                &&& fb.width == info.horizontal_resolution
                &&& fb.height == info.vertical_resolution
                &&& fb.stride == 4 * info.pixels_per_scan_line
                &&& fb.bpp == 32
                &&& fb.format == PixelFormat::Rgbx8888 <==> info.pixel_format == 0
                &&& fb.format == PixelFormat::Bgrx8888 <==> info.pixel_format == 1
            }
        }),
{
}

/// Without a display that can be drawn on there is a framebuffer of nothing, which
/// is never taken for one. The report says what is missing.
pub proof fn law_no_display_is_no_framebuffer(answer: GopAnswer)
    ensures
        located(answer).1 != GopReport::Found ==> {
            let fb = located(answer).0;
            &&& fb.phys == 0 && fb.width == 0 && fb.height == 0 && fb.stride == 0
            &&& fb.bpp == 32
            &&& fb.format == PixelFormat::Bgrx8888
            &&& !fb.sane()
        },
        located(answer).1 == GopReport::NoProtocol <==> answer == GopAnswer::NoProtocol,
        located(answer).1 == GopReport::NoMode <==> answer == GopAnswer::NoMode,
{
}

/// The size query fails for any error of the firmware but that the buffer is too
/// small, which carries its status, and for a distance of zero. Otherwise its answer
/// is what the firmware said.
pub proof fn law_only_a_short_buffer_is_no_failure(
    status: usize,
    size: usize,
    descriptor_size: usize,
    result: Result<(usize, usize), Error>,
)
    requires
        call_ensures(memory_map_size, (status, size, descriptor_size), result),
    ensures
        match result {
            Ok(answer) => {
                &&& status <= isize::MAX || status == isize::MAX + 6
                &&& descriptor_size > 0
                &&& answer == (size, descriptor_size)
            },
            Err(e) => {
                ||| status > isize::MAX && status != isize::MAX + 6 && e.status == status
                ||| descriptor_size == 0 && e.status == 0 && (status <= isize::MAX || status
                    == isize::MAX + 6)
            },
        },
{
}

/// The maps reach to the first 4 GiB at least and to the end of all memory, in whole
/// gibibytes, and no further than memory makes them.
pub proof fn law_the_maps_reach_over_all_memory(
    map: &[u8],
    descriptor_size: usize,
    result: Result<u64, Error>,
    k: int,
)
    requires
        call_ensures(mapped_extent, (map, descriptor_size), result),
    ensures
        result is Ok <==> descriptor_size >= 40,
        result matches Err(e) ==> e.status == 0,
        result matches Ok(top) ==> {
            &&& top >= 0x1_0000_0000
            &&& top == u64::MAX || top as int % 0x4000_0000 == 0
            &&& 0 <= k < memmap::descriptor_count(map@, descriptor_size as int)
                && memmap::described(map@, descriptor_size as int, k).kind
                != crate::bootinfo::MemoryKind::Reserved ==> memmap::described(
                map@,
                descriptor_size as int,
                k,
            ).limit() <= top
            &&& top > 0x1_0000_0000 ==> exists|j: int|
                {
                    &&& 0 <= j < memmap::descriptor_count(map@, descriptor_size as int)
                    &&& (#[trigger] memmap::described(map@, descriptor_size as int, j)).kind
                        != crate::bootinfo::MemoryKind::Reserved
                    &&& memmap::described(map@, descriptor_size as int, j).limit() > top
                        - 0x4000_0000
                }
        },
{
    let stride = descriptor_size as int;
    memmap::law_the_extent_ends_at_a_descriptor(map@, stride, GIB as int, true);
    if 0 <= k < memmap::descriptor_count(map@, stride) && memmap::described(map@, stride, k).kind
        != crate::bootinfo::MemoryKind::Reserved {
        memmap::law_the_extent_covers_every_descriptor(map@, stride, GIB as int, true, k);
    }
}

/// A framebuffer has a window of its own exactly when it can be drawn on and its
/// first page lies beyond what is mapped anyway. The window is whole pages, holds
/// every byte of it, and is less than a page larger on either side.
pub proof fn law_a_window_holds_the_framebuffer(fb: Framebuffer, mapped: u64)
    requires
        fb.sane() ==> elf64::page_up(fb.phys + fb.height * fb.stride) <= u64::MAX,
    ensures
        window_above(fb, mapped) is Some <==> fb.sane() && fb.phys / 4096 * 4096 >= mapped,
        window_above(fb, mapped) matches Some((base, len)) ==> {
            &&& base % 4096 == 0
            &&& len % 4096 == 0
            &&& base <= fb.phys < base + 4096
            &&& fb.phys + fb.height * fb.stride <= base + len
            &&& base + len < fb.phys + fb.height * fb.stride + 4096
        },
{
    if fb.sane() {
        let total = fb.height * fb.stride;
        assert(total >= 0) by (nonlinear_arith)
            requires
                fb.height >= 0,
                fb.stride >= 0,
                total == fb.height * fb.stride,
        ;
        let q = (fb.phys + total + 4095) / 4096;
        let b = fb.phys / 4096;
        assert(elf64::page_up(fb.phys + total) == 4096 * q);
        assert(fb.phys - fb.phys % 4096 == 4096 * b);
        assert((4096 * q - 4096 * b) % 4096 == 0);
    }
}

/// The buffer for the memory map is whole pages with room for 32 descriptors more
/// than the firmware reported, and no page more than that takes. There is a region
/// for every descriptor the buffer can hold, and pages for all of them.
pub proof fn law_the_buffers_leave_room_to_grow(map_len: int, descriptor_size: int)
    requires
        map_len >= 0,
        buffers_fit(map_len, descriptor_size),
    ensures
        ({
            let b = buffers_for(map_len, descriptor_size);
            let wanted = map_len + 32 * descriptor_size;
            &&& b.map_capacity == 4096 * b.map_pages
            &&& wanted <= b.map_capacity < wanted + 4096
            &&& b.region_capacity * descriptor_size <= b.map_capacity < (b.region_capacity + 1)
                * descriptor_size
            &&& 24 * b.region_capacity <= 4096 * b.region_pages < 24 * b.region_capacity + 4096
        }),
{
    let pages = map_pages(map_len, descriptor_size);
    let capacity = pages * PAGE_SIZE;
    let regions = capacity / descriptor_size;
    assert(regions * descriptor_size <= capacity < (regions + 1) * descriptor_size && 0 <= regions
        <= capacity) by (nonlinear_arith)
        requires
            regions == capacity / descriptor_size,
            descriptor_size > 0,
            capacity >= 0,
    ;
}

/// The buffers fit wherever the address space is some 25 times as large as the
/// memory map with its room to grow.
pub proof fn law_the_buffers_of_a_small_map_fit(map_len: int, descriptor_size: int)
    requires
        map_len >= 0,
        descriptor_size > 0,
        25 * (map_len + 32 * descriptor_size + 4096) <= usize::MAX,
    ensures
        buffers_fit(map_len, descriptor_size),
{
    let capacity = map_pages(map_len, descriptor_size) * PAGE_SIZE;
    let regions = capacity / descriptor_size;
    assert(0 <= regions <= capacity) by (nonlinear_arith)
        requires
            regions == capacity / descriptor_size,
            descriptor_size > 0,
            capacity >= 0,
    ;
}

/// Leaving is tried again only for a stale key and only a handful of times, and has
/// happened only on success. Every other answer ends it with its status.
pub proof fn law_only_a_stale_key_is_tried_again(attempt: usize, status: usize, step: ExitStep)
    requires
        call_ensures(exit_step, (attempt, status), step),
    ensures
        step == ExitStep::Left <==> status == 0,
        step == ExitStep::Retry <==> status == isize::MAX + 3 && attempt < 8,
        step matches ExitStep::Failed(e) ==> e.status == status && status != 0,
{
}

/// The kernel finds in the structure what the loader put there: the file that was
/// loaded, or none, and the framebuffer that was found, or none.
pub proof fn law_the_kernel_finds_what_was_loaded(
    regions_phys: u64,
    count: usize,
    framebuffer: Framebuffer,
    rsdp: u64,
    initrd: Option<Loaded>,
    kernel_phys: u64,
    kernel_len: u64,
    info: BootInfo,
    found: Option<(u64, u64)>,
    display: Option<Framebuffer>,
)
    requires
        count <= u32::MAX,
        call_ensures(
            hand_off,
            (regions_phys, count, framebuffer, rsdp, initrd, kernel_phys, kernel_len),
            info,
        ),
        call_ensures(BootInfo::initrd, (&info,), found),
        call_ensures(BootInfo::framebuffer, (&info,), display),
    ensures
        info.memory_map == regions_phys && info.memory_map_len == count,
        info.rsdp == rsdp,
        info.kernel_phys == kernel_phys && info.kernel_len == kernel_len,
        initrd is None ==> found is None,
        initrd matches Some(file) ==> file.phys > 0 && file.len > 0 ==> found == Some(
            (file.phys, file.len),
        ),
        display is Some <==> framebuffer.sane(),
        display matches Some(fb) ==> fb == framebuffer,
{
}

/// A kernel image can be placed exactly when its headers are good and its segments
/// span a block that starts where the kernel is mapped.
pub proof fn law_a_kernel_is_placed_only_where_it_is_linked(image: Seq<u8>)
    ensures
        kernel_fault(image) is None <==> elf64::header_fault(image) is None && (elf64::span_of(
            elf64::loadable_in(image),
        ) matches Ok((base, _)) && base == 0xFFFF_FFFF_8000_0000),
        elf64::header_fault(image) matches Some(e) ==> kernel_fault(image) == Some(e.reason()),
        elf64::header_fault(image) is None ==> (elf64::span_of(
            elf64::loadable_in(image),
        ) matches Err(e) ==> kernel_fault(image) == Some(e.reason())),
{
}

/// A segment keeps the rights it asks for, but that one that is executed is not
/// written.
pub proof fn law_a_segment_keeps_its_rights(r: elf64::Rights)
    ensures
        rights_for(r).execute == r.execute,
        rights_for(r).write == (r.write && !r.execute),
{
}

/// A failure to load is reported in its own words.
pub proof fn law_each_failure_to_load_has_its_own_words(e: LoadError)
    ensures
        e == LoadError::WritableAndExecutable ==> e.text()
            == "kernel image contains a writable+executable segment"@,
        e == LoadError::Mapping(MapError::Misaligned) ==> e.text() == "misaligned mapping request"@,
        e == LoadError::Mapping(MapError::Collides) ==> e.text()
            == "mapping collides with an existing large page"@,
        e == LoadError::Mapping(MapError::OutOfFrames) ==> e.text() == "allocate page table"@,
{
}

/// An address of the kernel leads into the last segment whose pages hold it: as far
/// into the block of memory as the address lies above the base, in a small page, to
/// be executed if the segment is and otherwise to be written if the segment is.
pub proof fn law_an_address_leads_into_its_last_segment(
    segments: Seq<Result<elf64::Placed, elf64::ElfError>>,
    n: nat,
    kernel_phys: int,
    before: PageTables,
    v: u64,
    k: int,
)
    requires
        0 <= k < n <= segments.len(),
        forall|i: int|
            0 <= i < n ==> KERNEL_VMA <= (#[trigger] segments[i])->Ok_0.vaddr
                && segments[i]->Ok_0.vaddr % 4096 == 0 && segments[i]->Ok_0.vaddr
                + segments[i]->Ok_0.memsz <= 0xFFFF_FFFF_FFFF_F000,
        v / 4096 >= segments[k]->Ok_0.vaddr / 4096,
        v / 4096 * 4096 < segments[k]->Ok_0.vaddr + segments[k]->Ok_0.memsz,
        forall|i: int|
            k < i < n ==> v < (#[trigger] segments[i])->Ok_0.vaddr || v / 4096 * 4096
                >= segments[i]->Ok_0.vaddr + segments[i]->Ok_0.memsz,
    ensures
        leads(segments, n, kernel_phys, before, v) matches Some(t) && {
            let r = segments[k]->Ok_0.rights;
            &&& t.phys == kernel_phys + (v - 0xFFFF_FFFF_8000_0000)
            &&& t.rights.execute == r.execute
            &&& t.rights.write == (r.write && !r.execute)
            &&& t.size == 4096
        },
    decreases n,
{
    let s = segments[n - 1]->Ok_0;
    lemma_in_pages(s, v);
    if k < n - 1 {
        law_an_address_leads_into_its_last_segment(
            segments,
            (n - 1) as nat,
            kernel_phys,
            before,
            v,
            k,
        );
    }
}

/// An address that no segment's pages hold leads where it did before.
pub proof fn law_an_address_outside_the_kernel_is_left_alone(
    segments: Seq<Result<elf64::Placed, elf64::ElfError>>,
    n: nat,
    kernel_phys: int,
    before: PageTables,
    v: u64,
)
    requires
        n <= segments.len(),
        v >= KERNEL_VMA,
        forall|i: int|
            0 <= i < n ==> KERNEL_VMA <= (#[trigger] segments[i])->Ok_0.vaddr
                && segments[i]->Ok_0.vaddr % 4096 == 0 && segments[i]->Ok_0.vaddr
                + segments[i]->Ok_0.memsz <= 0xFFFF_FFFF_FFFF_F000,
        forall|i: int|
            0 <= i < n ==> v < (#[trigger] segments[i])->Ok_0.vaddr || v / 4096 * 4096
                >= segments[i]->Ok_0.vaddr + segments[i]->Ok_0.memsz,
    ensures
        leads(segments, n, kernel_phys, before, v) == before.translate(v),
    decreases n,
{
    if n > 0 {
        lemma_in_pages(segments[n - 1]->Ok_0, v);
        law_an_address_outside_the_kernel_is_left_alone(
            segments,
            (n - 1) as nat,
            kernel_phys,
            before,
            v,
        );
    }
}

/// The pages of a segment hold the addresses whose page starts in it.
proof fn lemma_in_pages(s: elf64::Placed, v: u64)
    requires
        KERNEL_VMA <= s.vaddr,
        s.vaddr % 4096 == 0,
        s.vaddr + s.memsz <= 0xFFFF_FFFF_FFFF_F000,
        v >= KERNEL_VMA,
    ensures
        paging::offset(v, s.vaddr) < paged_len(s) <==> s.vaddr <= v && v / 4096 * 4096 < s.vaddr
            + s.memsz,
        s.vaddr <= v ==> paging::offset(v, s.vaddr) == v - s.vaddr,
{
    let q = (s.memsz + 4095) / 4096;
    let b = s.vaddr as int / 4096;
    let w = v as int / 4096;
    assert(s.vaddr == 4096 * b);
    assert(paged_len(s) == 4096 * q);
    assert(v as int - 4096 < 4096 * w <= v);
    if s.vaddr <= v {
        lemma_offset_is(v, s.vaddr, 0, v - s.vaddr);
        assert(w < b + q <==> 4096 * w < s.vaddr + s.memsz);
        assert(w < b + q <==> v - s.vaddr < 4096 * q);
    } else {
        lemma_offset_is(v, s.vaddr, -1, v - s.vaddr + 0x1_0000_0000_0000);
    }
}

/// A byte of the kernel's memory is what the last segment with file bytes there has
/// for it, and is left as it was where no segment has any.
pub proof fn law_a_byte_is_that_of_its_last_segment(
    segments: Seq<Result<elf64::Placed, elf64::ElfError>>,
    n: nat,
    block: Seq<u8>,
    i: int,
    k: int,
)
    requires
        n <= segments.len(),
        0 <= i < block.len(),
        -1 <= k < n,
        forall|j: int|
            k < j < n ==> {
                let at = i - ((#[trigger] segments[j])->Ok_0.vaddr - 0xFFFF_FFFF_8000_0000);
                at < 0 || at >= segments[j]->Ok_0.file.len()
            },
        k >= 0 ==> 0 <= i - (segments[k]->Ok_0.vaddr - 0xFFFF_FFFF_8000_0000)
            < segments[k]->Ok_0.file.len(),
    ensures
        filled(segments, n, block).len() == block.len(),
        k >= 0 ==> filled(segments, n, block)[i] == segments[k]->Ok_0.file[i - (
        segments[k]->Ok_0.vaddr - 0xFFFF_FFFF_8000_0000)],
        k < 0 ==> filled(segments, n, block)[i] == block[i],
    decreases n,
{
    if n > 0 {
        let m = (n - 1) as nat;
        if k < m {
            law_a_byte_is_that_of_its_last_segment(segments, m, block, i, k);
        } else {
            lemma_filled_len(segments, m, block);
        }
    }
}

proof fn lemma_filled_len(
    segments: Seq<Result<elf64::Placed, elf64::ElfError>>,
    n: nat,
    block: Seq<u8>,
)
    ensures
        filled(segments, n, block).len() == block.len(),
    decreases n,
{
    if n > 0 {
        lemma_filled_len(segments, (n - 1) as nat, block);
    }
}

/// Mapping physical memory twice leaves every address alone that lies in neither
/// place.
pub proof fn law_other_addresses_are_left_alone(
    before: PageTables,
    base: u64,
    len: u64,
    rights: Rights,
    v: u64,
)
    requires
        base + len <= 0x8000_0000_0000,
        v < 0x8000_0000_0000 ==> !(base <= v < base + len),
        v >= 0x8000_0000_0000 ==> v >= PHYS_MAP_BASE && !(PHYS_MAP_BASE + base <= v < PHYS_MAP_BASE
            + base + len),
    ensures
        doubly(before, base, len, rights, v) == before.translate(v),
{
    let high = (PHYS_MAP_BASE + base) as u64;
    if len == 0 {
        vstd::arithmetic::div_mod::lemma_mod_bound(v - base, 0x1_0000_0000_0000);
        vstd::arithmetic::div_mod::lemma_mod_bound(v - high, 0x1_0000_0000_0000);
    } else if v < 0x8000_0000_0000 {
        if v >= base {
            lemma_offset_is(v, base, 0, v - base);
        } else {
            lemma_offset_is(v, base, -1, v - base + 0x1_0000_0000_0000);
        }
        lemma_offset_is(v, high, -0x1_0000, v - base + 0x8000_0000_0000);
    } else {
        let w = v - PHYS_MAP_BASE;
        if w >= base {
            lemma_offset_is(v, high, 0, w - base);
        } else {
            lemma_offset_is(v, high, -1, w - base + 0x1_0000_0000_0000);
        }
        lemma_offset_is(v, base, 0xFFFF, w - base + 0x8000_0000_0000);
    }
}

/// A distance is what is left of a difference once whole address spaces are taken
/// off.
proof fn lemma_offset_is(v: u64, virt: u64, k: int, m: int)
    requires
        v - virt == k * 0x1_0000_0000_0000 + m,
        0 <= m < 0x1_0000_0000_0000,
    ensures
        paging::offset(v, virt) == m,
{
    vstd::arithmetic::div_mod::lemma_fundamental_div_mod_converse(
        v - virt,
        0x1_0000_0000_0000,
        k,
        m,
    );
}

/// A loaded kernel is found by the processor where it is linked: every page of every
/// segment as far into its memory as it lies above the base, with the rights of the
/// last segment there. No segment of it is both written and executed.
pub proof fn law_a_loaded_kernel_is_found_where_it_is_linked(
    elf: Elf,
    size: u64,
    kernel_phys: u64,
    block: &mut [u8],
    tables: &mut PageTables,
    spare: &mut Vec<u64>,
    v: u64,
    k: int,
)
    requires
        elf.wf(),
        elf64::span_of(elf.loadable()) == Ok::<(u64, u64), elf64::ElfError>((KERNEL_VMA, size)),
        old(block)@.len() == size,
        call_ensures(load_kernel, (&elf, size, kernel_phys, block, tables, spare), Ok(())),
        0 <= k < elf.loadable().len(),
        elf.loadable()[k]->Ok_0.vaddr <= v < elf.loadable()[k]->Ok_0.vaddr
            + elf.loadable()[k]->Ok_0.memsz,
        forall|i: int|
            k < i < elf.loadable().len() ==> v < (#[trigger] elf.loadable()[i])->Ok_0.vaddr || v
                / 4096 * 4096 >= elf.loadable()[i]->Ok_0.vaddr + elf.loadable()[i]->Ok_0.memsz,
    ensures
        ({
            let r = elf.loadable()[k]->Ok_0.rights;
            &&& final(tables).translate(v) is Some
            &&& final(tables).translate(v)->0.phys == kernel_phys + (v - 0xFFFF_FFFF_8000_0000)
            &&& final(tables).translate(v)->0.rights.write == r.write
            &&& final(tables).translate(v)->0.rights.execute == r.execute
            &&& !(r.write && r.execute)
        }),
{
    let segments = elf.loadable();
    elf64::law_the_load_span_covers_every_segment(segments, KERNEL_VMA, size);
    elf64::law_the_load_span_is_whole_pages(elf, KERNEL_VMA, size);
    assert forall|i: int| 0 <= i < segments.len() implies KERNEL_VMA <= (
    #[trigger] segments[i])->Ok_0.vaddr && segments[i]->Ok_0.vaddr % 4096 == 0
        && segments[i]->Ok_0.vaddr + segments[i]->Ok_0.memsz <= 0xFFFF_FFFF_FFFF_F000 by {
        elf64::law_segments_are_aligned_and_inside_the_image(
            elf.image@,
            elf.phoff as int,
            elf.phentsize as int,
            elf.phnum as int,
            0,
            i,
        );
        assert(segments[i] is Ok);
    }
    assert(hold(*final(tables), segments, segments.len(), kernel_phys, *old(tables)));
    law_an_address_leads_into_its_last_segment(
        segments,
        segments.len(),
        kernel_phys as int,
        *old(tables),
        v,
        k,
    );
    assert(final(tables).translate(v) == leads(
        segments,
        segments.len(),
        kernel_phys as int,
        *old(tables),
        v,
    ));
    assert(none_wx(segments, segments.len()));
}

/// The memory of a loaded kernel holds the bytes of its segments: each what the last
/// segment with file bytes there has for it, and the rest what it held before.
pub proof fn law_a_loaded_kernel_holds_its_bytes(
    elf: Elf,
    size: u64,
    kernel_phys: u64,
    block: &mut [u8],
    tables: &mut PageTables,
    spare: &mut Vec<u64>,
    i: int,
    k: int,
)
    requires
        call_ensures(load_kernel, (&elf, size, kernel_phys, block, tables, spare), Ok(())),
        0 <= i < old(block)@.len(),
        -1 <= k < elf.loadable().len(),
        forall|j: int|
            k < j < elf.loadable().len() ==> {
                let at = i - ((#[trigger] elf.loadable()[j])->Ok_0.vaddr - 0xFFFF_FFFF_8000_0000);
                at < 0 || at >= elf.loadable()[j]->Ok_0.file.len()
            },
        k >= 0 ==> 0 <= i - (elf.loadable()[k]->Ok_0.vaddr - 0xFFFF_FFFF_8000_0000)
            < elf.loadable()[k]->Ok_0.file.len(),
    ensures
        final(block)@.len() == old(block)@.len(),
        k >= 0 ==> final(block)@[i] == elf.loadable()[k]->Ok_0.file[i - (
        elf.loadable()[k]->Ok_0.vaddr - 0xFFFF_FFFF_8000_0000)],
        k < 0 ==> final(block)@[i] == old(block)@[i],
{
    let segments = elf.loadable();
    law_a_byte_is_that_of_its_last_segment(segments, segments.len(), old(block)@, i, k);
}

/// Physical memory that is mapped twice is found at its own address with the rights
/// that were asked, and in the linear map to be written and not executed.
pub proof fn law_memory_is_found_at_both_places(
    tables: &mut PageTables,
    spare: &mut Vec<u64>,
    base: u64,
    len: u64,
    rights: Rights,
    p: u64,
)
    requires
        base + len <= 0x8000_0000_0000,
        call_ensures(map_physical, (tables, spare, base, len, rights), Ok(())),
        base <= p < base + len,
    ensures
        ({
            let low = final(tables).translate(p);
            let high = final(tables).translate((0xFFFF_8000_0000_0000 + p) as u64);
            &&& low is Some && low->0.phys == p && low->0.rights == rights
            &&& high is Some && high->0.phys == p && high->0.rights.write
                && !high->0.rights.execute
        }),
{
    law_physical_memory_is_found_at_both_places(*old(tables), base, len, rights, p);
    assert(final(tables).translate(p) == doubly(*old(tables), base, len, rights, p));
    let v = (PHYS_MAP_BASE + p) as u64;
    assert(final(tables).translate(v) == doubly(*old(tables), base, len, rights, v));
}

} // verus!
