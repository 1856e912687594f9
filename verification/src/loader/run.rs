//! The loader's sequence: what is done when, and what every answer leads to.
//!
//! The sequence is a state and a step. Every step says what to do next, whoever
//! drives it does that and comes back with the answer, and so on until the kernel
//! is entered or something has failed.
use crate::bootinfo::{BootInfo, Framebuffer, PixelFormat};
use crate::elf64;
use crate::loader::boot;
use crate::loader::boot::{Buffers, ExitStep, GopAnswer, LoadError, EXIT_ATTEMPTS};
use crate::loader::efi;
use crate::loader::efi::gop_format;
use crate::loader::fs;
use crate::loader::fs::{FileError, Loaded, Which};
use crate::loader::memmap::ConvertError;
use crate::loader::pages;
use crate::loader::pages::{Error, PAGE_SIZE};
use crate::loader::paging::{MapError, Rights};
use vstd::prelude::*;

verus! {

/// Something to map.
#[derive(Clone, Copy, Debug, PartialEq, Eq)]
pub enum Job {
    /// The segments of the kernel, which are put in their places as well.
    Kernel,
    /// All memory, at its own address and in the linear map.
    Memory {
        /// How much of it.
        len: u64,
    },
    /// A framebuffer above memory, at both places too.
    Window {
        /// Where it is.
        base: u64,
        /// How many bytes.
        len: u64,
    },
}

/// How far the sequence has come: what it waits for.
#[derive(Clone, Copy, Debug, PartialEq, Eq)]
pub enum Phase {
    /// The watchdog is being disarmed.
    Disarming,
    /// The root pointer is being looked up.
    Tables,
    /// The display is being queried.
    Display,
    /// The volume is being opened.
    Volume,
    /// A file is being read.
    File(Which),
    /// The kernel image is being opened.
    Image,
    /// Pages for the kernel are being allocated.
    KernelPages,
    /// The root of the page tables is being allocated.
    Root,
    /// Something is being mapped.
    Mapping(Job),
    /// One more page table is being allocated for a mapping.
    Growing(Job),
    /// The size of the first memory map is being queried.
    ProbeSize,
    /// Pages for the first memory map are being allocated.
    ProbePages,
    /// The first memory map is being read.
    Probe,
    /// The end of memory is being looked for.
    Extent,
    /// A page for the structure the kernel is handed is being allocated.
    InfoPages,
    /// The size of the last memory map is being queried.
    MapSize,
    /// Pages for the last memory map are being allocated.
    MapPages,
    /// Pages for the kernel's memory map are being allocated.
    RegionPages,
    /// The last memory map is being read.
    LastMap {
        /// Which attempt this is.
        attempt: usize,
    },
    /// The firmware is being left.
    Leaving {
        /// Which attempt this is.
        attempt: usize,
        /// How long the memory map is.
        map_len: usize,
    },
    /// The firmware console is being forgotten and interrupts masked.
    Silencing {
        /// How long the memory map is.
        map_len: usize,
    },
    /// The memory map is being converted.
    Converting,
    /// The structure the kernel is handed is being written.
    Writing,
    /// The no-execute bit is being given its meaning.
    NoExecute,
    /// There is nothing more to do.
    Over,
}

/// What has been found so far.
#[derive(Clone, Copy, Debug, PartialEq, Eq)]
pub struct Facts {
    /// The root pointer of the firmware tables, or 0.
    pub rsdp: u64,
    /// The display.
    pub framebuffer: Framebuffer,
    /// The kernel file.
    pub kernel_file: Loaded,
    /// The initial file system, if there is one.
    pub initrd: Option<Loaded>,
    /// Where the kernel starts.
    pub entry: u64,
    /// How many bytes of memory the kernel takes.
    pub kernel_len: u64,
    /// Where they are.
    pub kernel_phys: u64,
    /// The root of the page tables.
    pub root: u64,
    /// Where the first memory map is.
    pub probe_phys: u64,
    /// How many bytes are reserved for it.
    pub probe_capacity: usize,
    /// How much memory is mapped.
    pub mapped: u64,
    /// Where the structure is that the kernel is handed.
    pub info_phys: u64,
    /// How far apart the descriptors of the last memory map are.
    pub descriptor_size: usize,
    /// The buffers for leaving.
    pub buffers: Buffers,
    /// Where the last memory map is.
    pub map_phys: u64,
    /// Where the kernel's memory map is.
    pub regions_phys: u64,
}

/// The state of the sequence.
#[derive(Clone, Copy, Debug, PartialEq, Eq)]
pub struct Boot {
    /// What it waits for.
    pub phase: Phase,
    /// What has been found so far.
    pub facts: Facts,
}

/// An answer.
#[derive(Clone, Copy, Debug, PartialEq, Eq)]
pub enum Event {
    /// What was asked for has been done.
    Done,
    /// The root pointer has been looked up.
    Tables {
        /// What was found.
        rsdp: u64,
    },
    /// The display has been queried.
    Display(GopAnswer),
    /// The volume has been opened, or not.
    Volume(Result<(), Error>),
    /// A file has been read, or not.
    File(Result<Loaded, FileError>),
    /// The kernel image has been opened, or not: its entry point and its size.
    Image(Result<(u64, u64), Error>),
    /// Pages have been allocated, or not.
    Allocated {
        /// What the call returned.
        status: usize,
        /// Where the pages are.
        phys: u64,
    },
    /// Something has been mapped, or not.
    Mapped(Result<(), LoadError>),
    /// The size of the memory map has been queried.
    MapSized {
        /// What the call returned.
        status: usize,
        /// How many bytes the map takes.
        size: usize,
        /// How far apart its descriptors are.
        descriptor_size: usize,
    },
    /// The memory map has been read, or not.
    MapRead {
        /// What the call returned.
        status: usize,
        /// How many bytes the map takes.
        size: usize,
        /// How far apart its descriptors are.
        descriptor_size: usize,
        /// The key it is left with.
        key: usize,
    },
    /// The end of memory has been found, or not.
    Extent(Result<u64, Error>),
    /// The firmware has been left, or not.
    Left {
        /// What the call returned.
        status: usize,
    },
    /// The memory map has been converted, or not: how many regions it has.
    Converted(Result<usize, ConvertError>),
}

/// What went wrong.
#[derive(Clone, Copy, Debug, PartialEq, Eq)]
pub enum Failure {
    /// A step failed.
    Step(Error),
    /// The kernel or the memory could not be mapped.
    Load(LoadError),
}

/// What to do next.
#[derive(Clone, Copy, Debug, PartialEq, Eq)]
pub enum Action {
    /// Disarm the firmware's watchdog: reading a kernel off a slow medium can
    /// outlast it.
    DisarmWatchdog,
    /// Look for the root pointer in the firmware's list of tables.
    ReadTables,
    /// Ask the firmware about its display.
    QueryDisplay,
    /// Open the volume this loader came from.
    OpenVolume,
    /// Read a file.
    ReadFile(Which),
    /// Open the kernel image in a file.
    OpenImage(Loaded),
    /// Allocate cleared pages.
    Allocate {
        /// How many.
        pages: usize,
    },
    /// Map something, with one more spare frame if there is one.
    Place {
        /// What to map.
        job: Job,
        /// The frame, cleared.
        frame: Option<u64>,
    },
    /// Ask for the size of the memory map.
    QueryMapSize,
    /// Read the memory map.
    ReadMap {
        /// Where to.
        phys: u64,
        /// How many bytes there are.
        capacity: usize,
    },
    /// Find the end of memory in a memory map.
    MeasureExtent {
        /// Where the map is.
        phys: u64,
        /// How long it is.
        len: usize,
        /// How far apart its descriptors are.
        descriptor_size: usize,
    },
    /// Leave the firmware.
    Leave {
        /// The key of the memory map.
        key: usize,
    },
    /// Forget the firmware console and mask interrupts.
    Silence,
    /// Convert the memory map.
    Convert {
        /// Where the map is.
        map_phys: u64,
        /// How long it is.
        map_len: usize,
        /// How far apart its descriptors are.
        descriptor_size: usize,
        /// Where the regions go.
        regions_phys: u64,
        /// How many there is room for.
        capacity: usize,
    },
    /// Write the structure the kernel is handed.
    WriteInfo {
        /// Where to.
        phys: u64,
        /// What.
        info: BootInfo,
    },
    /// Give the no-execute bit its meaning.
    EnableNoExecute,
    /// Load the page tables and enter the kernel.
    Enter {
        /// The root of the page tables.
        root: u64,
        /// Where the kernel starts.
        entry: u64,
        /// Where the structure is that it is handed.
        info_phys: u64,
    },
    /// Report a failure and stop.
    Fail(Failure),
    /// The answer is to a question that was not asked.
    Ignore,
}

impl Failure {
    /// The error that a failure is reported as.
    #[must_use]
    pub fn error(self) -> (error: Error)
        ensures
            match self {
                Failure::Step(e) => error == e,
                Failure::Load(e) => error.stage@ == e.text() && error.status == 0,
            },
    {
        match self {
            Failure::Step(e) => e,
            Failure::Load(e) => Error::own(e.stage()),
        }
    }
}

impl Job {
    /// The rights memory is mapped with at its own address. All of it can be
    /// executed, for the one instruction between loading the tables and entering
    /// the kernel; a window cannot.
    pub open spec fn allowed(self) -> Rights {
        Rights { write: true, execute: self is Memory }
    }

    /// The rights memory is mapped with at its own address.
    #[must_use]
    pub fn rights(self) -> (rights: Rights)
        ensures
            rights == self.allowed(),
    {
        match self {
            Job::Memory { .. } => Rights { write: true, execute: true },
            _ => Rights { write: true, execute: false },
        }
    }
}

/// Nothing found yet.
pub open spec fn no_facts() -> Facts {
    Facts {
        rsdp: 0,
        framebuffer: boot::no_framebuffer(),
        kernel_file: Loaded { phys: 0, len: 0 },
        initrd: None,
        entry: 0,
        kernel_len: 0,
        kernel_phys: 0,
        root: 0,
        probe_phys: 0,
        probe_capacity: 0,
        mapped: 0,
        info_phys: 0,
        descriptor_size: 0,
        buffers: Buffers { map_pages: 0, map_capacity: 0, region_capacity: 0, region_pages: 0 },
        map_phys: 0,
        regions_phys: 0,
    }
}

/// Failing at a step.
pub open spec fn failed(facts: Facts, stage: &'static str, status: usize) -> (Boot, Action) {
    (
        Boot { phase: Phase::Over, facts },
        Action::Fail(Failure::Step(Error { stage, status })),
    )
}

/// Going on.
pub open spec fn going(phase: Phase, facts: Facts, action: Action) -> (Boot, Action) {
    (Boot { phase, facts }, action)
}

/// Going on with an allocation. One of no pages is refused.
pub open spec fn allocating(phase: Phase, facts: Facts, pages: int) -> (Boot, Action) {
    if pages == 0 {
        failed(facts, "zero-page allocation requested", 0)
    } else {
        going(phase, facts, Action::Allocate { pages: pages as usize })
    }
}

/// Going on with a mapping.
pub open spec fn placing(job: Job, facts: Facts, frame: Option<u64>) -> (Boot, Action) {
    going(Phase::Mapping(job), facts, Action::Place { job, frame })
}

/// The stage that a failed allocation is reported as.
pub open spec fn allocation(phase: Phase) -> &'static str {
    match phase {
        Phase::KernelPages => "allocate kernel image",
        Phase::Root => "allocate PML4",
        Phase::Growing(_) => "allocate page table",
        Phase::ProbePages => "allocate probe map",
        Phase::InfoPages => "allocate boot info",
        Phase::MapPages => "allocate memory map",
        _ => "allocate region array",
    }
}

/// What an allocation leads to.
pub open spec fn after_allocation(phase: Phase, facts: Facts, phys: u64) -> (Boot, Action) {
    match phase {
        Phase::KernelPages => allocating(Phase::Root, Facts { kernel_phys: phys, ..facts }, 1),
        Phase::Root => placing(Job::Kernel, Facts { root: phys, ..facts }, None),
        Phase::Growing(job) => placing(job, facts, Some(phys)),
        Phase::ProbePages => going(
            Phase::Probe,
            Facts { probe_phys: phys, ..facts },
            Action::ReadMap { phys, capacity: facts.probe_capacity },
        ),
        Phase::InfoPages => going(
            Phase::MapSize,
            Facts { info_phys: phys, ..facts },
            Action::QueryMapSize,
        ),
        Phase::MapPages => allocating(
            Phase::RegionPages,
            Facts { map_phys: phys, ..facts },
            facts.buffers.region_pages as int,
        ),
        _ => going(
            Phase::LastMap { attempt: 1 },
            Facts { regions_phys: phys, ..facts },
            Action::ReadMap { phys: facts.map_phys, capacity: facts.buffers.map_capacity },
        ),
    }
}

/// What a finished mapping leads to: after the kernel all memory, after that the
/// framebuffer where it lies above, and after that the buffers for leaving.
pub open spec fn after_mapping(job: Job, facts: Facts) -> (Boot, Action) {
    match job {
        Job::Kernel => going(Phase::ProbeSize, facts, Action::QueryMapSize),
        Job::Memory { .. } => match boot::window_above(facts.framebuffer, facts.mapped) {
            Some((base, len)) => placing(Job::Window { base, len }, facts, None),
            None => allocating(Phase::InfoPages, facts, 1),
        },
        Job::Window { .. } => allocating(Phase::InfoPages, facts, 1),
    }
}

/// The structure the kernel is handed.
pub open spec fn info_of(facts: Facts, count: usize) -> BootInfo {
    BootInfo {
        magic: BootInfo::MAGIC,
        version: BootInfo::VERSION,
        memory_map_len: count as u32,
        memory_map: facts.regions_phys,
        framebuffer: facts.framebuffer,
        rsdp: facts.rsdp,
        initrd: match facts.initrd {
            Some(file) => file.phys,
            None => 0,
        },
        initrd_len: match facts.initrd {
            Some(file) => file.len,
            None => 0,
        },
        kernel_phys: facts.kernel_phys,
        kernel_len: facts.kernel_len,
    }
}

/// What every answer leads to.
pub open spec fn follows(state: Boot, event: Event) -> (Boot, Action) {
    let facts = state.facts;
    match (state.phase, event) {
        (Phase::Disarming, Event::Done) => going(Phase::Tables, facts, Action::ReadTables),
        (Phase::Tables, Event::Tables { rsdp }) => going(
            Phase::Display,
            Facts { rsdp, ..facts },
            Action::QueryDisplay,
        ),
        (Phase::Display, Event::Display(answer)) => going(
            Phase::Volume,
            Facts { framebuffer: boot::located(answer).0, ..facts },
            Action::OpenVolume,
        ),
        (Phase::Volume, Event::Volume(Err(e))) => failed(facts, e.stage, e.status),
        (Phase::Volume, Event::Volume(Ok(()))) => going(
            Phase::File(Which::Kernel),
            facts,
            Action::ReadFile(Which::Kernel),
        ),
        (Phase::File(Which::Kernel), Event::File(Ok(file))) => going(
            Phase::File(Which::Initrd),
            Facts { kernel_file: file, ..facts },
            Action::ReadFile(Which::Initrd),
        ),
        (Phase::File(Which::Kernel), Event::File(Err(FileError::NotOpened(e)))) => failed(
            facts,
            e.stage,
            e.status,
        ),
        (Phase::File(_), Event::File(Err(FileError::Broken(e)))) => failed(
            facts,
            e.stage,
            e.status,
        ),
        (Phase::File(Which::Initrd), Event::File(Ok(file))) => going(
            Phase::Image,
            Facts { initrd: Some(file), ..facts },
            Action::OpenImage(facts.kernel_file),
        ),
        (Phase::File(Which::Initrd), Event::File(Err(FileError::NotOpened(_)))) => going(
            Phase::Image,
            Facts { initrd: None, ..facts },
            Action::OpenImage(facts.kernel_file),
        ),
        (Phase::Image, Event::Image(Err(e))) => failed(facts, e.stage, e.status),
        (Phase::Image, Event::Image(Ok((entry, size)))) => allocating(
            Phase::KernelPages,
            Facts { entry, kernel_len: size, ..facts },
            pages::pages_holding(size as int),
        ),
        (phase, Event::Allocated { status, phys }) => if !phase.allocates() {
            (state, Action::Ignore)
        } else if status >= efi::ERROR_BIT {
            failed(facts, allocation(phase), status)
        } else {
            after_allocation(phase, facts, phys)
        },
        (Phase::Mapping(job), Event::Mapped(Ok(()))) => after_mapping(job, facts),
        (
            Phase::Mapping(job),
            Event::Mapped(Err(LoadError::Mapping(MapError::OutOfFrames))),
        ) => allocating(Phase::Growing(job), facts, 1),
        (Phase::Mapping(_), Event::Mapped(Err(e))) => going(
            Phase::Over,
            facts,
            Action::Fail(Failure::Load(e)),
        ),
        (phase, Event::MapSized { status, size, descriptor_size }) => if phase != Phase::ProbeSize
            && phase != Phase::MapSize {
            (state, Action::Ignore)
        } else if status >= efi::ERROR_BIT && status != efi::BUFFER_TOO_SMALL {
            failed(facts, "GetMemoryMap (size query)", status)
        } else if descriptor_size == 0 {
            failed(facts, "firmware reported a zero descriptor size", 0)
        } else if phase == Phase::ProbeSize {
            let pages = pages::pages_holding(size as int);
            allocating(
                Phase::ProbePages,
                Facts { probe_capacity: (pages * PAGE_SIZE) as usize, ..facts },
                pages,
            )
        } else {
            let buffers = boot::buffers_for(size as int, descriptor_size as int);
            allocating(
                Phase::MapPages,
                Facts { descriptor_size, buffers, ..facts },
                buffers.map_pages as int,
            )
        },
        (Phase::Probe, Event::MapRead { status, size, descriptor_size, .. }) => if status
            >= efi::ERROR_BIT {
            failed(facts, "GetMemoryMap (probe)", status)
        } else {
            going(
                Phase::Extent,
                facts,
                Action::MeasureExtent { phys: facts.probe_phys, len: size, descriptor_size },
            )
        },
        (Phase::Extent, Event::Extent(Err(e))) => failed(facts, e.stage, e.status),
        (Phase::Extent, Event::Extent(Ok(len))) => placing(
            Job::Memory { len },
            Facts { mapped: len, ..facts },
            None,
        ),
        (Phase::LastMap { attempt }, Event::MapRead { status, size, key, .. }) => if status
            >= efi::ERROR_BIT {
            failed(facts, "GetMemoryMap", status)
        } else {
            going(Phase::Leaving { attempt, map_len: size }, facts, Action::Leave { key })
        },
        (Phase::Leaving { attempt, map_len }, Event::Left { status }) => if status
            == efi::SUCCESS {
            going(Phase::Silencing { map_len }, facts, Action::Silence)
        } else if status == efi::INVALID_PARAMETER && attempt < EXIT_ATTEMPTS {
            going(
                Phase::LastMap { attempt: (attempt + 1) as usize },
                facts,
                Action::ReadMap { phys: facts.map_phys, capacity: facts.buffers.map_capacity },
            )
        } else {
            failed(facts, "ExitBootServices", status)
        },
        (Phase::Silencing { map_len }, Event::Done) => going(
            Phase::Converting,
            facts,
            Action::Convert {
                map_phys: facts.map_phys,
                map_len,
                descriptor_size: facts.descriptor_size,
                regions_phys: facts.regions_phys,
                capacity: facts.buffers.region_capacity,
            },
        ),
        (Phase::Converting, Event::Converted(Err(_))) => failed(
            facts,
            "memory map did not fit the buffer reserved for it",
            0,
        ),
        (Phase::Converting, Event::Converted(Ok(count))) => going(
            Phase::Writing,
            facts,
            Action::WriteInfo { phys: facts.info_phys, info: info_of(facts, count) },
        ),
        (Phase::Writing, Event::Done) => going(Phase::NoExecute, facts, Action::EnableNoExecute),
        (Phase::NoExecute, Event::Done) => going(
            Phase::Over,
            facts,
            Action::Enter { root: facts.root, entry: facts.entry, info_phys: facts.info_phys },
        ),
        _ => (state, Action::Ignore),
    }
}

impl Phase {
    /// Whether pages are being allocated.
    pub open spec fn allocates(self) -> bool {
        self is KernelPages || self is Root || self is Growing || self is ProbePages
            || self is InfoPages || self is MapPages || self is RegionPages
    }
}

/// Whether a framebuffer that can be drawn on ends, in whole pages, inside the
/// address space.
pub open spec fn fits(fb: Framebuffer) -> bool {
    fb.sane() ==> elf64::page_up(fb.phys + fb.height * fb.stride) <= u64::MAX
}

/// Whether a size query of the memory map has an answer to go on with.
pub open spec fn is_usable(status: usize, descriptor_size: usize) -> bool {
    (status < efi::ERROR_BIT || status == efi::BUFFER_TOO_SMALL) && descriptor_size > 0
}

/// Whether the sizes that an answer leads to fit the address space. Only sizes that
/// are worked out from the answer count: not those of one that fails, and not those
/// of one that was not asked for.
pub open spec fn fitting(state: Boot, event: Event) -> bool {
    match (state.phase, event) {
        (Phase::Display, Event::Display(GopAnswer::Mode { info, .. })) => boot::row_fits(info),
        (Phase::Image, Event::Image(Ok((_, size)))) => pages::pages_holding(size as int)
            <= usize::MAX,
        (Phase::ProbeSize, Event::MapSized { status, size, descriptor_size }) => is_usable(
            status,
            descriptor_size,
        ) ==> pages::pages_holding(size as int) * PAGE_SIZE <= usize::MAX,
        (Phase::MapSize, Event::MapSized { status, size, descriptor_size }) => is_usable(
            status,
            descriptor_size,
        ) ==> boot::buffers_fit(size as int, descriptor_size as int),
        (Phase::Mapping(Job::Memory { .. }), Event::Mapped(Ok(()))) => fits(
            state.facts.framebuffer,
        ),
        (Phase::Converting, Event::Converted(Ok(count))) => count <= u32::MAX,
        _ => true,
    }
}

/// Fail at a step.
fn fail(facts: Facts, e: Error) -> (next: (Boot, Action))
    ensures
        next == failed(facts, e.stage, e.status),
{
    (Boot { phase: Phase::Over, facts }, Action::Fail(Failure::Step(e)))
}

/// Go on with an allocation.
fn allocate(phase: Phase, facts: Facts, pages: usize) -> (next: (Boot, Action))
    ensures
        next == allocating(phase, facts, pages as int),
{
    match pages::request(pages) {
        Err(e) => fail(facts, e),
        Ok(()) => (Boot { phase, facts }, Action::Allocate { pages }),
    }
}

/// Go on with a mapping.
fn place(job: Job, facts: Facts, frame: Option<u64>) -> (next: (Boot, Action))
    ensures
        next == placing(job, facts, frame),
{
    (Boot { phase: Phase::Mapping(job), facts }, Action::Place { job, frame })
}

/// Go on after an allocation that was asked for as `stage`, or fail.
fn allocated(stage: &'static str, state: Boot, status: usize, phys: u64) -> (next: (Boot, Action))
    requires
        state.phase.allocates(),
        stage == allocation(state.phase),
    ensures
        next == (if status >= efi::ERROR_BIT {
            failed(state.facts, stage, status)
        } else {
            after_allocation(state.phase, state.facts, phys)
        }),
{
    let facts = state.facts;
    if let Err(e) = pages::granted(stage, status, phys) {
        return fail(facts, e);
    }
    match state.phase {
        Phase::KernelPages => allocate(Phase::Root, Facts { kernel_phys: phys, ..facts }, 1),
        Phase::Root => place(Job::Kernel, Facts { root: phys, ..facts }, None),
        Phase::Growing(job) => place(job, facts, Some(phys)),
        Phase::ProbePages => (
            Boot { phase: Phase::Probe, facts: Facts { probe_phys: phys, ..facts } },
            Action::ReadMap { phys, capacity: facts.probe_capacity },
        ),
        Phase::InfoPages => (
            Boot { phase: Phase::MapSize, facts: Facts { info_phys: phys, ..facts } },
            Action::QueryMapSize,
        ),
        Phase::MapPages => allocate(
            Phase::RegionPages,
            Facts { map_phys: phys, ..facts },
            facts.buffers.region_pages,
        ),
        _ => (
            Boot {
                phase: Phase::LastMap { attempt: 1 },
                facts: Facts { regions_phys: phys, ..facts },
            },
            Action::ReadMap { phys: facts.map_phys, capacity: facts.buffers.map_capacity },
        ),
    }
}

/// Go on after a mapping.
fn mapped(job: Job, facts: Facts) -> (next: (Boot, Action))
    requires
        job is Memory ==> fits(facts.framebuffer),
    ensures
        next == after_mapping(job, facts),
{
    match job {
        Job::Kernel => (Boot { phase: Phase::ProbeSize, facts }, Action::QueryMapSize),
        Job::Memory { .. } => match boot::framebuffer_window(&facts.framebuffer, facts.mapped) {
            Some((base, len)) => place(Job::Window { base, len }, facts, None),
            None => allocate(Phase::InfoPages, facts, 1),
        },
        Job::Window { .. } => allocate(Phase::InfoPages, facts, 1),
    }
}

/// Go on after the volume has answered.
fn after_files(state: Boot, event: Event) -> (next: (Boot, Action))
    requires
        fitting(state, event),
        state.phase is Volume || state.phase is File || state.phase is Image,
    ensures
        next == (if event is Allocated || event is MapSized {
            (state, Action::Ignore)
        } else {
            follows(state, event)
        }),
{
    let facts = state.facts;
    match (state.phase, event) {
        (Phase::Volume, Event::Volume(Err(e))) => fail(facts, e),
        (Phase::Volume, Event::Volume(Ok(()))) => (
            Boot { phase: Phase::File(Which::Kernel), facts },
            Action::ReadFile(Which::Kernel),
        ),
        (Phase::File(Which::Kernel), Event::File(outcome)) => match fs::required(outcome) {
            Err(e) => fail(facts, e),
            Ok(file) => (
                Boot {
                    phase: Phase::File(Which::Initrd),
                    facts: Facts { kernel_file: file, ..facts },
                },
                Action::ReadFile(Which::Initrd),
            ),
        },
        (Phase::File(Which::Initrd), Event::File(outcome)) => match fs::optional(outcome) {
            Err(e) => fail(facts, e),
            Ok(initrd) => (
                Boot { phase: Phase::Image, facts: Facts { initrd, ..facts } },
                Action::OpenImage(facts.kernel_file),
            ),
        },
        (Phase::Image, Event::Image(Err(e))) => fail(facts, e),
        (Phase::Image, Event::Image(Ok((entry, size)))) => allocate(
            Phase::KernelPages,
            Facts { entry, kernel_len: size, ..facts },
            pages::pages_for(size),
        ),
        _ => (state, Action::Ignore),
    }
}

/// Go on after the size of a memory map has been queried.
fn sized(state: Boot, status: usize, size: usize, descriptor_size: usize) -> (next: (Boot, Action))
    requires
        fitting(state, Event::MapSized { status, size, descriptor_size }),
        state.phase is ProbeSize || state.phase is MapSize,
    ensures
        next == follows(state, Event::MapSized { status, size, descriptor_size }),
{
    let facts = state.facts;
    match boot::memory_map_size(status, size, descriptor_size) {
        Err(e) => fail(facts, e),
        Ok((size, descriptor_size)) => {
            if let Phase::ProbeSize = state.phase {
                let pages = pages::pages_for(size as u64);
                let probe_capacity = pages * PAGE_SIZE as usize;
                allocate(Phase::ProbePages, Facts { probe_capacity, ..facts }, pages)
            } else {
                let buffers = boot::size_buffers(size, descriptor_size);
                allocate(
                    Phase::MapPages,
                    Facts { descriptor_size, buffers, ..facts },
                    buffers.map_pages,
                )
            }
        },
    }
}

/// Go on after a memory map has been read.
fn map_read(state: Boot, event: Event) -> (next: (Boot, Action))
    requires
        event is MapRead,
    ensures
        next == follows(state, event),
{
    let facts = state.facts;
    match (state.phase, event) {
        (
            Phase::Probe,
            Event::MapRead { status, size, descriptor_size, .. },
        ) => match pages::check("GetMemoryMap (probe)", status) {
            Err(e) => fail(facts, e),
            Ok(()) => (
                Boot { phase: Phase::Extent, facts },
                Action::MeasureExtent { phys: facts.probe_phys, len: size, descriptor_size },
            ),
        },
        (
            Phase::LastMap { attempt },
            Event::MapRead { status, size, key, .. },
        ) => match pages::check("GetMemoryMap", status) {
            Err(e) => fail(facts, e),
            Ok(()) => (
                Boot { phase: Phase::Leaving { attempt, map_len: size }, facts },
                Action::Leave { key },
            ),
        },
        _ => (state, Action::Ignore),
    }
}

/// Go on once leaving has been tried.
fn leaving(state: Boot, event: Event) -> (next: (Boot, Action))
    requires
        fitting(state, event),
        state.phase is Leaving || state.phase is Silencing || state.phase is Converting
            || state.phase is Writing || state.phase is NoExecute,
        !(event is Allocated || event is MapSized || event is MapRead),
    ensures
        next == follows(state, event),
{
    let facts = state.facts;
    match (state.phase, event) {
        (Phase::Leaving { attempt, map_len }, Event::Left { status }) => match boot::exit_step(
            attempt,
            status,
        ) {
            ExitStep::Left => (Boot { phase: Phase::Silencing { map_len }, facts }, Action::Silence),
            ExitStep::Retry => (
                Boot { phase: Phase::LastMap { attempt: attempt + 1 }, facts },
                Action::ReadMap { phys: facts.map_phys, capacity: facts.buffers.map_capacity },
            ),
            ExitStep::Failed(e) => fail(facts, e),
        },
        (Phase::Silencing { map_len }, Event::Done) => (
            Boot { phase: Phase::Converting, facts },
            Action::Convert {
                map_phys: facts.map_phys,
                map_len,
                descriptor_size: facts.descriptor_size,
                regions_phys: facts.regions_phys,
                capacity: facts.buffers.region_capacity,
            },
        ),
        (Phase::Converting, Event::Converted(Err(_))) => fail(
            facts,
            Error::own("memory map did not fit the buffer reserved for it"),
        ),
        (Phase::Converting, Event::Converted(Ok(count))) => {
            let info = boot::hand_off(
                facts.regions_phys,
                count,
                facts.framebuffer,
                facts.rsdp,
                facts.initrd,
                facts.kernel_phys,
                facts.kernel_len,
            );
            (
                Boot { phase: Phase::Writing, facts },
                Action::WriteInfo { phys: facts.info_phys, info },
            )
        },
        (Phase::Writing, Event::Done) => (
            Boot { phase: Phase::NoExecute, facts },
            Action::EnableNoExecute,
        ),
        (Phase::NoExecute, Event::Done) => (
            Boot { phase: Phase::Over, facts },
            Action::Enter { root: facts.root, entry: facts.entry, info_phys: facts.info_phys },
        ),
        _ => (state, Action::Ignore),
    }
}

impl Boot {
    /// Start the sequence: with the watchdog, before it can reset the machine.
    #[must_use]
    pub fn start() -> (first: (Boot, Action))
        ensures
            first == going(Phase::Disarming, no_facts(), Action::DisarmWatchdog),
    {
        let facts = Facts {
            rsdp: 0,
            framebuffer: Framebuffer::new(0, 0, 0, 0, PixelFormat::Bgrx8888),
            kernel_file: Loaded { phys: 0, len: 0 },
            initrd: None,
            entry: 0,
            kernel_len: 0,
            kernel_phys: 0,
            root: 0,
            probe_phys: 0,
            probe_capacity: 0,
            mapped: 0,
            info_phys: 0,
            descriptor_size: 0,
            buffers: Buffers { map_pages: 0, map_capacity: 0, region_capacity: 0, region_pages: 0 },
            map_phys: 0,
            regions_phys: 0,
        };
        (Boot { phase: Phase::Disarming, facts }, Action::DisarmWatchdog)
    }
}

/// What an answer leads to: the state the sequence is then in, and what to do.
#[must_use]
pub fn run(state: Boot, event: Event) -> (next: (Boot, Action))
    requires
        fitting(state, event),
    ensures
        next == follows(state, event),
{
    let facts = state.facts;
    match (state.phase, event) {
        (Phase::Disarming, Event::Done) => (
            Boot { phase: Phase::Tables, facts },
            Action::ReadTables,
        ),
        (Phase::Tables, Event::Tables { rsdp }) => (
            Boot { phase: Phase::Display, facts: Facts { rsdp, ..facts } },
            Action::QueryDisplay,
        ),
        (Phase::Display, Event::Display(answer)) => {
            let (framebuffer, _) = boot::locate_framebuffer(&answer);
            (
                Boot { phase: Phase::Volume, facts: Facts { framebuffer, ..facts } },
                Action::OpenVolume,
            )
        },
        (Phase::KernelPages, Event::Allocated { status, phys }) => allocated(
            "allocate kernel image",
            state,
            status,
            phys,
        ),
        (Phase::Root, Event::Allocated { status, phys }) => allocated(
            "allocate PML4",
            state,
            status,
            phys,
        ),
        (Phase::Growing(_), Event::Allocated { status, phys }) => allocated(
            "allocate page table",
            state,
            status,
            phys,
        ),
        (Phase::ProbePages, Event::Allocated { status, phys }) => allocated(
            "allocate probe map",
            state,
            status,
            phys,
        ),
        (Phase::InfoPages, Event::Allocated { status, phys }) => allocated(
            "allocate boot info",
            state,
            status,
            phys,
        ),
        (Phase::MapPages, Event::Allocated { status, phys }) => allocated(
            "allocate memory map",
            state,
            status,
            phys,
        ),
        (Phase::RegionPages, Event::Allocated { status, phys }) => allocated(
            "allocate region array",
            state,
            status,
            phys,
        ),
        (_, Event::Allocated { .. }) => (state, Action::Ignore),
        (Phase::ProbeSize, Event::MapSized { status, size, descriptor_size }) => sized(
            state,
            status,
            size,
            descriptor_size,
        ),
        (Phase::MapSize, Event::MapSized { status, size, descriptor_size }) => sized(
            state,
            status,
            size,
            descriptor_size,
        ),
        (_, Event::MapSized { .. }) => (state, Action::Ignore),
        (_, Event::MapRead { .. }) => map_read(state, event),
        (Phase::Mapping(job), Event::Mapped(Ok(()))) => mapped(job, facts),
        (
            Phase::Mapping(job),
            Event::Mapped(Err(LoadError::Mapping(MapError::OutOfFrames))),
        ) => allocate(Phase::Growing(job), facts, 1),
        (Phase::Mapping(_), Event::Mapped(Err(e))) => (
            Boot { phase: Phase::Over, facts },
            Action::Fail(Failure::Load(e)),
        ),
        (Phase::Extent, Event::Extent(Err(e))) => fail(facts, e),
        (Phase::Extent, Event::Extent(Ok(len))) => place(
            Job::Memory { len },
            Facts { mapped: len, ..facts },
            None,
        ),
        (Phase::Volume, _) => after_files(state, event),
        (Phase::File(_), _) => after_files(state, event),
        (Phase::Image, _) => after_files(state, event),
        (Phase::Leaving { .. }, _) => leaving(state, event),
        (Phase::Silencing { .. }, _) => leaving(state, event),
        (Phase::Converting, _) => leaving(state, event),
        (Phase::Writing, _) => leaving(state, event),
        (Phase::NoExecute, _) => leaving(state, event),
        _ => (state, Action::Ignore),
    }
}

/// Whether the buffers for leaving the firmware fit the address space.
fn map_fits(size: usize, descriptor_size: usize) -> (yes: bool)
    requires
        descriptor_size > 0,
    ensures
        yes == boot::buffers_fit(size as int, descriptor_size as int),
{
    let wanted = size as u128 + 32 * (descriptor_size as u128);
    let capacity = (wanted + 0xFFF) / 0x1000 * 0x1000;
    if wanted > usize::MAX as u128 || capacity > usize::MAX as u128 {
        return false;
    }
    let regions = capacity / descriptor_size as u128;
    assert(regions <= capacity) by (nonlinear_arith)
        requires
            regions == capacity / descriptor_size as u128,
            descriptor_size > 0,
    ;
    regions * 24 <= usize::MAX as u128
}

/// Whether the sizes that an answer leads to fit the address space.
#[must_use]
pub fn is_fitting(state: &Boot, event: &Event) -> (yes: bool)
    ensures
        yes == fitting(*state, *event),
{
    match (state.phase, *event) {
        (Phase::Display, Event::Display(GopAnswer::Mode { info, .. })) => !(info.pixel_format
            == gop_format::BGR || info.pixel_format == gop_format::RGB)
            || info.pixels_per_scan_line as u64 * 4 <= u32::MAX as u64,
        (Phase::Image, Event::Image(Ok((_, size)))) => (size as u128 + 0xFFF) / 0x1000
            <= usize::MAX as u128,
        (Phase::ProbeSize, Event::MapSized { status, size, descriptor_size }) => {
            let answered = !efi::is_error(status) || status == efi::BUFFER_TOO_SMALL;
            !(answered && descriptor_size > 0) || (size as u128 + 0xFFF) / 0x1000 * 0x1000
                <= usize::MAX as u128
        },
        (Phase::MapSize, Event::MapSized { status, size, descriptor_size }) => {
            let answered = !efi::is_error(status) || status == efi::BUFFER_TOO_SMALL;
            !(answered && descriptor_size > 0) || map_fits(size, descriptor_size)
        },
        (Phase::Mapping(Job::Memory { .. }), Event::Mapped(Ok(()))) => {
            let fb = state.facts.framebuffer;
            !fb.is_sane() || fb.phys as u128 + fb.bytes() as u128 + 0xFFF
                < 0x1_0000_0000_0000_0000
        },
        (Phase::Converting, Event::Converted(Ok(count))) => count as u64 <= u32::MAX as u64,
        _ => true,
    }
}

impl Phase {
    /// How many turns a mapping takes at most, with the allocations for the tables
    /// that turn out to be missing: `lacks` of them are, and `given` frames are
    /// there for some of those.
    pub open spec fn turns(self, lacks: int, given: int) -> int {
        match self {
            Phase::Mapping(_) => 2 * lacks + 1 - 2 * given,
            Phase::Growing(_) => 2 * lacks,
            _ => 0,
        }
    }

    /// How many steps are still to come at most, where a mapping and the
    /// allocations it turns out to need are one.
    pub open spec fn rank(self) -> int {
        match self {
            Phase::Disarming => 50,
            Phase::Tables => 49,
            Phase::Display => 48,
            Phase::Volume => 47,
            Phase::File(Which::Kernel) => 46,
            Phase::File(Which::Initrd) => 45,
            Phase::Image => 44,
            Phase::KernelPages => 43,
            Phase::Root => 42,
            Phase::Mapping(Job::Kernel) => 41,
            Phase::Growing(Job::Kernel) => 41,
            Phase::ProbeSize => 39,
            Phase::ProbePages => 38,
            Phase::Probe => 37,
            Phase::Extent => 36,
            Phase::Mapping(Job::Memory { .. }) => 35,
            Phase::Growing(Job::Memory { .. }) => 35,
            Phase::Mapping(Job::Window { .. }) => 33,
            Phase::Growing(Job::Window { .. }) => 33,
            Phase::InfoPages => 31,
            Phase::MapSize => 30,
            Phase::MapPages => 29,
            Phase::RegionPages => 28,
            Phase::LastMap { attempt } => 6 + 2 * (EXIT_ATTEMPTS - attempt),
            Phase::Leaving { attempt, .. } => 5 + 2 * (EXIT_ATTEMPTS - attempt),
            Phase::Silencing { .. } => 4,
            Phase::Converting => 3,
            Phase::Writing => 2,
            Phase::NoExecute => 1,
            Phase::Over => 0,
        }
    }

    /// Whether the attempt to leave that is under way is one that may be made.
    pub open spec fn counted(self) -> bool {
        match self {
            Phase::LastMap { attempt } => 1 <= attempt <= EXIT_ATTEMPTS,
            Phase::Leaving { attempt, .. } => 1 <= attempt <= EXIT_ATTEMPTS,
            _ => true,
        }
    }

    /// Whether the last memory map is being read or has been read.
    pub open spec fn is_last(self) -> bool {
        self is LastMap || self is Leaving || self.is_gone() || self is Over
    }

    /// Whether the firmware has been left.
    pub open spec fn is_gone(self) -> bool {
        self is Silencing || self is Converting || self is Writing || self is NoExecute
    }
}

impl Action {
    /// Whether an action calls the firmware.
    pub open spec fn is_call(self) -> bool {
        self is DisarmWatchdog || self is ReadTables || self is QueryDisplay || self is OpenVolume
            || self is ReadFile || self is Allocate || self is QueryMapSize || self is ReadMap
            || self is Leave
    }

    /// Whether an action takes memory that a memory map has to show as taken.
    pub open spec fn is_claim(self) -> bool {
        self is Allocate || self is ReadFile || self is OpenVolume
    }
}

/// The sequence ends: every answer to what was asked brings it closer to its end,
/// or brings a mapping closer to its own. Leaving the firmware is tried a fixed
/// number of times. A mapping that lacks `lacks` tables and has `given` frames, and
/// is refused for want of more, has made a table in each of them, and lacks `after`
/// then; it is given one more frame, and tried again.
pub proof fn law_the_sequence_ends(
    state: Boot,
    event: Event,
    lacks: nat,
    given: nat,
    after: nat,
)
    requires
        state.phase.counted(),
        state.phase is Mapping && event == Event::Mapped(
            Err(LoadError::Mapping(MapError::OutOfFrames)),
        ) ==> after > 0 && after + given == lacks,
        state.phase is Growing ==> after > 0 && after == lacks,
    ensures
        ({
            let (next, action) = follows(state, event);
            let now: int = if action matches Action::Place { frame, .. } && frame is Some {
                1
            } else {
                0
            };
            &&& next.phase.counted()
            &&& next.phase.rank() >= 0
            &&& action is Ignore ==> next == state
            &&& !(action is Ignore) ==> {
                ||| next.phase.rank() < state.phase.rank()
                ||| next.phase.rank() == state.phase.rank() && 0 <= next.phase.turns(
                    after as int,
                    now,
                ) < state.phase.turns(lacks as int, given as int)
            }
        }),
{
}

/// Nothing is allocated between reading the last memory map and leaving, nor
/// after that: not on any path.
pub proof fn law_nothing_is_taken_once_the_last_map_is_read(state: Boot, event: Event)
    requires
        state.phase.is_last(),
    ensures
        follows(state, event).0.phase.is_last(),
        !follows(state, event).1.is_claim(),
{
}

/// The key of a memory map is used at once: leaving is the very next thing after
/// the map has been read, and it is left with the key of that map.
pub proof fn law_a_key_is_used_at_once(state: Boot, event: Event)
    ensures
        follows(state, event).1 matches Action::Leave { key } ==> (event matches Event::MapRead {
            status,
            key: read,
            ..
        } && status < efi::ERROR_BIT && read == key),
{
}

/// The firmware is never called once it is gone.
pub proof fn law_the_firmware_is_not_called_once_it_is_gone(state: Boot, event: Event)
    requires
        state.phase.is_gone() || state.phase is Over,
    ensures
        follows(state, event).0.phase.is_gone() || follows(state, event).0.phase is Over,
        !follows(state, event).1.is_call(),
{
}

/// A failure ends the sequence, and so does entering the kernel: there is nothing
/// to do after either.
pub proof fn law_nothing_follows_the_end(state: Boot, event: Event)
    ensures
        follows(state, event).1 is Fail ==> follows(state, event).0.phase is Over,
        follows(state, event).1 is Enter ==> follows(state, event).0.phase is Over,
        state.phase is Over ==> follows(state, event) == (state, Action::Ignore),
{
}

/// What the sequence has come to after some answers, and what is then to be done.
pub open spec fn after(events: Seq<Event>) -> (Boot, Action)
    decreases events.len(),
{
    if events.len() == 0 {
        going(Phase::Disarming, no_facts(), Action::DisarmWatchdog)
    } else {
        follows(after(events.drop_last()).0, events.last())
    }
}

/// Whether the firmware said, among some answers, that it has been left.
pub open spec fn has_left(events: Seq<Event>) -> bool {
    exists|i: int|
        0 <= i < events.len() && (#[trigger] events[i] matches Event::Left { status } && status
            == efi::SUCCESS)
}

/// Whether giving the no-execute bit its meaning was asked for, and has been done.
pub open spec fn has_no_execute(events: Seq<Event>) -> bool {
    exists|i: int|
        0 < i <= events.len() && after(#[trigger] events.take(i)).1 is EnableNoExecute
}

proof fn lemma_gone(events: Seq<Event>)
    ensures
        after(events).0.phase.is_gone() || after(events).1 is Enter ==> has_left(events),
    decreases events.len(),
{
    if events.len() > 0 {
        let before = events.drop_last();
        lemma_gone(before);
        let state = after(before).0;
        if state.phase.is_gone() && has_left(before) {
            let i = choose|i: int|
                0 <= i < before.len() && (#[trigger] before[i] matches Event::Left { status }
                    && status == efi::SUCCESS);
            assert(events[i] == before[i]);
        }
        assert(events[events.len() - 1] == events.last());
    }
}

proof fn lemma_no_execute(events: Seq<Event>)
    ensures
        after(events).0.phase is NoExecute ==> has_no_execute(events),
    decreases events.len(),
{
    if events.len() > 0 {
        let before = events.drop_last();
        lemma_no_execute(before);
        assert(events.take(events.len() as int) =~= events);
        if after(before).0.phase is NoExecute {
            let i = choose|i: int|
                0 < i <= before.len() && after(#[trigger] before.take(i)).1 is EnableNoExecute;
            assert(events.take(i) =~= before.take(i));
        }
    }
}

/// The kernel is entered only once the firmware has been left, and only once the
/// no-execute bit has been given its meaning: with the tables loaded before that,
/// every entry that carries the bit would be malformed.
pub proof fn law_the_kernel_is_entered_last(events: Seq<Event>)
    requires
        after(events).1 is Enter,
    ensures
        has_left(events),
        has_no_execute(events.drop_last()),
        events.last() is Done,
{
    lemma_gone(events);
    lemma_no_execute(events.drop_last());
}

/// What the kernel is entered with is what was found: the root of the page
/// tables, the entry point and the place of the structure it is handed, none of
/// which changes once the memory map is being taken.
pub proof fn law_what_was_found_stays(state: Boot, event: Event)
    requires
        state.phase.is_last(),
    ensures
        follows(state, event).0.facts == state.facts,
        follows(state, event).1 matches Action::Enter { root, entry, info_phys } ==> root
            == state.facts.root && entry == state.facts.entry && info_phys
            == state.facts.info_phys,
        follows(state, event).1 matches Action::WriteInfo { phys, .. } ==> phys
            == state.facts.info_phys,
{
}

/// Whether an event answers what a phase waits for.
pub open spec fn answers(phase: Phase, event: Event) -> bool {
    match event {
        Event::Done => phase is Disarming || phase is Silencing || phase is Writing
            || phase is NoExecute,
        Event::Tables { .. } => phase is Tables,
        Event::Display(_) => phase is Display,
        Event::Volume(_) => phase is Volume,
        Event::File(_) => phase is File,
        Event::Image(_) => phase is Image,
        Event::Allocated { .. } => phase is KernelPages || phase is Root || phase is Growing
            || phase is ProbePages || phase is InfoPages || phase is MapPages
            || phase is RegionPages,
        Event::Mapped(_) => phase is Mapping,
        Event::MapSized { .. } => phase is ProbeSize || phase is MapSize,
        Event::MapRead { .. } => phase is Probe || phase is LastMap,
        Event::Extent(_) => phase is Extent,
        Event::Left { .. } => phase is Leaving,
        Event::Converted(_) => phase is Converting,
    }
}

/// Whether an answer says that what was asked for has been done. An initial file
/// system that cannot be opened counts: there is none.
pub open spec fn is_good(phase: Phase, event: Event) -> bool {
    match event {
        Event::Volume(r) => r is Ok,
        Event::File(r) => r is Ok || phase == Phase::File(Which::Initrd) && (r matches Err(e)
            && e is NotOpened),
        Event::Image(r) => r is Ok,
        Event::Allocated { status, .. } => status <= isize::MAX,
        Event::Mapped(r) => r is Ok,
        Event::MapSized { status, descriptor_size, .. } => (status <= isize::MAX || status
            == isize::MAX + 6) && descriptor_size > 0,
        Event::MapRead { status, .. } => status <= isize::MAX,
        Event::Extent(r) => r is Ok,
        Event::Left { status } => status == 0,
        Event::Converted(r) => r is Ok,
        _ => true,
    }
}

/// The number of a phase, in the order the phases come in.
pub open spec fn order(phase: Phase) -> int {
    match phase {
        Phase::Disarming => 0,
        Phase::Tables => 1,
        Phase::Display => 2,
        Phase::Volume => 3,
        Phase::File(Which::Kernel) => 4,
        Phase::File(Which::Initrd) => 5,
        Phase::Image => 6,
        Phase::KernelPages => 7,
        Phase::Root => 8,
        Phase::Mapping(Job::Kernel) => 9,
        Phase::ProbeSize => 10,
        Phase::ProbePages => 11,
        Phase::Probe => 12,
        Phase::Extent => 13,
        Phase::Mapping(Job::Memory { .. }) => 14,
        Phase::Mapping(Job::Window { .. }) => 15,
        Phase::InfoPages => 16,
        Phase::MapSize => 17,
        Phase::MapPages => 18,
        Phase::RegionPages => 19,
        Phase::LastMap { .. } => 20,
        Phase::Leaving { .. } => 21,
        Phase::Silencing { .. } => 22,
        Phase::Converting => 23,
        Phase::Writing => 24,
        Phase::NoExecute => 25,
        Phase::Over => 26,
        Phase::Growing(Job::Kernel) => 9,
        Phase::Growing(Job::Memory { .. }) => 14,
        Phase::Growing(Job::Window { .. }) => 15,
    }
}

/// An answer to a question that was not asked changes nothing, and one to the
/// question that was asked is never ignored.
pub proof fn law_only_an_answer_is_heard(state: Boot, event: Event)
    ensures
        follows(state, event).1 is Ignore <==> !answers(state.phase, event),
        !answers(state.phase, event) ==> follows(state, event).0 == state,
{
}

/// A good answer leads one phase on, or back to a mapping that was waiting for a
/// frame. The window is left out where the framebuffer needs none. Only an
/// allocation of no pages fails after a good answer.
pub proof fn law_a_good_answer_leads_one_phase_on(state: Boot, event: Event)
    requires
        answers(state.phase, event),
        is_good(state.phase, event),
    ensures
        ({
            let (next, action) = follows(state, event);
            &&& action is Fail ==> {
                &&& action matches Action::Fail(Failure::Step(e)) && e.status == 0 && e.stage
                    == "zero-page allocation requested"
                &&& state.phase is Image || state.phase is ProbeSize || state.phase is MapSize
                    || state.phase is MapPages
            }
            &&& !(action is Fail) ==> match state.phase {
                Phase::Growing(job) => {
                    &&& next.phase == Phase::Mapping(job)
                    &&& next.facts == state.facts
                    &&& event matches Event::Allocated { phys, .. } && action == (Action::Place {
                        job,
                        frame: Some(phys),
                    })
                },
                Phase::Mapping(Job::Memory { .. }) => {
                    let window = boot::window_above(state.facts.framebuffer, state.facts.mapped);
                    &&& window matches Some((base, len)) ==> next.phase == Phase::Mapping(
                        Job::Window { base, len },
                    )
                    &&& window is None ==> next.phase == Phase::InfoPages
                },
                _ => order(next.phase) == order(state.phase) + 1,
            }
        }),
{
}

/// A bad answer ends the sequence with the status it carries, but for two that it
/// is prepared for: a mapping that has run out of frames is given another, and a
/// stale key is tried again with a new map.
pub proof fn law_a_bad_answer_ends_the_sequence(state: Boot, event: Event)
    requires
        answers(state.phase, event),
        !is_good(state.phase, event),
    ensures
        ({
            let (next, action) = follows(state, event);
            let short = event == Event::Mapped(Err(LoadError::Mapping(MapError::OutOfFrames)));
            let stale = state.phase matches Phase::Leaving { attempt, .. } && attempt < 8 && event
                == (Event::Left { status: (isize::MAX + 3) as usize });
            &&& next.facts == state.facts
            &&& short ==> action == (Action::Allocate { pages: 1 }) && (
            state.phase matches Phase::Mapping(job) && next.phase == Phase::Growing(job))
            &&& stale ==> action == (Action::ReadMap {
                phys: state.facts.map_phys,
                capacity: state.facts.buffers.map_capacity,
            }) && (state.phase matches Phase::Leaving { attempt, .. } && next.phase
                == Phase::LastMap { attempt: (attempt + 1) as usize })
            &&& !short && !stale ==> {
                &&& next.phase is Over
                &&& action matches Action::Fail(failure) && match event {
                    Event::Mapped(Err(e)) => failure == Failure::Load(e),
                    Event::Volume(Err(e)) => failure == Failure::Step(e),
                    Event::Image(Err(e)) => failure == Failure::Step(e),
                    Event::Extent(Err(e)) => failure == Failure::Step(e),
                    Event::File(Err(FileError::NotOpened(e))) => failure == Failure::Step(e),
                    Event::File(Err(FileError::Broken(e))) => failure == Failure::Step(e),
                    Event::Allocated { status, .. } => failure matches Failure::Step(e)
                        && e.status == status,
                    Event::MapRead { status, .. } => failure matches Failure::Step(e) && e.status
                        == status,
                    Event::Left { status } => failure matches Failure::Step(e) && e.status
                        == status,
                    Event::MapSized { status, .. } => failure matches Failure::Step(e)
                        && e.status == (if status <= isize::MAX || status == isize::MAX + 6 {
                        0
                    } else {
                        status
                    }),
                    _ => failure matches Failure::Step(e) && e.status == 0,
                }
            }
        }),
{
}

/// A failed step is reported by the name of what was being done.
pub proof fn law_a_failed_step_is_named(state: Boot, event: Event)
    ensures
        follows(state, event).1 matches Action::Fail(Failure::Step(e)) ==> match event {
            Event::Allocated { status, .. } if status > isize::MAX => match state.phase {
                Phase::KernelPages => e.stage == "allocate kernel image",
                Phase::Root => e.stage == "allocate PML4",
                Phase::Growing(_) => e.stage == "allocate page table",
                Phase::ProbePages => e.stage == "allocate probe map",
                Phase::InfoPages => e.stage == "allocate boot info",
                Phase::MapPages => e.stage == "allocate memory map",
                Phase::RegionPages => e.stage == "allocate region array",
                _ => false,
            },
            Event::MapRead { .. } => match state.phase {
                Phase::Probe => e.stage == "GetMemoryMap (probe)",
                _ => e.stage == "GetMemoryMap",
            },
            Event::Left { .. } => e.stage == "ExitBootServices",
            Event::Converted(_) => e.stage == "memory map did not fit the buffer reserved for it",
            Event::MapSized { status, descriptor_size, .. } => if status > isize::MAX && status
                != isize::MAX + 6 {
                e.stage == "GetMemoryMap (size query)"
            } else if descriptor_size == 0 {
                e.stage == "firmware reported a zero descriptor size"
            } else {
                e.stage == "zero-page allocation requested"
            },
            _ => true,
        },
{
}

/// What is asked for is what the phase then waits for, and it is asked with what has
/// been found so far.
pub proof fn law_what_is_asked_is_what_is_waited_for(state: Boot, event: Event)
    requires
        answers(state.phase, event),
        fitting(state, event),
        !(follows(state, event).1 is Fail),
    ensures
        ({
            let (next, action) = follows(state, event);
            let facts = next.facts;
            match next.phase {
                Phase::Disarming => false,
                Phase::Tables => action == Action::ReadTables,
                Phase::Display => action == Action::QueryDisplay,
                Phase::Volume => action == Action::OpenVolume,
                Phase::File(which) => action == Action::ReadFile(which),
                Phase::Image => action == Action::OpenImage(facts.kernel_file),
                Phase::KernelPages => {
                    &&& action matches Action::Allocate { pages } && 4096 * pages
                        >= facts.kernel_len && 4096 * (pages - 1) < facts.kernel_len
                },
                Phase::Root => action == (Action::Allocate { pages: 1 }),
                Phase::Growing(_) => action == (Action::Allocate { pages: 1 }),
                Phase::InfoPages => action == (Action::Allocate { pages: 1 }),
                Phase::ProbePages => action matches Action::Allocate { pages } && 4096 * pages
                    == facts.probe_capacity,
                Phase::MapPages => action == (Action::Allocate { pages: facts.buffers.map_pages }),
                Phase::RegionPages => action == (Action::Allocate {
                    pages: facts.buffers.region_pages,
                }),
                Phase::Mapping(job) => {
                    &&& action matches Action::Place { job: asked, frame } && asked == job && (
                    frame is Some <==> state.phase is Growing)
                },
                Phase::ProbeSize => action == Action::QueryMapSize,
                Phase::MapSize => action == Action::QueryMapSize,
                Phase::Probe => action == (Action::ReadMap {
                    phys: facts.probe_phys,
                    capacity: facts.probe_capacity,
                }),
                Phase::LastMap { .. } => action == (Action::ReadMap {
                    phys: facts.map_phys,
                    capacity: facts.buffers.map_capacity,
                }),
                Phase::Extent => event matches Event::MapRead { size, descriptor_size, .. }
                    && action == (Action::MeasureExtent {
                    phys: facts.probe_phys,
                    len: size,
                    descriptor_size,
                }),
                Phase::Leaving { attempt, map_len } => {
                    &&& event matches Event::MapRead { size, key, .. } && size == map_len && action
                        == (Action::Leave { key })
                    &&& state.phase == Phase::LastMap { attempt }
                },
                Phase::Silencing { map_len } => action == Action::Silence && (
                state.phase matches Phase::Leaving { map_len: read, .. } && read == map_len),
                Phase::Converting => state.phase matches Phase::Silencing { map_len } && action
                    == (Action::Convert {
                    map_phys: facts.map_phys,
                    map_len,
                    descriptor_size: facts.descriptor_size,
                    regions_phys: facts.regions_phys,
                    capacity: facts.buffers.region_capacity,
                }),
                Phase::Writing => action matches Action::WriteInfo { phys, info } && phys
                    == facts.info_phys && (event matches Event::Converted(Ok(count))
                    && info.memory_map_len == count),
                Phase::NoExecute => action == Action::EnableNoExecute,
                Phase::Over => action == (Action::Enter {
                    root: facts.root,
                    entry: facts.entry,
                    info_phys: facts.info_phys,
                }),
            }
        }),
{
    if let Event::Image(Ok((_, size))) = event {
        pages::law_pages_hold_their_bytes(size);
    }
}

/// What an answer says is found, and nothing else that was found changes.
pub proof fn law_an_answer_adds_what_it_says(state: Boot, event: Event)
    requires
        answers(state.phase, event),
        is_good(state.phase, event),
    ensures
        ({
            let was = state.facts;
            let facts = follows(state, event).0.facts;
            match (state.phase, event) {
                (_, Event::Tables { rsdp }) => facts == (Facts { rsdp, ..was }),
                (_, Event::Display(answer)) => facts == (Facts {
                    framebuffer: boot::located(answer).0,
                    ..was
                }),
                (Phase::File(Which::Kernel), Event::File(Ok(file))) => facts == (Facts {
                    kernel_file: file,
                    ..was
                }),
                (_, Event::File(Ok(file))) => facts == (Facts { initrd: Some(file), ..was }),
                (_, Event::File(Err(_))) => facts == (Facts { initrd: None, ..was }),
                (_, Event::Image(Ok((entry, size)))) => facts == (Facts {
                    entry,
                    kernel_len: size,
                    ..was
                }),
                (Phase::KernelPages, Event::Allocated { phys, .. }) => facts == (Facts {
                    kernel_phys: phys,
                    ..was
                }),
                (Phase::Root, Event::Allocated { phys, .. }) => facts == (Facts {
                    root: phys,
                    ..was
                }),
                (Phase::ProbePages, Event::Allocated { phys, .. }) => facts == (Facts {
                    probe_phys: phys,
                    ..was
                }),
                (Phase::InfoPages, Event::Allocated { phys, .. }) => facts == (Facts {
                    info_phys: phys,
                    ..was
                }),
                (Phase::MapPages, Event::Allocated { phys, .. }) => facts == (Facts {
                    map_phys: phys,
                    ..was
                }),
                (Phase::RegionPages, Event::Allocated { phys, .. }) => facts == (Facts {
                    regions_phys: phys,
                    ..was
                }),
                (Phase::ProbeSize, Event::MapSized { .. }) => facts == (Facts {
                    probe_capacity: facts.probe_capacity,
                    ..was
                }),
                (_, Event::MapSized { size, descriptor_size, .. }) => facts == (Facts {
                    descriptor_size,
                    buffers: boot::buffers_for(size as int, descriptor_size as int),
                    ..was
                }),
                (_, Event::Extent(Ok(len))) => facts == (Facts { mapped: len, ..was })
                    && follows(state, event).0.phase == Phase::Mapping(Job::Memory { len }),
                _ => facts == was,
            }
        }),
{
}

/// The buffer for the first memory map is whole pages and holds what the firmware
/// said it takes.
pub proof fn law_the_first_map_fits_its_buffer(
    state: Boot,
    status: usize,
    size: usize,
    descriptor_size: usize,
)
    requires
        state.phase is ProbeSize,
        fitting(state, Event::MapSized { status, size, descriptor_size }),
        is_good(state.phase, Event::MapSized { status, size, descriptor_size }),
    ensures
        ({
            let capacity = follows(
                state,
                Event::MapSized { status, size, descriptor_size },
            ).0.facts.probe_capacity;
            capacity % 4096 == 0 && size <= capacity < size + 4096
        }),
{
}

/// The structure the kernel is handed says what was found.
pub proof fn law_the_kernel_is_told_what_was_found(facts: Facts, count: usize)
    requires
        count <= u32::MAX,
    ensures
        ({
            let info = info_of(facts, count);
            &&& info.magic == BootInfo::MAGIC && info.version == 1
            &&& info.memory_map == facts.regions_phys && info.memory_map_len == count
            &&& info.framebuffer == facts.framebuffer
            &&& info.rsdp == facts.rsdp
            &&& info.kernel_phys == facts.kernel_phys && info.kernel_len == facts.kernel_len
            &&& facts.initrd matches Some(file) ==> info.initrd == file.phys && info.initrd_len
                == file.len
            &&& facts.initrd is None ==> info.initrd == 0 && info.initrd_len == 0
        }),
{
}

/// At the start nothing has been found.
pub proof fn law_at_the_start_nothing_is_found()
    ensures
        ({
            let f = no_facts();
            &&& f.rsdp == 0 && f.entry == 0 && f.root == 0 && f.mapped == 0
            &&& f.kernel_phys == 0 && f.kernel_len == 0
            &&& f.kernel_file.phys == 0 && f.kernel_file.len == 0
            &&& f.initrd is None
            &&& f.probe_phys == 0 && f.probe_capacity == 0
            &&& f.info_phys == 0 && f.map_phys == 0 && f.regions_phys == 0
            &&& f.descriptor_size == 0
            &&& f.buffers.map_pages == 0 && f.buffers.map_capacity == 0
            &&& f.buffers.region_pages == 0 && f.buffers.region_capacity == 0
            &&& !f.framebuffer.sane()
        }),
{
}

/// At its own address memory can be written, and only memory itself can be
/// executed there: a framebuffer cannot.
pub proof fn law_only_memory_can_be_executed_in_place(job: Job)
    ensures
        job.allowed().write,
        job.allowed().execute <==> job is Memory,
{
}

/// The sequence takes every answer whose sizes have a chance to fit: a display with
/// rows that a framebuffer can state, a kernel and a first memory map of up to a
/// quarter of the address space, a last memory map a hundredth of that, a framebuffer
/// in the lower half of the address space, and as many regions as a structure can
/// count. No other answer depends on a size.
pub proof fn law_every_answer_of_a_sound_size_is_taken(state: Boot, event: Event)
    requires
        event matches Event::Display(GopAnswer::Mode { info, .. }) ==> info.pixels_per_scan_line
            <= u32::MAX / 4,
        event matches Event::Image(Ok((_, size))) ==> size <= usize::MAX / 4,
        event matches Event::MapSized { size, descriptor_size, .. } ==> size <= usize::MAX / 400
            && descriptor_size <= usize::MAX / 40_000 && usize::MAX >= 0xFFFF_FFFF,
        event is Mapped ==> state.facts.framebuffer.phys + state.facts.framebuffer.height
            * state.facts.framebuffer.stride <= 0x7FFF_FFFF_FFFF_FFFF,
        event matches Event::Converted(Ok(count)) ==> count <= u32::MAX,
    ensures
        fitting(state, event),
{
    if let Event::MapSized { size, descriptor_size, .. } = event {
        if descriptor_size > 0 {
            boot::law_the_buffers_of_a_small_map_fit(size as int, descriptor_size as int);
        }
    }
}

} // verus!
