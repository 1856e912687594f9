use staros_pc::bootinfo::BootInfo;
use staros_pc::loader::boot::{run, GopAnswer, LoadError, EXIT_ATTEMPTS, MIN_MAPPED};
use staros_pc::loader::efi::{
    gop_format, GopModeInfo, BUFFER_TOO_SMALL, ERROR_BIT, INVALID_PARAMETER, SUCCESS,
};
use staros_pc::loader::fs::{FileError, Loaded, Which};
use staros_pc::loader::memmap::ConvertError;
use staros_pc::loader::pages::Error;
use staros_pc::loader::paging::{MapError, Rights};
use staros_pc::loader::run::{is_fitting, Action, Boot, Event, Failure, Job, Phase};

const DENIED: usize = ERROR_BIT + 9;

fn got(phys: u64) -> Event {
    Event::Allocated { status: SUCCESS, phys }
}

fn sized(size: usize) -> Event {
    Event::MapSized { status: BUFFER_TOO_SMALL, size, descriptor_size: 48 }
}

fn read(size: usize, key: usize) -> Event {
    Event::MapRead { status: SUCCESS, size, descriptor_size: 48, key }
}

/// The answers of a machine on which nothing goes wrong, and what each leads to.
fn smooth() -> Vec<(Event, Action)> {
    let kernel = Loaded { phys: 0x10_0000, len: 9000 };
    let memory = Job::Memory { len: MIN_MAPPED };
    let info = BootInfo {
        magic: BootInfo::MAGIC,
        version: BootInfo::VERSION,
        memory_map_len: 12,
        memory_map: 0x80_0000,
        framebuffer: Boot::start().0.facts.framebuffer,
        rsdp: 0xF_0000,
        initrd: 0,
        initrd_len: 0,
        kernel_phys: 0x20_0000,
        kernel_len: 0x5000,
    };
    vec![
        (Event::Done, Action::ReadTables),
        (Event::Tables { rsdp: 0xF_0000 }, Action::QueryDisplay),
        (Event::Display(GopAnswer::NoProtocol), Action::OpenVolume),
        (Event::Volume(Ok(())), Action::ReadFile(Which::Kernel)),
        (Event::File(Ok(kernel)), Action::ReadFile(Which::Initrd)),
        (
            Event::File(Err(FileError::NotOpened(Error::efi("open initramfs", DENIED)))),
            Action::OpenImage(kernel),
        ),
        (Event::Image(Ok((0xFFFF_FFFF_8000_0010, 0x5000))), Action::Allocate { pages: 5 }),
        (got(0x20_0000), Action::Allocate { pages: 1 }),
        (got(0x30_0000), Action::Place { job: Job::Kernel, frame: None }),
        (
            Event::Mapped(Err(LoadError::Mapping(MapError::OutOfFrames))),
            Action::Allocate { pages: 1 },
        ),
        (got(0x31_0000), Action::Place { job: Job::Kernel, frame: Some(0x31_0000) }),
        (Event::Mapped(Ok(())), Action::QueryMapSize),
        (sized(4800), Action::Allocate { pages: 2 }),
        (got(0x40_0000), Action::ReadMap { phys: 0x40_0000, capacity: 8192 }),
        (
            read(4848, 1),
            Action::MeasureExtent { phys: 0x40_0000, len: 4848, descriptor_size: 48 },
        ),
        (Event::Extent(Ok(MIN_MAPPED)), Action::Place { job: memory, frame: None }),
        (Event::Mapped(Ok(())), Action::Allocate { pages: 1 }),
        (got(0x50_0000), Action::QueryMapSize),
        (sized(4896), Action::Allocate { pages: 2 }),
        (got(0x60_0000), Action::Allocate { pages: 1 }),
        (got(0x80_0000), Action::ReadMap { phys: 0x60_0000, capacity: 8192 }),
        (read(4944, 77), Action::Leave { key: 77 }),
        (
            Event::Left { status: INVALID_PARAMETER },
            Action::ReadMap { phys: 0x60_0000, capacity: 8192 },
        ),
        (read(4992, 78), Action::Leave { key: 78 }),
        (Event::Left { status: SUCCESS }, Action::Silence),
        (
            Event::Done,
            Action::Convert {
                map_phys: 0x60_0000,
                map_len: 4992,
                descriptor_size: 48,
                regions_phys: 0x80_0000,
                capacity: 170,
            },
        ),
        (Event::Converted(Ok(12)), Action::WriteInfo { phys: 0x50_0000, info }),
        (Event::Done, Action::EnableNoExecute),
        (
            Event::Done,
            Action::Enter {
                root: 0x30_0000,
                entry: 0xFFFF_FFFF_8000_0010,
                info_phys: 0x50_0000,
            },
        ),
    ]
}

/// The state after the first `n` answers of a smooth boot.
fn after(n: usize) -> Boot {
    smooth().iter().take(n).fold(Boot::start().0, |state, (event, _)| run(state, *event).0)
}

fn step(stage: &'static str, status: usize) -> Action {
    Action::Fail(Failure::Step(Error { stage, status }))
}

#[test]
fn a_smooth_boot_goes_through_every_step_in_order() {
    let (mut state, first) = Boot::start();
    assert_eq!(first, Action::DisarmWatchdog);
    for (i, (event, expected)) in smooth().into_iter().enumerate() {
        assert!(is_fitting(&state, &event));
        let (next, action) = run(state, event);
        assert_eq!(action, expected, "step {i}");
        state = next;
    }
    assert_eq!(state.phase, Phase::Over);
    assert_eq!(run(state, Event::Done), (state, Action::Ignore));
}

#[test]
fn every_refused_allocation_names_its_stage() {
    let stages: Vec<&str> = (0..smooth().len())
        .filter_map(|n| {
            let (next, action) = run(after(n), Event::Allocated { status: DENIED, phys: 1 });
            match action {
                Action::Fail(Failure::Step(e)) => {
                    assert_eq!(e.status, DENIED);
                    assert_eq!(next.phase, Phase::Over);
                    Some(e.stage)
                }
                other => {
                    assert_eq!(other, Action::Ignore);
                    None
                }
            }
        })
        .collect();
    assert_eq!(
        stages,
        [
            "allocate kernel image",
            "allocate PML4",
            "allocate page table",
            "allocate probe map",
            "allocate boot info",
            "allocate memory map",
            "allocate region array",
        ]
    );
}

#[test]
fn nothing_is_allocated_once_the_last_map_is_read() {
    let start = smooth().iter().position(|(e, _)| *e == read(4944, 77)).unwrap();
    for (_, action) in &smooth()[start..] {
        assert!(!matches!(action, Action::Allocate { .. } | Action::ReadFile(_)));
    }
}

#[test]
fn the_firmware_is_not_called_after_it_is_gone() {
    let left = smooth().iter().position(|(e, _)| *e == Event::Left { status: SUCCESS }).unwrap();
    for (_, action) in &smooth()[left..] {
        assert!(matches!(
            action,
            Action::Silence
                | Action::Convert { .. }
                | Action::WriteInfo { .. }
                | Action::EnableNoExecute
                | Action::Enter { .. }
        ));
    }
}

#[test]
fn a_kernel_that_is_missing_or_broken_stops_the_boot() {
    let e = Error::efi("open kernel", DENIED);
    for outcome in [FileError::NotOpened(e), FileError::Broken(e)] {
        assert_eq!(run(after(4), Event::File(Err(outcome))).1, step("open kernel", DENIED));
    }
    let e = Error::own("short read from the ESP");
    assert_eq!(
        run(after(5), Event::File(Err(FileError::Broken(e)))).1,
        step("short read from the ESP", 0)
    );
    assert_eq!(run(after(3), Event::Volume(Err(e))).1, step("short read from the ESP", 0));
    assert_eq!(run(after(6), Event::Image(Err(e))).1, step("short read from the ESP", 0));
}

#[test]
fn an_initial_file_system_is_handed_on() {
    let file = Loaded { phys: 0x70_0000, len: 3 };
    let (state, action) = run(after(5), Event::File(Ok(file)));
    assert_eq!(state.facts.initrd, Some(file));
    assert_eq!(action, Action::OpenImage(Loaded { phys: 0x10_0000, len: 9000 }));
}

#[test]
fn an_image_of_no_bytes_is_not_allocated() {
    assert_eq!(
        run(after(6), Event::Image(Ok((0, 0)))).1,
        step("zero-page allocation requested", 0)
    );
}

#[test]
fn a_mapping_that_fails_for_another_reason_stops_the_boot() {
    for e in [LoadError::WritableAndExecutable, LoadError::Mapping(MapError::Collides)] {
        let (state, action) = run(after(9), Event::Mapped(Err(e)));
        assert_eq!(action, Action::Fail(Failure::Load(e)));
        assert_eq!(state.phase, Phase::Over);
    }
    let e = Failure::Load(LoadError::Mapping(MapError::Collides)).error();
    assert_eq!(e, Error::own("mapping collides with an existing large page"));
    assert_eq!(Failure::Step(Error::efi("x", 3)).error(), Error::efi("x", 3));
}

#[test]
fn memory_maps_that_cannot_be_had_stop_the_boot() {
    let query = |status, descriptor_size| Event::MapSized { status, size: 48, descriptor_size };
    for n in [12, 18] {
        assert_eq!(
            run(after(n), query(DENIED, 48)).1,
            step("GetMemoryMap (size query)", DENIED)
        );
        assert_eq!(
            run(after(n), query(SUCCESS, 0)).1,
            step("firmware reported a zero descriptor size", 0)
        );
    }
    let denied = Event::MapRead { status: DENIED, size: 0, descriptor_size: 48, key: 0 };
    assert_eq!(run(after(14), denied).1, step("GetMemoryMap (probe)", DENIED));
    assert_eq!(run(after(21), denied).1, step("GetMemoryMap", DENIED));
    assert_eq!(
        run(after(26), Event::Converted(Err(ConvertError::TooManyRegions(200)))).1,
        step("memory map did not fit the buffer reserved for it", 0)
    );
    let e = Error::own("firmware reported an impossible descriptor size");
    assert_eq!(run(after(15), Event::Extent(Err(e))).1, Action::Fail(Failure::Step(e)));
}

#[test]
fn leaving_is_tried_a_fixed_number_of_times() {
    let mut state = after(21);
    let mut attempts = 0;
    loop {
        state = run(state, read(4944, attempts)).0;
        attempts += 1;
        let (next, action) = run(state, Event::Left { status: INVALID_PARAMETER });
        state = next;
        if action == step("ExitBootServices", INVALID_PARAMETER) {
            break;
        }
    }
    assert_eq!(attempts, EXIT_ATTEMPTS);
    assert_eq!(run(after(22), Event::Left { status: DENIED }).1, step("ExitBootServices", DENIED));
}

fn display(framebuffer_base: u64, pixels_per_scan_line: u32) -> Event {
    Event::Display(GopAnswer::Mode {
        framebuffer_base,
        info: GopModeInfo {
            version: 0,
            horizontal_resolution: 800,
            vertical_resolution: 600,
            pixel_format: gop_format::BGR,
            pixel_information: [0; 4],
            pixels_per_scan_line,
        },
    })
}

#[test]
fn a_framebuffer_above_memory_is_mapped_too() {
    let mut state = run(after(2), display(2 * MIN_MAPPED, 800)).0;
    for (event, _) in &smooth()[3..16] {
        state = run(state, *event).0;
    }
    let window = Job::Window { base: 2 * MIN_MAPPED, len: 800 * 600 * 4 + 1024 };
    let (state, action) = run(state, Event::Mapped(Ok(())));
    assert_eq!(action, Action::Place { job: window, frame: None });
    assert_eq!(run(state, Event::Mapped(Ok(()))).1, Action::Allocate { pages: 1 });
    assert_eq!(window.rights(), Rights::rw());
    assert_eq!(
        Job::Memory { len: MIN_MAPPED }.rights(),
        Rights { write: true, execute: true }
    );
}

#[test]
fn answers_whose_sizes_do_not_fit_are_recognised() {
    let fits = |n: usize, event: Event| is_fitting(&after(n), &event);
    assert!(fits(2, display(0x8000_0000, 800)));
    assert!(!fits(2, display(0x8000_0000, 0x4000_0000)));
    assert!(fits(6, Event::Image(Ok((0, u64::MAX)))));
    assert!(fits(12, sized(4800)));
    assert!(fits(12, sized(usize::MAX - 0xFFF)));
    assert!(!fits(12, sized(usize::MAX - 100)));
    assert!(fits(18, sized(4800)));
    assert!(!fits(18, sized(usize::MAX - 100)));
    assert!(fits(26, Event::Converted(Ok(u32::MAX as usize))));
    assert!(!fits(26, Event::Converted(Ok(u32::MAX as usize + 1))));
    // A framebuffer at the very end matters only once memory is mapped.
    let high = display(u64::MAX - 800 * 600 * 4 - 10, 800);
    assert!(fits(2, high));
    let mut state = run(after(2), high).0;
    for (event, _) in &smooth()[3..16] {
        assert!(is_fitting(&state, event));
        state = run(state, *event).0;
    }
    assert!(!is_fitting(&state, &Event::Mapped(Ok(()))));
}

#[test]
fn sizes_that_are_never_worked_out_do_not_have_to_fit() {
    let fits = |n: usize, event: Event| is_fitting(&after(n), &event);
    // A format whose pixels cannot be written.
    let unsupported = match display(0x8000_0000, 0x4000_0000) {
        Event::Display(GopAnswer::Mode { framebuffer_base, info }) => {
            let info = GopModeInfo { pixel_format: gop_format::BLT_ONLY, ..info };
            Event::Display(GopAnswer::Mode { framebuffer_base, info })
        }
        other => other,
    };
    assert!(fits(2, unsupported));
    let (state, action) = run(after(2), unsupported);
    assert!(!state.facts.framebuffer.is_sane());
    assert_eq!(action, Action::OpenVolume);
    // Queries that failed.
    for n in [12, 18] {
        let failed =
            Event::MapSized { status: DENIED, size: usize::MAX, descriptor_size: usize::MAX };
        assert!(fits(n, failed));
        assert_eq!(run(after(n), failed).1, step("GetMemoryMap (size query)", DENIED));
        let zero = Event::MapSized { status: SUCCESS, size: usize::MAX, descriptor_size: 0 };
        assert!(fits(n, zero));
        assert_eq!(run(after(n), zero).1, step("firmware reported a zero descriptor size", 0));
    }
    // A map of which a region array fits although 24 times the map would not.
    assert!(fits(18, Event::MapSized {
        status: SUCCESS,
        size: usize::MAX / 16,
        descriptor_size: 48,
    }));
    // An answer to another question.
    assert!(fits(0, sized(usize::MAX)));
}
