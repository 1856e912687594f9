use staros_pc::loader::efi::{
    acpi1_guid, acpi2_guid, file_info_guid, gop_guid, is_error, loaded_image_guid, simple_fs_guid,
    ERROR_BIT, SUCCESS,
};
use staros_pc::loader::fs::{
    advance, begin, file_size, interface_found, optional, required, ucs2, FileAction, FileError,
    FileEvent, FileState, Loaded, Which,
};
use staros_pc::loader::pages::{check, granted, pages_for, request, Error};

const NOT_FOUND: usize = ERROR_BIT + 14;

#[test]
fn a_file_is_opened_sized_given_pages_and_read() {
    let state = begin(Which::Kernel);
    let (state, action) = advance(state, FileEvent::Opened { status: SUCCESS });
    assert_eq!(action, FileAction::QuerySize);
    let (state, action) = advance(state, FileEvent::Sized { status: SUCCESS, len: 5000 });
    assert_eq!(action, FileAction::Allocate { pages: 2 });
    let (state, action) = advance(state, FileEvent::Allocated { status: SUCCESS, phys: 0x7000 });
    assert_eq!(action, FileAction::Read { phys: 0x7000, len: 5000 });
    let (state, action) = advance(state, FileEvent::Read { status: SUCCESS, got: 5000 });
    let file = Loaded { phys: 0x7000, len: 5000 };
    assert_eq!(action, FileAction::Finish { file, slack: 3192 });
    assert_eq!(state, FileState::Over);
}

#[test]
fn a_file_that_fills_its_pages_leaves_nothing_to_clear() {
    let state = FileState::Reading { phys: 0x7000, len: 8192 };
    let (_, action) = advance(state, FileEvent::Read { status: SUCCESS, got: 8192 });
    assert_eq!(
        action,
        FileAction::Finish { file: Loaded { phys: 0x7000, len: 8192 }, slack: 0 }
    );
}

fn fail(error: FileError) -> (FileState, FileAction) {
    (FileState::Over, FileAction::Fail(error))
}

#[test]
fn every_failure_says_where_it_happened() {
    assert_eq!(
        advance(begin(Which::Kernel), FileEvent::Opened { status: NOT_FOUND }),
        fail(FileError::NotOpened(Error { stage: "open kernel", status: NOT_FOUND }))
    );
    assert_eq!(
        advance(begin(Which::Initrd), FileEvent::Opened { status: NOT_FOUND }),
        fail(FileError::NotOpened(Error { stage: "open initramfs", status: NOT_FOUND }))
    );
    let broken = |stage, status| fail(FileError::Broken(Error { stage, status }));
    assert_eq!(
        advance(FileState::Sizing, FileEvent::Sized { status: NOT_FOUND, len: 1 }),
        broken("GetInfo(EFI_FILE_INFO)", NOT_FOUND)
    );
    assert_eq!(
        advance(FileState::Sizing, FileEvent::Sized { status: SUCCESS, len: 0 }),
        broken("file on the ESP is empty", 0)
    );
    assert_eq!(
        advance(
            FileState::Allocating { len: 1 },
            FileEvent::Allocated { status: NOT_FOUND, phys: 0 }
        ),
        broken("allocate pages for file", NOT_FOUND)
    );
    let reading = FileState::Reading { phys: 0x7000, len: 9 };
    assert_eq!(
        advance(reading, FileEvent::Read { status: NOT_FOUND, got: 9 }),
        broken("Read", NOT_FOUND)
    );
    let short = FileError::Broken(Error { stage: "short read from the ESP", status: 0 });
    assert_eq!(
        advance(reading, FileEvent::Read { status: SUCCESS, got: 8 }),
        (FileState::Over, FileAction::CloseAndFail(short))
    );
}

#[test]
fn an_answer_to_another_question_is_ignored() {
    let event = FileEvent::Opened { status: SUCCESS };
    assert_eq!(advance(FileState::Sizing, event), (FileState::Sizing, FileAction::Ignore));
    assert_eq!(advance(FileState::Over, event), (FileState::Over, FileAction::Ignore));
}

#[test]
fn only_an_optional_file_may_be_absent() {
    let e = Error { stage: "open initramfs", status: NOT_FOUND };
    let file = Loaded { phys: 1, len: 2 };
    assert_eq!(required(Ok(file)), Ok(file));
    assert_eq!(required(Err(FileError::NotOpened(e))), Err(e));
    assert_eq!(required(Err(FileError::Broken(e))), Err(e));
    assert_eq!(optional(Ok(file)), Ok(Some(file)));
    assert_eq!(optional(Err(FileError::NotOpened(e))), Ok(None));
    assert_eq!(optional(Err(FileError::Broken(e))), Err(e));
}

#[test]
fn the_size_is_read_after_the_length_of_the_information() {
    let mut info = vec![0xFF; 16];
    info[8..16].copy_from_slice(&0x1234_5678u64.to_le_bytes());
    assert_eq!(file_size(&info), Ok(0x1234_5678));
    assert_eq!(
        file_size(&info[..15]),
        Err(Error { stage: "EFI_FILE_INFO shorter than its own header", status: 0 })
    );
}

#[test]
fn paths_are_widened_and_terminated() {
    assert_eq!(ucs2(b"\\a"), vec![0x5C, 0x61, 0]);
    let path = |which: Which| String::from_utf16(&which.wide_path()).unwrap();
    assert_eq!(path(Which::Kernel), "\\staros\\kernel\0");
    assert_eq!(path(Which::Initrd), "\\staros\\initramfs\0");
}

#[test]
fn a_missing_interface_is_an_error_of_its_own() {
    assert_eq!(interface_found("x", SUCCESS, true), Ok(()));
    assert_eq!(
        interface_found("x", NOT_FOUND, true),
        Err(Error { stage: "x", status: NOT_FOUND })
    );
    assert_eq!(
        interface_found("x", SUCCESS, false),
        Err(Error { stage: "firmware returned a null protocol interface", status: 0 })
    );
}

#[test]
fn pages_hold_their_bytes_and_no_more_than_needed() {
    let cases = [(0, 0), (1, 1), (4096, 1), (4097, 2), (u64::MAX, 1 << 52)];
    for (bytes, pages) in cases {
        assert_eq!(pages_for(bytes), pages);
    }
}

#[test]
fn an_allocation_of_nothing_is_refused() {
    assert_eq!(
        request(0),
        Err(Error { stage: "zero-page allocation requested", status: 0 })
    );
    assert_eq!(request(1), Ok(()));
    assert_eq!(granted("x", SUCCESS, 0x8000), Ok(0x8000));
    assert_eq!(granted("x", NOT_FOUND, 0x8000), Err(Error { stage: "x", status: NOT_FOUND }));
}

#[test]
fn a_code_is_shown_without_its_error_bit() {
    assert_eq!(Error::efi("x", NOT_FOUND).code(), Some(14));
    assert_eq!(Error::efi("x", 3).code(), Some(3));
    assert_eq!(Error::own("x").code(), None);
    assert_eq!(check("x", 3), Ok(()));
    assert_eq!(check("x", NOT_FOUND), Err(Error::efi("x", NOT_FOUND)));
    assert!(is_error(usize::MAX));
    assert!(!is_error(usize::MAX / 2));
}

#[test]
fn protocols_are_told_apart_by_their_identifiers() {
    let all = [
        acpi1_guid(),
        acpi2_guid(),
        gop_guid(),
        loaded_image_guid(),
        simple_fs_guid(),
        file_info_guid(),
    ];
    for (i, a) in all.iter().enumerate() {
        for (j, b) in all.iter().enumerate() {
            assert_eq!(a.is(b), i == j);
        }
    }
    assert_eq!(acpi2_guid().a, 0x8868_E871);
    assert_eq!(gop_guid().a, 0x9042_A9DE);
}
