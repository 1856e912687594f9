//! Reading the kernel and the initial file system off the boot volume: which steps
//! to take, and what each answer of the firmware means.
//!
//! The firmware performs the steps; here is the order they come in and the checks
//! between them. A file goes to whole pages, so that a kernel image can be parsed
//! in place and an initial file system handed on by its address.
use crate::bytes;
use crate::loader::efi;
use crate::loader::pages;
use crate::loader::pages::{Error, PAGE_SIZE};
use vstd::prelude::*;

verus! {

/// Where the kernel is: `\staros\kernel`.
pub const KERNEL_PATH: [u8; 14] = [
    0x5C, 0x73, 0x74, 0x61, 0x72, 0x6F, 0x73, 0x5C, 0x6B, 0x65, 0x72, 0x6E, 0x65, 0x6C,
];

/// Where the initial file system is, if there is one: `\staros\initramfs`.
pub const INITRD_PATH: [u8; 17] = [
    0x5C, 0x73, 0x74, 0x61, 0x72, 0x6F, 0x73, 0x5C, 0x69, 0x6E, 0x69, 0x74, 0x72, 0x61, 0x6D, 0x66,
    0x73,
];

/// Widen an ASCII path to terminated code units.
#[must_use]
pub fn ucs2(path: &[u8]) -> (wide: Vec<u16>)
    requires
        forall|i: int| 0 <= i < path@.len() ==> (#[trigger] path@[i]) < 0x80,
    ensures
        wide@ == path@.map_values(|b: u8| b as u16).push(0),
{
    let mut wide: Vec<u16> = Vec::new();
    let mut i: usize = 0;
    while i < path.len()
        invariant
            i <= path.len(),
            wide@ =~= path@.take(i as int).map_values(|b: u8| b as u16),
        decreases path.len() - i,
    {
        wide.push(path[i] as u16);
        i = i + 1;
    }
    wide.push(0);
    assert(wide@ =~= path@.map_values(|b: u8| b as u16).push(0));
    wide
}

/// Which file is being read.
#[derive(Clone, Copy, Debug, PartialEq, Eq, Structural)]
pub enum Which {
    /// The kernel, without which there is nothing to boot.
    Kernel,
    /// The initial file system, which may be absent.
    Initrd,
}

impl Which {
    /// The path of a file, as ASCII.
    pub open spec fn path(self) -> Seq<u8> {
        match self {
            Which::Kernel => KERNEL_PATH@,
            Which::Initrd => INITRD_PATH@,
        }
    }

    /// The terminated path the firmware is given.
    #[must_use]
    pub fn wide_path(self) -> (wide: Vec<u16>)
        ensures
            wide@ == self.path().map_values(|b: u8| b as u16).push(0),
    {
        match self {
            Which::Kernel => ucs2(&KERNEL_PATH),
            Which::Initrd => ucs2(&INITRD_PATH),
        }
    }
}

/// A file read into memory.
#[derive(Clone, Copy, Debug, PartialEq, Eq, Structural)]
pub struct Loaded {
    /// Physical base address, page-aligned.
    pub phys: u64,
    /// Length in bytes, as the file system reported it.
    pub len: u64,
}

/// Why a file could not be read.
#[derive(Clone, Copy, Debug, PartialEq, Eq)]
pub enum FileError {
    /// It could not be opened, which for an optional file means it is not there.
    NotOpened(Error),
    /// It exists and cannot be read.
    Broken(Error),
}

/// How far the reading of one file has come.
#[derive(Clone, Copy, Debug, PartialEq, Eq, Structural)]
pub enum FileState {
    /// The firmware has been asked to open it.
    Opening(Which),
    /// The firmware has been asked for its size.
    Sizing,
    /// The firmware has been asked for pages to hold it.
    Allocating {
        /// The size of the file.
        len: u64,
    },
    /// The firmware has been asked for its contents.
    Reading {
        /// Where they go.
        phys: u64,
        /// The size of the file.
        len: u64,
    },
    /// There is nothing more to do.
    Over,
}

/// What the firmware answered.
#[derive(Clone, Copy, Debug, PartialEq, Eq, Structural)]
pub enum FileEvent {
    /// The status of opening.
    Opened {
        /// What the call returned.
        status: usize,
    },
    /// The status of the size query and the size it filled in.
    Sized {
        /// What the call returned.
        status: usize,
        /// The size of the file.
        len: u64,
    },
    /// The status of the allocation and where it is.
    Allocated {
        /// What the call returned.
        status: usize,
        /// Where the pages are.
        phys: u64,
    },
    /// The status of the read and how many bytes came.
    Read {
        /// What the call returned.
        status: usize,
        /// How many bytes came.
        got: u64,
    },
}

/// What to do next.
#[derive(Clone, Copy, Debug, PartialEq, Eq)]
pub enum FileAction {
    /// Ask for the size of the file.
    QuerySize,
    /// Ask for pages.
    Allocate {
        /// How many.
        pages: usize,
    },
    /// Read the file.
    Read {
        /// Where to.
        phys: u64,
        /// How much.
        len: u64,
    },
    /// Close the file and clear the rest of its last page: the file is read.
    Finish {
        /// Where the file is.
        file: Loaded,
        /// How many bytes after it to clear.
        slack: u64,
    },
    /// Close the file and report a failure.
    CloseAndFail(FileError),
    /// Report a failure.
    Fail(FileError),
    /// The answer is to a question that was not asked.
    Ignore,
}

/// The stage that a failure to open is reported as.
pub open spec fn open_stage(which: Which) -> Seq<char> {
    match which {
        Which::Kernel => "open kernel"@,
        Which::Initrd => "open initramfs"@,
    }
}

/// How many bytes of the last page a file leaves unused.
pub open spec fn slack_of(len: u64) -> int {
    pages::pages_holding(len as int) * PAGE_SIZE - len
}

/// The size of a file, out of the information the firmware gave about it.
///
/// # Errors
/// Information too short to hold the size is refused.
pub fn file_size(info: &[u8]) -> (size: Result<u64, Error>)
    ensures
        size == (if info@.len() >= efi::FILE_INFO_SIZE_OFFSET + 8 {
            Ok(bytes::le64(info@, efi::FILE_INFO_SIZE_OFFSET as int))
        } else {
            Err(Error { stage: "EFI_FILE_INFO shorter than its own header", status: 0 })
        }),
{
    match bytes::u64_at(info, efi::FILE_INFO_SIZE_OFFSET) {
        Some(len) => Ok(len),
        None => Err(Error::own("EFI_FILE_INFO shorter than its own header")),
    }
}

/// Start reading a file.
#[must_use]
pub fn begin(which: Which) -> (state: FileState)
    ensures
        state == FileState::Opening(which),
{
    FileState::Opening(which)
}

/// What an answer of the firmware leads to.
///
/// A file is opened, sized, given pages and read, in that order. It must not be
/// empty, and the firmware must hand over all of it: a kernel image missing its
/// tail fails later, somewhere unrelated.
#[must_use]
pub fn advance(state: FileState, event: FileEvent) -> (next: (FileState, FileAction))
    requires
        event matches FileEvent::Sized { len, .. } ==> pages::pages_holding(len as int)
            <= usize::MAX,
        state matches FileState::Reading { len, .. } ==> pages::pages_holding(len as int)
            * PAGE_SIZE <= u64::MAX && pages::pages_holding(len as int) <= usize::MAX,
    ensures
        match (state, event) {
            (FileState::Opening(which), FileEvent::Opened { status }) => {
                if status >= efi::ERROR_BIT {
                    &&& next.0 == FileState::Over
                    &&& next.1 matches FileAction::Fail(FileError::NotOpened(e)) && e.stage@
                        == open_stage(which) && e.status == status
                } else {
                    next == (FileState::Sizing, FileAction::QuerySize)
                }
            },
            (FileState::Sizing, FileEvent::Sized { status, len }) => {
                if status >= efi::ERROR_BIT {
                    next == (
                        FileState::Over,
                        FileAction::Fail(
                            FileError::Broken(Error { stage: "GetInfo(EFI_FILE_INFO)", status }),
                        ),
                    )
                } else if len == 0 {
                    next == (
                        FileState::Over,
                        FileAction::Fail(
                            FileError::Broken(
                                Error { stage: "file on the ESP is empty", status: 0 },
                            ),
                        ),
                    )
                } else {
                    next == (
                        FileState::Allocating { len },
                        FileAction::Allocate { pages: pages::pages_holding(len as int) as usize },
                    )
                }
            },
            (FileState::Allocating { len }, FileEvent::Allocated { status, phys }) => {
                if status >= efi::ERROR_BIT {
                    next == (
                        FileState::Over,
                        FileAction::Fail(
                            FileError::Broken(Error { stage: "allocate pages for file", status }),
                        ),
                    )
                } else {
                    next == (FileState::Reading { phys, len }, FileAction::Read { phys, len })
                }
            },
            (FileState::Reading { phys, len }, FileEvent::Read { status, got }) => {
                if status >= efi::ERROR_BIT {
                    next == (
                        FileState::Over,
                        FileAction::Fail(FileError::Broken(Error { stage: "Read", status })),
                    )
                } else if got != len {
                    next == (
                        FileState::Over,
                        FileAction::CloseAndFail(
                            FileError::Broken(
                                Error { stage: "short read from the ESP", status: 0 },
                            ),
                        ),
                    )
                } else {
                    next == (
                        FileState::Over,
                        FileAction::Finish {
                            file: Loaded { phys, len },
                            slack: slack_of(len) as u64,
                        },
                    )
                }
            },
            _ => next == (state, FileAction::Ignore),
        },
{
    match (state, event) {
        (FileState::Opening(which), FileEvent::Opened { status }) => {
            if efi::is_error(status) {
                let stage = match which {
                    Which::Kernel => "open kernel",
                    Which::Initrd => "open initramfs",
                };
                return (
                    FileState::Over,
                    FileAction::Fail(FileError::NotOpened(Error::efi(stage, status))),
                );
            }
            (FileState::Sizing, FileAction::QuerySize)
        },
        (FileState::Sizing, FileEvent::Sized { status, len }) => {
            if let Err(e) = pages::check("GetInfo(EFI_FILE_INFO)", status) {
                return (FileState::Over, FileAction::Fail(FileError::Broken(e)));
            }
            if len == 0 {
                let e = Error::own("file on the ESP is empty");
                return (FileState::Over, FileAction::Fail(FileError::Broken(e)));
            }
            (FileState::Allocating { len }, FileAction::Allocate { pages: pages::pages_for(len) })
        },
        (FileState::Allocating { len }, FileEvent::Allocated { status, phys }) => {
            match pages::granted("allocate pages for file", status, phys) {
                Err(e) => (FileState::Over, FileAction::Fail(FileError::Broken(e))),
                Ok(phys) => (FileState::Reading { phys, len }, FileAction::Read { phys, len }),
            }
        },
        (FileState::Reading { phys, len }, FileEvent::Read { status, got }) => {
            if let Err(e) = pages::check("Read", status) {
                return (FileState::Over, FileAction::Fail(FileError::Broken(e)));
            }
            if got != len {
                let e = Error::own("short read from the ESP");
                return (FileState::Over, FileAction::CloseAndFail(FileError::Broken(e)));
            }
            let slack = pages::pages_for(len) as u64 * PAGE_SIZE - len;
            (FileState::Over, FileAction::Finish { file: Loaded { phys, len }, slack })
        },
        _ => (state, FileAction::Ignore),
    }
}

/// The outcome for a file that is required.
///
/// # Errors
/// Any failure to read it.
pub fn required(outcome: Result<Loaded, FileError>) -> (file: Result<Loaded, Error>)
    ensures
        file == (match outcome {
            Ok(file) => Ok(file),
            Err(FileError::NotOpened(e)) => Err(e),
            Err(FileError::Broken(e)) => Err(e),
        }),
{
    match outcome {
        Ok(file) => Ok(file),
        Err(FileError::NotOpened(e)) => Err(e),
        Err(FileError::Broken(e)) => Err(e),
    }
}

/// The outcome for a file that may be absent: one that cannot be opened is.
///
/// # Errors
/// A file that exists but cannot be read is a real error, not an absence.
pub fn optional(outcome: Result<Loaded, FileError>) -> (file: Result<Option<Loaded>, Error>)
    ensures
        file == (match outcome {
            Ok(file) => Ok(Some(file)),
            Err(FileError::NotOpened(_)) => Ok(None),
            Err(FileError::Broken(e)) => Err(e),
        }),
{
    match outcome {
        Ok(file) => Ok(Some(file)),
        Err(FileError::NotOpened(_)) => Ok(None),
        Err(FileError::Broken(e)) => Err(e),
    }
}

/// What a protocol query comes to: a status, and whether there is an interface.
///
/// # Errors
/// The firmware's status, tagged with `stage`, and a missing interface.
pub fn interface_found(stage: &'static str, status: usize, present: bool) -> (result: Result<
    (),
    Error,
>)
    ensures
        result == (if status >= efi::ERROR_BIT {
            Err(Error { stage, status })
        } else if !present {
            Err(Error { stage: "firmware returned a null protocol interface", status: 0 })
        } else {
            Ok(())
        }),
{
    if let Err(e) = pages::check(stage, status) {
        return Err(e);
    }
    if !present {
        return Err(Error::own("firmware returned a null protocol interface"));
    }
    Ok(())
}

/// The bytes of a file and its slack are exactly the pages it was given, and the
/// slack is less than one page.
pub proof fn law_a_file_and_its_slack_fill_its_pages(len: u64)
    ensures
        0 <= slack_of(len) < PAGE_SIZE,
        len + slack_of(len) == pages::pages_holding(len as int) * PAGE_SIZE,
{
}

/// The two files lie side by side in one directory: their paths agree up to the
/// name, and no part of a path is a terminator or outside ASCII.
pub proof fn law_both_files_lie_in_one_directory(which: Which, i: int)
    requires
        0 <= i < which.path().len(),
    ensures
        0 < which.path()[i] < 0x80,
        i < 8 ==> which.path()[i] == seq![
            '\\' as u8,
            's' as u8,
            't' as u8,
            'a' as u8,
            'r' as u8,
            'o' as u8,
            's' as u8,
            '\\' as u8,
        ][i],
        which.path().skip(8) =~= (match which {
            Which::Kernel => seq![
                'k' as u8,
                'e' as u8,
                'r' as u8,
                'n' as u8,
                'e' as u8,
                'l' as u8,
            ],
            Which::Initrd => seq![
                'i' as u8,
                'n' as u8,
                'i' as u8,
                't' as u8,
                'r' as u8,
                'a' as u8,
                'm' as u8,
                'f' as u8,
                's' as u8,
            ],
        }),
{
}

/// A failure to open is reported as one of the file that was being opened.
pub proof fn law_a_failure_to_open_names_the_file(which: Which)
    ensures
        which == Which::Kernel ==> open_stage(which) == "open kernel"@,
        which == Which::Initrd ==> open_stage(which) == "open initramfs"@,
{
}

/// Reading a file ends well only if every answer on the way was good, the file is
/// not empty and all of it came: it then lies where its pages were granted, at its
/// full length.
pub proof fn law_a_file_is_read_whole(
    state: FileState,
    event: FileEvent,
    next: (FileState, FileAction),
)
    requires
        event matches FileEvent::Sized { len, .. } ==> pages::pages_holding(len as int)
            <= usize::MAX,
        state matches FileState::Reading { len, .. } ==> pages::pages_holding(len as int)
            * PAGE_SIZE <= u64::MAX,
        call_ensures(advance, (state, event), next),
    ensures
        next.1 matches FileAction::Finish { file, slack } ==> {
            &&& state == FileState::Reading { phys: file.phys, len: file.len }
            &&& event matches FileEvent::Read { status, got } && status <= isize::MAX && got
                == file.len
            &&& 0 <= slack < 4096
            &&& (file.len + slack) % 4096 == 0
        },
        next.0 matches FileState::Reading { phys, len } ==> {
            ||| next.0 == state && next.1 == FileAction::Ignore
            ||| state == FileState::Allocating { len } && next.1 == FileAction::Read { phys, len }
                && (event matches FileEvent::Allocated { status, phys: granted } && status
                <= isize::MAX && granted == phys)
        },
        next.0 matches FileState::Allocating { len } ==> {
            ||| next.0 == state && next.1 == FileAction::Ignore
            ||| len > 0 && state == FileState::Sizing && (event matches FileEvent::Sized {
                status,
                len: size,
            } && status <= isize::MAX && size == len) && (next.1 matches FileAction::Allocate {
                pages,
            } && 4096 * pages >= len && 4096 * (pages - 1) < len)
        },
{
    if let FileState::Reading { len, .. } = state {
        law_a_file_and_its_slack_fill_its_pages(len);
    }
    if let FileEvent::Sized { len, .. } = event {
        pages::law_pages_hold_their_bytes(len);
    }
}

/// A bad answer to the question that was asked ends the reading, and the failure
/// carries the status that the firmware gave. Only a file that could not be opened
/// counts as one that may be absent. A file that is empty, or of which not all came,
/// is broken too, with no status to carry.
pub proof fn law_a_bad_answer_ends_the_reading(
    state: FileState,
    event: FileEvent,
    next: (FileState, FileAction),
)
    requires
        event matches FileEvent::Sized { len, .. } ==> pages::pages_holding(len as int)
            <= usize::MAX,
        state matches FileState::Reading { len, .. } ==> pages::pages_holding(len as int)
            * PAGE_SIZE <= u64::MAX,
        call_ensures(advance, (state, event), next),
    ensures
        match (state, event) {
            (FileState::Opening(_), FileEvent::Opened { status }) => {
                &&& status > isize::MAX ==> next.0 == FileState::Over && (
                next.1 matches FileAction::Fail(FileError::NotOpened(e)) && e.status == status)
                &&& status <= isize::MAX ==> next == (FileState::Sizing, FileAction::QuerySize)
            },
            (FileState::Sizing, FileEvent::Sized { status, len }) => {
                &&& status > isize::MAX ==> next.0 == FileState::Over && (
                next.1 matches FileAction::Fail(FileError::Broken(e)) && e.status == status)
                &&& status <= isize::MAX && len == 0 ==> next.0 == FileState::Over && (
                next.1 matches FileAction::Fail(FileError::Broken(e)) && e.status == 0)
                &&& status <= isize::MAX && len > 0 ==> next.0 == FileState::Allocating { len }
            },
            (FileState::Allocating { len }, FileEvent::Allocated { status, phys }) => {
                &&& status > isize::MAX ==> next.0 == FileState::Over && (
                next.1 matches FileAction::Fail(FileError::Broken(e)) && e.status == status)
                &&& status <= isize::MAX ==> next.0 == FileState::Reading { phys, len }
            },
            (FileState::Reading { len, .. }, FileEvent::Read { status, got }) => {
                &&& next.0 == FileState::Over
                &&& status > isize::MAX ==> (next.1 matches FileAction::Fail(FileError::Broken(e))
                    && e.status == status)
                &&& status <= isize::MAX && got != len ==> (
                next.1 matches FileAction::CloseAndFail(FileError::Broken(e)) && e.status == 0)
                &&& status <= isize::MAX && got == len ==> next.1 is Finish
            },
            _ => next == (state, FileAction::Ignore),
        },
{
}

/// A file that is required fails whenever it was not read, and one that may be
/// absent only when it exists and cannot be read.
pub proof fn law_only_an_optional_file_may_be_absent(
    outcome: Result<Loaded, FileError>,
    needed: Result<Loaded, Error>,
    wanted: Result<Option<Loaded>, Error>,
)
    requires
        call_ensures(required, (outcome,), needed),
        call_ensures(optional, (outcome,), wanted),
    ensures
        needed is Ok <==> outcome is Ok,
        wanted is Err <==> (outcome matches Err(e) && e is Broken),
        outcome matches Ok(file) ==> needed == Ok::<Loaded, Error>(file) && wanted == Ok::<
            Option<Loaded>,
            Error,
        >(Some(file)),
        outcome matches Err(FileError::NotOpened(e)) ==> needed == Err::<Loaded, Error>(e) && wanted
            == Ok::<Option<Loaded>, Error>(None),
        outcome matches Err(FileError::Broken(e)) ==> needed == Err::<Loaded, Error>(e) && wanted
            == Err::<Option<Loaded>, Error>(e),
{
}

/// The size of a file stands eight bytes into its information.
pub proof fn law_the_size_stands_in_the_information(info: &[u8], size: Result<u64, Error>)
    requires
        call_ensures(file_size, (info,), size),
    ensures
        size is Ok <==> info@.len() >= 16,
        size matches Ok(n) ==> n == bytes::le64(info@, 8),
        size matches Err(e) ==> e.status == 0,
{
}

/// A path is widened character by character and terminated.
pub proof fn law_a_path_is_widened_and_terminated(path: &[u8], wide: Vec<u16>, i: int)
    requires
        call_ensures(ucs2, (path,), wide),
        0 <= i < path@.len(),
    ensures
        wide@.len() == path@.len() + 1,
        wide@[i] == path@[i],
        wide@.last() == 0,
{
}

/// An interface is found exactly when the query succeeded and there is one. A query
/// that failed is reported with its status, and a missing interface without one.
pub proof fn law_an_interface_is_found_if_there_is_one(
    stage: &'static str,
    status: usize,
    present: bool,
    result: Result<(), Error>,
)
    requires
        call_ensures(interface_found, (stage, status, present), result),
    ensures
        result is Ok <==> status <= isize::MAX && present,
        result matches Err(e) ==> if status > isize::MAX {
            e.stage == stage && e.status == status
        } else {
            e.status == 0
        },
{
}

} // verus!
