//! Page allocation, and the error that a failed step of the loader is reported as.
//!
//! Everything the loader allocates is loader data, which the kernel does not hand
//! to its frame allocator at boot: the kernel image, the boot information and the
//! memory map all live there.
use crate::loader::efi;
use crate::loader::efi::Status;
use vstd::prelude::*;

verus! {

/// Bytes per page, everywhere in the loader.
pub const PAGE_SIZE: u64 = 4096;

/// A failed step, named.
///
/// The pair matters more than either half: firmware reports the same status for a
/// missing protocol and a missing file.
#[derive(Clone, Copy, Debug, PartialEq, Eq)]
pub struct Error {
    /// What was being attempted.
    pub stage: &'static str,
    /// The status the firmware returned, or 0 for a failure the loader itself
    /// detected.
    pub status: Status,
}

impl Error {
    /// A firmware call failed.
    #[must_use]
    pub fn efi(stage: &'static str, status: Status) -> (error: Error)
        ensures
            error == (Error { stage, status }),
    {
        Error { stage, status }
    }

    /// The loader rejected something itself; there is no firmware status.
    #[must_use]
    pub fn own(stage: &'static str) -> (error: Error)
        ensures
            error == (Error { stage, status: 0 }),
    {
        Error { stage, status: 0 }
    }

    /// The code worth printing beside the stage: the firmware's status without
    /// the error bit, which is set on every failure and makes every code look
    /// alike. There is none for a failure the loader detected.
    #[must_use]
    pub fn code(&self) -> (code: Option<usize>)
        ensures
            code == (if self.status == 0 {
                None
            } else if self.status >= efi::ERROR_BIT {
                Some((self.status - efi::ERROR_BIT) as usize)
            } else {
                Some(self.status)
            }),
    {
        if self.status == 0 {
            None
        } else if efi::is_error(self.status) {
            Some(self.status - efi::ERROR_BIT)
        } else {
            Some(self.status)
        }
    }
}

/// Turn a status into a `Result`, attributing it to a stage.
///
/// # Errors
/// Returns [`Error`] when `status` has the error bit set.
pub fn check(stage: &'static str, status: Status) -> (result: Result<(), Error>)
    ensures
        result == (if status >= efi::ERROR_BIT {
            Err(Error { stage, status })
        } else {
            Ok(())
        }),
{
    if efi::is_error(status) {
        Err(Error::efi(stage, status))
    } else {
        Ok(())
    }
}

/// Whether a number of pages may be asked for at all.
///
/// # Errors
/// An allocation of no pages is refused.
pub fn request(pages: usize) -> (result: Result<(), Error>)
    ensures
        result == (if pages == 0 {
            Err(Error { stage: "zero-page allocation requested", status: 0 })
        } else {
            Ok(())
        }),
{
    if pages == 0 {
        return Err(Error::own("zero-page allocation requested"));
    }
    Ok(())
}

/// What an allocation comes to: the address the firmware gave, or its status
/// attributed to the stage that asked.
///
/// # Errors
/// Propagates the firmware's status, tagged with `stage`.
pub fn granted(stage: &'static str, status: Status, addr: u64) -> (result: Result<u64, Error>)
    ensures
        result == (if status >= efi::ERROR_BIT {
            Err(Error { stage, status })
        } else {
            Ok(addr)
        }),
{
    match check(stage, status) {
        Ok(()) => Ok(addr),
        Err(e) => Err(e),
    }
}

/// How many whole pages hold `bytes`.
pub open spec fn pages_holding(bytes: int) -> int {
    (bytes + PAGE_SIZE - 1) / PAGE_SIZE as int
}

/// Pages needed to hold `bytes`.
#[must_use]
pub fn pages_for(bytes: u64) -> (pages: usize)
    requires
        pages_holding(bytes as int) <= usize::MAX,
    ensures
        pages == pages_holding(bytes as int),
{
    let whole = bytes / PAGE_SIZE;
    if bytes % PAGE_SIZE == 0 {
        whole as usize
    } else {
        (whole + 1) as usize
    }
}

/// The pages for some bytes hold all of them, and one page fewer would not.
pub proof fn law_pages_hold_their_bytes(bytes: u64)
    ensures
        pages_holding(bytes as int) * PAGE_SIZE >= bytes,
        bytes > 0 ==> (pages_holding(bytes as int) - 1) * PAGE_SIZE < bytes,
{
}

/// A status is a failure exactly when its highest bit is set, and a failure carries
/// the stage and the status. An allocation gives the address it was given otherwise.
pub proof fn law_a_failure_carries_its_status(
    stage: &'static str,
    status: Status,
    addr: u64,
    checked: Result<(), Error>,
    given: Result<u64, Error>,
)
    requires
        call_ensures(check, (stage, status), checked),
        call_ensures(granted, (stage, status, addr), given),
    ensures
        checked is Err <==> status > isize::MAX,
        given is Err <==> status > isize::MAX,
        checked matches Err(e) ==> e.stage == stage && e.status == status,
        given matches Err(e) ==> e.stage == stage && e.status == status,
        given matches Ok(at) ==> at == addr,
{
}

/// The code of a failure is its status without the highest bit, and a failure that
/// the loader detected itself has none.
pub proof fn law_a_code_is_a_status_without_its_highest_bit(error: Error, code: Option<usize>)
    requires
        call_ensures(Error::code, (&error,), code),
    ensures
        code is None <==> error.status == 0,
        code matches Some(c) ==> c <= isize::MAX && (c == error.status || c + isize::MAX + 1
            == error.status),
{
}

} // verus!
