//! The page an application processor wakes up in: where its parameters are.
//!
//! A core answering a startup message has no registers worth anything, so what it
//! needs is written into a block at a fixed place of the page that its first code is
//! copied to. The block is at the end of the page, above the code.
use vstd::prelude::*;

pub mod params;

verus! {

/// Where the parameter block begins.
pub const PARAM_BASE: usize = params::CR3;

/// How many bytes of code must be copied to the page, from where the code starts
/// and ends.
#[must_use]
pub fn blob_len(start: usize, end: usize) -> (len: usize)
    requires
        start <= end,
    ensures
        len == end - start,
{
    end - start
}

} // verus!
