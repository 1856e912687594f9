//! Entering user mode: the frame that returning from an interrupt consumes.
use crate::arch::gdt;
use vstd::prelude::*;

verus! {

/// Flags for a task entering ring 3: the bit that is always one, and interrupts
/// unmasked, without which the timer could not take the processor back.
pub const USER_RFLAGS: u64 = 0x202;

/// The five words that entering ring 3 consumes, in the order they are pushed:
/// stack segment, stack pointer, flags, code segment, instruction pointer.
#[must_use]
pub fn ring3_frame(entry: u64, user_sp: u64) -> (frame: [u64; 5])
    ensures
        frame@ == seq![
            gdt::USER_DATA as u64,
            user_sp,
            USER_RFLAGS,
            gdt::USER_CODE as u64,
            entry,
        ],
{
    let frame = [gdt::USER_DATA as u64, user_sp, USER_RFLAGS, gdt::USER_CODE as u64, entry];
    assert(frame@ =~= seq![
        gdt::USER_DATA as u64,
        user_sp,
        USER_RFLAGS,
        gdt::USER_CODE as u64,
        entry,
    ]);
    frame
}

/// The frame takes a task to its entry point on its own stack, in ring 3, with
/// interrupts unmasked and no other flag that could be set.
pub proof fn law_a_task_enters_in_ring_3(entry: u64, user_sp: u64, frame: [u64; 5])
    requires
        call_ensures(ring3_frame, (entry, user_sp), frame),
    ensures
        frame@[4] == entry,
        frame@[1] == user_sp,
        frame@[0] % 4 == 3 && frame@[3] % 4 == 3,
        frame@[3] == 0x2B && frame@[0] == 0x23,
        frame@[2] == 0x202,
{
}

} // verus!
