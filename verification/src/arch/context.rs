//! Switching between kernel tasks: what is saved, and how a new task starts.
//!
//! A switch happens at a function-call boundary, so only the callee-saved registers
//! and the stack pointer are saved. Starting a task takes more: returning from a
//! switch takes its target off the stack, so the first frame has to be built on the
//! task's own stack.
use vstd::prelude::*;

verus! {

/// Byte offset of the saved `RBX`.
pub const OFF_RBX: usize = 0;

/// Byte offset of the saved `RBP`.
pub const OFF_RBP: usize = 8;

/// Byte offset of the saved `R12`.
pub const OFF_R12: usize = 16;

/// Byte offset of the saved `R13`.
pub const OFF_R13: usize = 24;

/// Byte offset of the saved `R14`.
pub const OFF_R14: usize = 32;

/// Byte offset of the saved `R15`.
pub const OFF_R15: usize = 40;

/// Byte offset of the saved stack pointer.
pub const OFF_RSP: usize = 48;

/// Saved callee-saved state of a suspended task.
#[derive(Clone, Copy, Debug, PartialEq, Eq)]
pub struct CpuContext {
    /// `RBX`, `RBP`, `R12`, `R13`, `R14`, `R15`, in that order.
    pub regs: [u64; 6],
    /// Stack pointer.
    pub rsp: u64,
}

/// Where the first frame of a task goes on a stack of `len` words at `base`: the
/// highest place that leaves the stack pointer aligned once the frame has been
/// taken off, or nowhere if there is no room.
pub open spec fn frame_at(base: u64, len: nat) -> Option<u64> {
    let end = base + 8 * len;
    let top = end - end % 16;
    if end > u64::MAX || top < base + 8 {
        None
    } else {
        Some((top - 8) as u64)
    }
}

/// Build a fresh task's first frame on a stack that lies at `base`, and return the
/// stack pointer that a switch should load to enter it.
///
/// The frame is one word, the address that the switch will return to. Returns
/// `None` if the stack has no room for that word.
pub fn plant_at(base: u64, stack: &mut [u64], trampoline: u64) -> (rsp: Option<u64>)
    ensures
        rsp == frame_at(base, old(stack)@.len()),
        match rsp {
            None => final(stack)@ == old(stack)@,
            Some(rsp) => {
                &&& 0 <= (rsp - base) / 8 < old(stack)@.len()
                &&& final(stack)@ == old(stack)@.update((rsp - base) / 8, trampoline)
            },
        },
{
    let len = stack.len() as u64;
    let Some(bytes) = len.checked_mul(8) else {
        return None;
    };
    let Some(end) = base.checked_add(bytes) else {
        return None;
    };
    let top = end - end % 16;
    if top < base || top - base < 8 {
        return None;
    }
    let rsp = top - 8;
    let index = (rsp - base) / 8;
    stack[index as usize] = trampoline;
    Some(rsp)
}

/// The address of a stack, which is wherever the slice lies: `as_ptr` of the
/// slice, as a number. What is claimed of it is that the slice ends inside the
/// address space, as every slice does. Where it lies is not claimed, nor how it is
/// aligned, which is a matter of the machine.
#[verifier::external_body]
fn address_of(stack: &[u64]) -> (base: u64)
    ensures
        base + 8 * stack@.len() <= u64::MAX,
{
    stack.as_ptr() as u64
}

/// Build a fresh task's first frame on `stack`, wherever it lies, and return the
/// stack pointer that a switch should load to enter it. See [`plant_at`]. A stack
/// of three words or more always has room.
#[must_use]
pub fn plant(stack: &mut [u64], trampoline: u64) -> (rsp: Option<u64>)
    ensures
        old(stack)@.len() >= 3 ==> rsp is Some,
        old(stack)@.len() == 0 ==> rsp is None,
        exists|base: u64|
            rsp == #[trigger] frame_at(base, old(stack)@.len()) && base + 8 * old(stack)@.len()
                <= u64::MAX && match rsp {
                None => final(stack)@ == old(stack)@,
                Some(rsp) => {
                    &&& 0 <= (rsp - base) / 8 < old(stack)@.len()
                    &&& final(stack)@ == old(stack)@.update((rsp - base) / 8, trampoline)
                },
            },
{
    let base = address_of(stack);
    plant_at(base, stack, trampoline)
}

impl CpuContext {
    /// An all-zero context, suitable as the destination of the first switch.
    #[must_use]
    pub fn empty() -> (context: CpuContext)
        ensures
            context == (CpuContext { regs: [0, 0, 0, 0, 0, 0], rsp: 0 }),
    {
        CpuContext { regs: [0, 0, 0, 0, 0, 0], rsp: 0 }
    }

    /// The saved stack pointer.
    #[must_use]
    pub fn rsp(&self) -> (rsp: u64)
        ensures
            rsp == self.rsp,
    {
        self.rsp
    }

    /// The context as it lies in memory.
    #[must_use]
    pub fn to_words(&self) -> (words: [u64; 7])
        ensures
            words@ == self.regs@.push(self.rsp),
    {
        let words = [
            self.regs[0],
            self.regs[1],
            self.regs[2],
            self.regs[3],
            self.regs[4],
            self.regs[5],
            self.rsp,
        ];
        assert(words@ =~= self.regs@.push(self.rsp));
        words
    }

    /// Prepare a fresh task: on the first switch it starts at `trampoline`, which
    /// calls `entry` on `stack`.
    ///
    /// The entry is parked in `RBX`, which survives the trampoline's own call; the
    /// rest is zero, which ends the frame-pointer chain at the task's entry.
    /// Returns `false`, and leaves the context alone, when `stack` is too short.
    pub fn init(&mut self, entry: u64, trampoline: u64, stack: &mut [u64]) -> (ready: bool)
        ensures
            old(stack)@.len() >= 3 ==> ready,
            exists|base: u64|
                base + 8 * old(stack)@.len() <= u64::MAX && match #[trigger] frame_at(
                    base,
                    old(stack)@.len(),
                ) {
                    None => !ready && *final(self) == *old(self) && final(stack)@ == old(stack)@,
                    Some(rsp) => {
                        &&& ready
                        &&& *final(self) == (CpuContext { regs: [entry, 0, 0, 0, 0, 0], rsp })
                        &&& 0 <= (rsp - base) / 8 < old(stack)@.len()
                        &&& final(stack)@ == old(stack)@.update((rsp - base) / 8, trampoline)
                    },
                },
    {
        match plant(stack, trampoline) {
            None => false,
            Some(rsp) => {
                self.regs = [entry, 0, 0, 0, 0, 0];
                self.rsp = rsp;
                true
            },
        }
    }
}

/// The frame lies in the stack, and the stack pointer is aligned once it has been
/// taken off: what a function body may assume from its first instruction on. A
/// stack of three words always has room for it, and one of two words does unless it
/// lies across words; an empty one never does.
pub proof fn law_a_new_task_starts_on_an_aligned_stack(base: u64, len: nat)
    ensures
        frame_at(base, len) matches Some(rsp) ==> {
            &&& base <= rsp
            &&& rsp + 8 <= base + 8 * len
            &&& (rsp + 8) % 16 == 0
        },
        len == 0 ==> frame_at(base, len) is None,
        len >= 3 && base + 8 * len <= u64::MAX ==> frame_at(base, len) is Some,
        len == 2 && base % 8 == 0 && base + 16 <= u64::MAX ==> frame_at(base, len) is Some,
{
}

/// A new task has the whole of its stack: less than sixteen bytes above its frame
/// go unused. It has a frame exactly when an aligned place for one word lies in
/// the stack, and then at the highest such place.
pub proof fn law_a_new_task_has_its_whole_stack(base: u64, len: nat)
    ensures
        frame_at(base, len) matches Some(rsp) ==> {
            &&& base + 8 * len - (rsp + 8) < 16
            &&& forall|top: int|
                top % 16 == 0 && top <= base + 8 * len ==> #[trigger] (top - 8) <= rsp
        },
        frame_at(base, len) is Some <==> base + 8 * len <= u64::MAX && exists|top: int|
            top % 16 == 0 && base <= #[trigger] (top - 8) && top <= base + 8 * len,
{
    let end = base + 8 * len;
    let top = end - end % 16;
    if frame_at(base, len) is Some {
        assert(base <= top - 8);
    }
}

/// The frame of a new task is the only word of its stack that is written, and it is
/// where the switch returns to: at the word that the stack pointer names.
pub proof fn law_only_the_frame_is_written(base: u64, before: Seq<u64>, trampoline: u64, i: int)
    requires
        frame_at(base, before.len()) is Some,
        0 <= i < before.len(),
        base % 8 == 0,
    ensures
        ({
            let rsp = frame_at(base, before.len())->0;
            let after = before.update((rsp - base) / 8, trampoline);
            after[i] == (if base + 8 * i == rsp {
                trampoline
            } else {
                before[i]
            })
        }),
{
}

/// A planted task starts at the highest place that its stack has for it: the word
/// that is written lies in the stack, less than sixteen bytes above it go unused, and
/// the stack pointer is aligned once it has been taken off. Every other word of the
/// stack is left as it was.
pub proof fn law_a_task_is_planted_at_the_top_of_its_stack(
    base: u64,
    stack: &mut [u64],
    trampoline: u64,
    rsp: Option<u64>,
    i: int,
)
    requires
        call_ensures(plant_at, (base, stack, trampoline), rsp),
        base % 8 == 0,
        0 <= i < old(stack)@.len(),
    ensures
        final(stack)@.len() == old(stack)@.len(),
        ({
            let end = base + 8 * old(stack)@.len();
            match rsp {
                Some(rsp) => {
                    &&& base <= rsp && rsp + 8 <= end
                    &&& end - (rsp + 8) < 16
                    &&& (rsp + 8) % 16 == 0
                    &&& base + 8 * i == rsp ==> final(stack)@[i] == trampoline
                    &&& base + 8 * i != rsp ==> final(stack)@[i] == old(stack)@[i]
                },
                None => {
                    &&& end > u64::MAX || old(stack)@.len() < 2
                    &&& final(stack)@[i] == old(stack)@[i]
                },
            }
        }),
{
}

} // verus!
