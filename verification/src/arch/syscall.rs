//! The fast system call path: how ring 3 gets into the kernel and back out.
//!
//! Entering is a bare jump: it leaves the stack pointer alone and puts the return
//! address and the flags in registers. Leaving the fast way has a trap in it: a
//! return address that is not canonical faults before the drop to ring 3, in ring
//! 0. So the address is checked on the way out, and one that fails the check goes
//! back the slow way, which delivers the fault in ring 3 where it belongs.
use crate::arch::gdt;
use vstd::prelude::*;

verus! {

/// Extended feature register.
pub const IA32_EFER: u32 = 0xC000_0080;

/// That register: system calls are enabled.
pub const EFER_SCE: u64 = 1;

/// Selector bases for entering and leaving. See [`star_value`].
pub const IA32_STAR: u32 = 0xC000_0081;

/// Where a system call jumps.
pub const IA32_LSTAR: u32 = 0xC000_0082;

/// Which flags a system call clears. See [`FMASK`].
pub const IA32_FMASK: u32 = 0xC000_0084;

/// The current `GS` base.
pub const IA32_GS_BASE: u32 = 0xC000_0101;

/// The `GS` base that is exchanged with the current one.
pub const IA32_KERNEL_GS_BASE: u32 = 0xC000_0102;

/// Trap flag: cleared, or a user debugger steps the kernel.
pub const RFLAGS_TF: u64 = 0x100;

/// Interrupt enable: cleared, or an interrupt lands on the user stack.
pub const RFLAGS_IF: u64 = 0x200;

/// Direction flag: cleared, because compiled code may assume it is.
pub const RFLAGS_DF: u64 = 0x400;

/// Nested task: cleared, so that returning cannot be steered by it.
pub const RFLAGS_NT: u64 = 0x4000;

/// Resume flag.
pub const RFLAGS_RF: u64 = 0x1_0000;

/// Alignment check, which also disables the protection of user pages: cleared, or
/// ring 3 turns off what ring 0 relies on.
pub const RFLAGS_AC: u64 = 0x4_0000;

/// Every flag the caller must not be able to impose on the kernel.
pub const FMASK: u64 = RFLAGS_TF + RFLAGS_IF + RFLAGS_DF + RFLAGS_NT + RFLAGS_RF + RFLAGS_AC;

/// Build the value of [`IA32_STAR`] from the two selector bases. The processor
/// derives four selectors from them by adding fixed offsets.
#[must_use]
pub fn star_value(kernel_base: u16, user_base: u16) -> (star: u64)
    ensures
        star == user_base * 0x1_0000_0000_0000 + kernel_base * 0x1_0000_0000,
{
    user_base as u64 * 0x1_0000_0000_0000 + kernel_base as u64 * 0x1_0000_0000
}

/// The kernel base in a value of [`IA32_STAR`].
pub open spec fn kernel_base(star: u64) -> u16 {
    ((star / 0x1_0000_0000) % 0x1_0000) as u16
}

/// The user base in a value of [`IA32_STAR`].
pub open spec fn user_base(star: u64) -> u16 {
    (star / 0x1_0000_0000_0000) as u16
}

/// A selector with an offset added, as the processor adds it.
pub open spec fn moved(selector: u16, by: int) -> u16 {
    ((selector + by) % 0x1_0000) as u16
}

/// A selector for ring 3.
pub open spec fn ring3(selector: u16) -> u16 {
    (selector - selector % 4 + 3) as u16
}

/// The code segment that entering loads.
#[must_use]
pub fn syscall_cs(star: u64) -> (cs: u16)
    ensures
        cs == kernel_base(star),
{
    ((star / 0x1_0000_0000) % 0x1_0000) as u16
}

/// The stack segment that entering loads.
#[must_use]
pub fn syscall_ss(star: u64) -> (ss: u16)
    ensures
        ss == moved(kernel_base(star), 8),
{
    ((syscall_cs(star) as u32 + 8) % 0x1_0000) as u16
}

/// The code segment that leaving loads, always for ring 3.
#[must_use]
pub fn sysret_cs(star: u64) -> (cs: u16)
    ensures
        cs == ring3(moved(user_base(star), 16)),
{
    let base = (star / 0x1_0000_0000_0000) as u32;
    let selector = ((base + 16) % 0x1_0000) as u16;
    selector - selector % 4 + 3
}

/// The stack segment that leaving loads, always for ring 3.
#[must_use]
pub fn sysret_ss(star: u64) -> (ss: u16)
    ensures
        ss == ring3(moved(user_base(star), 8)),
{
    let base = (star / 0x1_0000_0000_0000) as u32;
    let selector = ((base + 8) % 0x1_0000) as u16;
    selector - selector % 4 + 3
}

/// The bases survive being put together, and what leaving loads is always for
/// ring 3.
pub proof fn law_the_bases_survive(kernel: u16, user: u16)
    ensures
        ({
            let star = (user * 0x1_0000_0000_0000 + kernel * 0x1_0000_0000) as u64;
            &&& kernel_base(star) == kernel
            &&& user_base(star) == user
        }),
        ring3(moved(user, 16)) % 4 == 3,
        ring3(moved(user, 8)) % 4 == 3,
{
}

/// Whether an address is canonical: in the lower or the upper half of the address
/// space, with nothing between.
pub open spec fn canonical(address: u64) -> bool {
    address < 0x8000_0000_0000 || address >= 0xFFFF_8000_0000_0000
}

/// Whether `address` is canonical, which leaving the fast way does not check.
#[must_use]
pub fn is_canonical(address: u64) -> (yes: bool)
    ensures
        yes == canonical(address),
{
    address < 0x8000_0000_0000 || address >= 0xFFFF_8000_0000_0000
}

proof fn lemma_sign_extension(address: u64)
    by (bit_vector)
    ensures
        (address < 0x8000_0000_0000 || address >= 0xFFFF_8000_0000_0000) <==> ((address >> 47) == 0
            || (address >> 47) == 0x1_FFFF),
        (address < 0x8000_0000_0000 || address >= 0xFFFF_8000_0000_0000) <==> (((address << 16)
            as i64) >> 16) as u64 == address,
{
}

/// An address is canonical exactly when its top seventeen bits are all equal, which
/// is when extending the sign of bit 47 gives the address back.
pub proof fn law_canonical_is_the_sign_extension_of_bit_47(address: u64)
    ensures
        canonical(address) <==> ((address >> 47) == 0 || (address >> 47) == 0x1_FFFF),
        canonical(address) <==> (((address << 16) as i64) >> 16) as u64 == address,
{
    lemma_sign_extension(address);
}

/// What a core keeps where the entry code can reach it without a stack.
#[derive(Clone, Copy, Debug, PartialEq, Eq, Structural)]
pub struct PerCpu {
    /// Top of the kernel stack for whatever task is running.
    pub kernel_rsp: u64,
    /// Where the entry code parks the user's stack pointer.
    pub scratch_rsp: u64,
    /// This core's index, and the number the kernel calls it by. The hardware's own
    /// id is not an index: firmware leaves gaps.
    pub cpu_index: u64,
}

/// Byte offset of [`PerCpu::kernel_rsp`].
pub const OFF_KERNEL_RSP: usize = 0;

/// Byte offset of [`PerCpu::scratch_rsp`].
pub const OFF_SCRATCH_RSP: usize = 8;

/// Byte offset of [`PerCpu::cpu_index`].
pub const OFF_CPU_INDEX: usize = 16;

impl PerCpu {
    /// The block as it lies in memory.
    #[must_use]
    pub fn to_words(&self) -> (words: [u64; 3])
        ensures
            words@ == seq![self.kernel_rsp, self.scratch_rsp, self.cpu_index],
    {
        let words = [self.kernel_rsp, self.scratch_rsp, self.cpu_index];
        assert(words@ =~= seq![self.kernel_rsp, self.scratch_rsp, self.cpu_index]);
        words
    }
}

/// How many cores this kernel can run on.
pub const MAX_CPUS: usize = 32;

/// One block for every core.
pub struct PerCpuTable {
    /// The blocks, by core.
    pub blocks: Vec<PerCpu>,
}

/// The block of a core: its own, or the last one for a core beyond what there is
/// room for.
pub open spec fn slot(cpu: int) -> int {
    if cpu < MAX_CPUS {
        cpu
    } else {
        MAX_CPUS - 1
    }
}

impl PerCpuTable {
    /// Whether there is a block for every core.
    pub open spec fn wf(&self) -> bool {
        self.blocks@.len() == MAX_CPUS
    }

    /// A table of empty blocks.
    #[must_use]
    pub fn new() -> (table: PerCpuTable)
        ensures
            table.wf(),
            forall|i: int|
                0 <= i < MAX_CPUS ==> #[trigger] table.blocks@[i] == (PerCpu {
                    kernel_rsp: 0,
                    scratch_rsp: 0,
                    cpu_index: 0,
                }),
    {
        let mut blocks: Vec<PerCpu> = Vec::new();
        while blocks.len() < MAX_CPUS
            invariant
                blocks@.len() <= MAX_CPUS,
                forall|i: int|
                    0 <= i < blocks@.len() ==> #[trigger] blocks@[i] == (PerCpu {
                        kernel_rsp: 0,
                        scratch_rsp: 0,
                        cpu_index: 0,
                    }),
            decreases MAX_CPUS - blocks.len(),
        {
            blocks.push(PerCpu { kernel_rsp: 0, scratch_rsp: 0, cpu_index: 0 });
        }
        PerCpuTable { blocks }
    }

    /// Take the block of a core, and number it. Returns the index.
    pub fn claim(&mut self, cpu: usize) -> (index: usize)
        requires
            old(self).wf(),
        ensures
            final(self).wf(),
            index == slot(cpu as int),
            final(self).blocks@ == old(self).blocks@.update(
                index as int,
                PerCpu { cpu_index: index as u64, ..old(self).blocks@[index as int] },
            ),
    {
        let index = if cpu < MAX_CPUS {
            cpu
        } else {
            MAX_CPUS - 1
        };
        let block = self.blocks[index];
        self.blocks.set(
            index,
            PerCpu {
                kernel_rsp: block.kernel_rsp,
                scratch_rsp: block.scratch_rsp,
                cpu_index: index as u64,
            },
        );
        index
    }

    /// Say which kernel stack a system call on a core lands on: its top, the first
    /// address that is pushed below. Called on every switch, because the answer is
    /// per task.
    pub fn set_kernel_stack(&mut self, index: usize, rsp: u64)
        requires
            old(self).wf(),
            index < MAX_CPUS,
        ensures
            final(self).wf(),
            final(self).blocks@ == old(self).blocks@.update(
                index as int,
                PerCpu { kernel_rsp: rsp, ..old(self).blocks@[index as int] },
            ),
    {
        let block = self.blocks[index];
        self.blocks.set(
            index,
            PerCpu {
                kernel_rsp: rsp,
                scratch_rsp: block.scratch_rsp,
                cpu_index: block.cpu_index,
            },
        );
    }

    /// The kernel stack a system call on a core would land on.
    #[must_use]
    pub fn kernel_stack(&self, index: usize) -> (rsp: u64)
        requires
            self.wf(),
            index < MAX_CPUS,
        ensures
            rsp == self.blocks@[index as int].kernel_rsp,
    {
        self.blocks[index].kernel_rsp
    }
}

/// Which core this is, from the block it was given: the first one before it has
/// been given any.
#[must_use]
pub fn cpu_index(block: Option<PerCpu>) -> (index: u64)
    ensures
        index == (match block {
            Some(block) => block.cpu_index,
            None => 0,
        }),
{
    match block {
        Some(block) => block.cpu_index,
        None => 0,
    }
}

/// Setting the stack of a core changes nothing of another core's block, and
/// nothing but the stack of its own.
pub proof fn law_cores_do_not_share_a_block(
    before: Seq<PerCpu>,
    after: Seq<PerCpu>,
    a: int,
    b: int,
    rsp: u64,
)
    requires
        before.len() == MAX_CPUS,
        0 <= a < MAX_CPUS,
        0 <= b < MAX_CPUS,
        a != b,
        after == before.update(b, PerCpu { kernel_rsp: rsp, ..before[b] }),
    ensures
        after[a] == before[a],
        after[b].kernel_rsp == rsp,
        after[b].cpu_index == before[b].cpu_index,
{
}

/// The caller's state as the entry code saves it.
///
/// The order of the fields is the order of the words in memory, lowest address
/// first.
#[derive(Clone, Copy, Debug, PartialEq, Eq, Structural)]
pub struct SyscallFrame {
    /// System call number in, result out.
    pub rax: u64,
    /// First argument.
    pub rdi: u64,
    /// Second argument.
    pub rsi: u64,
    /// Third argument.
    pub rdx: u64,
    /// Fourth argument: not in `RCX`, which entering overwrites.
    pub r10: u64,
    /// Fifth argument.
    pub r8: u64,
    /// Sixth argument.
    pub r9: u64,
    /// Where ring 3 resumes.
    pub rip: u64,
    /// The caller's flags.
    pub rflags: u64,
    /// The caller's stack pointer, which entering does not touch.
    pub user_rsp: u64,
}

impl SyscallFrame {
    /// The frame as it lies in memory, lowest address first.
    pub open spec fn words(self) -> Seq<u64> {
        seq![
            self.rax,
            self.rdi,
            self.rsi,
            self.rdx,
            self.r10,
            self.r8,
            self.r9,
            self.rip,
            self.rflags,
            self.user_rsp,
        ]
    }

    /// The frame as it lies in memory, lowest address first.
    #[must_use]
    pub fn to_words(&self) -> (words: [u64; 10])
        ensures
            words@ == self.words(),
    {
        let words = [
            self.rax,
            self.rdi,
            self.rsi,
            self.rdx,
            self.r10,
            self.r8,
            self.r9,
            self.rip,
            self.rflags,
            self.user_rsp,
        ];
        assert(words@ =~= self.words());
        words
    }

    /// The frame that lies in memory as `words`.
    #[must_use]
    pub fn from_words(words: &[u64; 10]) -> (frame: SyscallFrame)
        ensures
            frame.words() == words@,
    {
        let frame = SyscallFrame {
            rax: words[0],
            rdi: words[1],
            rsi: words[2],
            rdx: words[3],
            r10: words[4],
            r8: words[5],
            r9: words[6],
            rip: words[7],
            rflags: words[8],
            user_rsp: words[9],
        };
        assert(frame.words() =~= words@);
        frame
    }
}

/// How to return to ring 3.
#[derive(Clone, Copy, Debug, PartialEq, Eq, Structural)]
pub enum Return {
    /// The fast way, valid only when the return address is canonical.
    Sysret,
    /// The slow way, correct for any return address.
    Iret,
}

impl Return {
    /// The number that the entry code tests against zero.
    #[must_use]
    pub fn code(self) -> (code: u64)
        ensures
            code == (match self {
                Return::Sysret => 0,
                Return::Iret => 1u64,
            }),
    {
        match self {
            Return::Sysret => 0,
            Return::Iret => 1,
        }
    }
}

/// Counts the returns that went out the slow way. The choice is counted rather
/// than its consequence, because not every processor shows the consequence.
#[derive(Clone, Copy, Debug, PartialEq, Eq, Structural)]
pub struct Returns {
    /// How many went out the slow way.
    pub iret: usize,
}

impl Returns {
    /// A count of none.
    #[must_use]
    pub fn new() -> (count: Returns)
        ensures
            count.iret == 0,
    {
        Returns { iret: 0 }
    }

    /// How to return to `rip`. Asked after the handler has run, because the handler
    /// may change where the caller resumes. The count goes round when it is full.
    pub fn way_back(&mut self, rip: u64) -> (way: Return)
        ensures
            way == (if canonical(rip) {
                Return::Sysret
            } else {
                Return::Iret
            }),
            final(self).iret == (if canonical(rip) {
                old(self).iret as int
            } else if old(self).iret == usize::MAX {
                0
            } else {
                old(self).iret + 1
            }),
    {
        if is_canonical(rip) {
            Return::Sysret
        } else {
            self.iret = if self.iret == usize::MAX {
                0
            } else {
                self.iret + 1
            };
            Return::Iret
        }
    }

    /// How many returns to ring 3 have gone out the slow way.
    #[must_use]
    pub fn iret_returns(&self) -> (count: usize)
        ensures
            count == self.iret,
    {
        self.iret
    }
}

/// A value for a model-specific register.
#[derive(Clone, Copy, Debug, PartialEq, Eq, Structural)]
pub struct MsrWrite {
    /// The register.
    pub msr: u32,
    /// Its value.
    pub value: u64,
}

/// The value of [`IA32_STAR`] for this kernel's descriptor table.
pub open spec fn kernel_star() -> u64 {
    ((gdt::USER_CODE32 - 3) * 0x1_0000_0000_0000 + gdt::KERNEL_CODE * 0x1_0000_0000) as u64
}

/// The writes that configure system calls, in order: selectors, entry point, flags,
/// and the two bases, of which the one with the core's block comes in when it is
/// exchanged. Enabling comes after all of them.
#[must_use]
pub fn init_writes(entry: u64, block: u64) -> (writes: [MsrWrite; 5])
    ensures
        writes@ == seq![
            MsrWrite { msr: IA32_STAR, value: kernel_star() },
            MsrWrite { msr: IA32_LSTAR, value: entry },
            MsrWrite { msr: IA32_FMASK, value: FMASK },
            MsrWrite { msr: IA32_GS_BASE, value: 0 },
            MsrWrite { msr: IA32_KERNEL_GS_BASE, value: block },
        ],
{
    let star = star_value(gdt::KERNEL_CODE, gdt::USER_CODE32 - 3);
    let writes = [
        MsrWrite { msr: IA32_STAR, value: star },
        MsrWrite { msr: IA32_LSTAR, value: entry },
        MsrWrite { msr: IA32_FMASK, value: FMASK },
        MsrWrite { msr: IA32_GS_BASE, value: 0 },
        MsrWrite { msr: IA32_KERNEL_GS_BASE, value: block },
    ];
    assert(writes@ =~= seq![
        MsrWrite { msr: IA32_STAR, value: kernel_star() },
        MsrWrite { msr: IA32_LSTAR, value: entry },
        MsrWrite { msr: IA32_FMASK, value: FMASK },
        MsrWrite { msr: IA32_GS_BASE, value: 0 },
        MsrWrite { msr: IA32_KERNEL_GS_BASE, value: block },
    ]);
    writes
}

/// The value of the extended feature register with system calls enabled and
/// everything else as it was.
#[must_use]
pub fn enabled(efer: u64) -> (value: u64)
    ensures
        value == (if efer % 2 == 1 {
            efer as int
        } else {
            efer + EFER_SCE
        }),
{
    if efer % 2 == 1 {
        efer
    } else {
        efer + EFER_SCE
    }
}

/// Whether a value of the extended feature register says that system calls are
/// enabled.
#[must_use]
pub fn is_enabled(efer: u64) -> (yes: bool)
    ensures
        yes == (efer % 2 == 1),
{
    efer % 2 == 1
}

/// The descriptor table is laid out the way system calls require: from the bases
/// that this kernel writes, the processor derives exactly the selectors the table
/// has.
pub proof fn law_the_derived_selectors_are_those_of_the_table(star: u64)
    requires
        star == kernel_star(),
    ensures
        kernel_base(star) == gdt::KERNEL_CODE,
        moved(kernel_base(star), 8) == gdt::KERNEL_DATA,
        ring3(moved(user_base(star), 16)) == gdt::USER_CODE,
        ring3(moved(user_base(star), 8)) == gdt::USER_DATA,
{
}

/// The value for the selectors has the kernel's base in bits 32 to 47 and the
/// user's above it, and nothing below.
pub proof fn law_each_base_has_its_own_bits(kernel: u16, user: u16, star: u64)
    requires
        call_ensures(star_value, (kernel, user), star),
    ensures
        (star >> 32) & 0xFFFF == kernel,
        star >> 48 == user,
        star & 0xFFFF_FFFF == 0,
{
    law_a_base_is_read_from_its_bits(star);
    law_the_bases_survive(kernel, user);
    assert(star % 0x1_0000_0000 == star & 0xFFFF_FFFF) by (bit_vector);
}

/// The bases are read from those bits and no others.
pub proof fn law_a_base_is_read_from_its_bits(star: u64)
    ensures
        kernel_base(star) == (star >> 32) & 0xFFFF,
        user_base(star) == star >> 48,
{
    assert((star / 0x1_0000_0000) % 0x1_0000 == (star >> 32) & 0xFFFF && star / 0x1_0000_0000_0000
        == star >> 48) by (bit_vector);
}

/// An offset moves a selector as far as it says, round the end if need be, and a
/// selector for ring 3 names the same descriptor.
pub proof fn law_a_derived_selector_names_the_next_descriptors(selector: u16, by: int)
    requires
        0 <= by < 0x1_0000,
    ensures
        moved(selector, by) == selector + by || moved(selector, by) + 0x1_0000 == selector + by,
        ring3(selector) == selector | 3,
{
    let low: u16 = selector % 4;
    assert((selector | 3) == selector - low + 3) by (bit_vector)
        requires
            low == selector % 4,
    ;
}

/// Every core up to the last has a block of its own, and those beyond share the
/// last.
pub proof fn law_every_core_has_a_block(cpu: int)
    requires
        cpu >= 0,
    ensures
        cpu <= 31 ==> slot(cpu) == cpu,
        cpu >= 31 ==> slot(cpu) == 31,
{
}

/// Each field of a frame lies where the entry code put it.
pub proof fn law_each_field_of_a_frame_has_its_place(f: SyscallFrame)
    ensures
        f.words().len() == 10,
        f.words()[0] == f.rax,
        f.words()[1] == f.rdi && f.words()[2] == f.rsi && f.words()[3] == f.rdx,
        f.words()[4] == f.r10 && f.words()[5] == f.r8 && f.words()[6] == f.r9,
        f.words()[7] == f.rip && f.words()[8] == f.rflags && f.words()[9] == f.user_rsp,
{
}

/// A system call lands at the entry point in the kernel's segments, with every flag
/// cleared that the caller could impose and no other, and finds the core's block
/// once the bases are exchanged.
pub proof fn law_a_system_call_lands_where_it_was_told(
    entry: u64,
    block: u64,
    writes: [MsrWrite; 5],
)
    requires
        call_ensures(init_writes, (entry, block), writes),
    ensures
        writes@[0].msr == 0xC000_0081 && writes@[0].value == 0x18_0008_0000_0000,
        writes@[1] == (MsrWrite { msr: 0xC000_0082, value: entry }),
        writes@[2].msr == 0xC000_0084 && writes@[2].value == 0x5_4700,
        writes@[3] == (MsrWrite { msr: 0xC000_0101, value: 0 }),
        writes@[4] == (MsrWrite { msr: 0xC000_0102, value: block }),
{
}

/// Enabling system calls sets the lowest bit of the register and keeps all others;
/// enabled is what it then reads as.
pub proof fn law_enabling_sets_one_bit(efer: u64, value: u64, yes: bool)
    requires
        call_ensures(enabled, (efer,), value),
        call_ensures(is_enabled, (value,), yes),
    ensures
        value == efer | 1,
        yes,
{
    assert((efer % 2 == 1 ==> efer | 1 == efer) && (efer % 2 == 0 ==> efer | 1 == efer + 1))
        by (bit_vector);
}

/// A return goes out the fast way exactly when its address is canonical, and only
/// the others are counted. The count goes round when it is full.
pub proof fn law_only_slow_returns_are_counted(count: &mut Returns, rip: u64, way: Return)
    requires
        call_ensures(Returns::way_back, (count, rip), way),
    ensures
        way == Return::Sysret <==> rip >> 47 == 0 || rip >> 47 == 0x1_FFFF,
        way == Return::Sysret ==> final(count).iret == old(count).iret,
        way == Return::Iret ==> final(count).iret == (if old(count).iret < usize::MAX {
            old(count).iret + 1
        } else {
            0
        }),
{
    law_canonical_is_the_sign_extension_of_bit_47(rip);
}

/// Claiming a block numbers it and changes nothing else: neither its stacks nor any
/// other block.
pub proof fn law_claiming_a_block_numbers_it(
    table: &mut PerCpuTable,
    cpu: usize,
    index: usize,
    i: int,
)
    requires
        old(table).wf(),
        call_ensures(PerCpuTable::claim, (table, cpu), index),
        0 <= i < 32,
    ensures
        index == (if cpu <= 31 {
            cpu
        } else {
            31
        }),
        final(table).blocks@.len() == 32,
        final(table).blocks@[i].kernel_rsp == old(table).blocks@[i].kernel_rsp,
        final(table).blocks@[i].scratch_rsp == old(table).blocks@[i].scratch_rsp,
        final(table).blocks@[i].cpu_index == (if i == index {
            index as u64
        } else {
            old(table).blocks@[i].cpu_index
        }),
{
}

/// A kernel stack that is set is the one that is found, for that core and no other.
pub proof fn law_a_stack_that_is_set_is_found(
    table: &mut PerCpuTable,
    index: usize,
    rsp: u64,
    other: usize,
    before: u64,
    after: u64,
)
    requires
        old(table).wf(),
        index < 32,
        other < 32,
        call_ensures(PerCpuTable::kernel_stack, (&*old(table), other), before),
        call_ensures(PerCpuTable::set_kernel_stack, (table, index, rsp), ()),
        call_ensures(PerCpuTable::kernel_stack, (&*final(table), other), after),
    ensures
        after == (if other == index {
            rsp
        } else {
            before
        }),
{
}

} // verus!
