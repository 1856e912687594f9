//! The global descriptor table, the task state segment, and the selectors.
//!
//! In 64-bit mode segmentation is almost gone, but two things make this table
//! load-bearing. The task state segment holds the interrupt stacks, which are what
//! lets a fault be handled when the current stack is the problem. And the order of
//! the entries is fixed by the fast system call instructions, which derive
//! selectors from two bases by adding fixed offsets.
use vstd::prelude::*;

verus! {

/// Selector for the kernel's 64-bit code segment.
pub const KERNEL_CODE: u16 = 0x08;

/// Selector for the kernel's data segment.
pub const KERNEL_DATA: u16 = 0x10;

/// Placeholder holding the slot that returning from a system call requires. Never
/// loaded.
pub const USER_CODE32: u16 = 0x1B;

/// Selector for the user data segment, ring 3.
pub const USER_DATA: u16 = 0x23;

/// Selector for the user 64-bit code segment, ring 3.
pub const USER_CODE: u16 = 0x2B;

/// Selector for the task state segment, whose descriptor takes two slots.
pub const TSS_SELECTOR: u16 = 0x30;

/// Interrupt stack of the double-fault vector.
pub const IST_DOUBLE_FAULT: u8 = 1;

/// Interrupt stack of the non-maskable interrupt, which can land anywhere.
pub const IST_NMI: u8 = 2;

/// Interrupt stack of the machine-check vector.
pub const IST_MACHINE_CHECK: u8 = 3;

/// Size of each interrupt stack: enough for a fault report, which is all that may
/// run on one.
pub const IST_STACK_SIZE: usize = 16384;

/// Number of slots: null, two of the kernel, three of the user, and the two of the
/// task state segment.
pub const GDT_SLOTS: usize = 8;

/// Bytes of the task state segment.
pub const TSS_LEN: usize = 104;

/// The task state segment, as 64-bit mode has it: stack pointers for ring
/// transitions and for interrupts, and where the port permissions are.
#[derive(Clone, Copy, Debug, PartialEq, Eq)]
pub struct Tss {
    /// Reserved, zero.
    pub reserved0: u32,
    /// Stack pointers loaded on a transition into rings 0, 1 and 2.
    pub privilege_stacks: [u64; 3],
    /// Reserved, zero.
    pub reserved1: u64,
    /// The interrupt stacks. A gate that names stack `n` selects index `n - 1`.
    pub interrupt_stacks: [u64; 7],
    /// Reserved, zero.
    pub reserved2: u64,
    /// Reserved, zero.
    pub reserved3: u16,
    /// Where the port permissions start. Past the end of the segment, no port is
    /// permitted in ring 3.
    pub iomap_base: u16,
}

impl Tss {
    /// An empty segment.
    #[must_use]
    pub fn new() -> (tss: Tss)
        ensures
            tss == empty_tss(),
    {
        Tss {
            reserved0: 0,
            privilege_stacks: [0, 0, 0],
            reserved1: 0,
            interrupt_stacks: [0, 0, 0, 0, 0, 0, 0],
            reserved2: 0,
            reserved3: 0,
            iomap_base: 0,
        }
    }

    /// The segment the kernel runs with: three interrupt stacks, no stack for ring
    /// transitions yet, and no port permitted in ring 3. The stack for ring 0 stays
    /// null on purpose: a transition that nobody prepared for faults loudly.
    #[must_use]
    pub fn with_stacks(double_fault: u64, nmi: u64, machine_check: u64) -> (tss: Tss)
        ensures
            tss == (Tss {
                interrupt_stacks: [double_fault, nmi, machine_check, 0, 0, 0, 0],
                iomap_base: TSS_LEN as u16,
                ..empty_tss()
            }),
    {
        Tss {
            reserved0: 0,
            privilege_stacks: [0, 0, 0],
            reserved1: 0,
            interrupt_stacks: [double_fault, nmi, machine_check, 0, 0, 0, 0],
            reserved2: 0,
            reserved3: 0,
            iomap_base: TSS_LEN as u16,
        }
    }

    /// The segment as the processor reads it, in 32-bit words.
    pub open spec fn words(self) -> Seq<u32> {
        seq![self.reserved0] + halves(self.privilege_stacks@) + halves(seq![self.reserved1])
            + halves(self.interrupt_stacks@) + halves(seq![self.reserved2]) + seq![
            (self.reserved3 + 0x1_0000 * self.iomap_base) as u32,
        ]
    }

    /// The segment as the processor reads it: every 64-bit field is misaligned, so
    /// it is laid out in 32-bit words.
    #[must_use]
    pub fn to_words(&self) -> (words: Vec<u32>)
        ensures
            words@ == self.words(),
            words@.len() * 4 == TSS_LEN,
    {
        let mut words: Vec<u32> = Vec::new();
        words.push(self.reserved0);
        push_halves(&mut words, &self.privilege_stacks);
        push_halves(&mut words, &[self.reserved1]);
        push_halves(&mut words, &self.interrupt_stacks);
        push_halves(&mut words, &[self.reserved2]);
        words.push(self.reserved3 as u32 + 0x1_0000 * (self.iomap_base as u32));
        assert(words@ =~= self.words());
        words
    }
}

impl Default for Tss {
    fn default() -> (tss: Tss)
        ensures
            tss == empty_tss(),
    {
        Tss::new()
    }
}

/// A segment with every field zero.
pub open spec fn empty_tss() -> Tss {
    Tss {
        reserved0: 0,
        privilege_stacks: [0, 0, 0],
        reserved1: 0,
        interrupt_stacks: [0, 0, 0, 0, 0, 0, 0],
        reserved2: 0,
        reserved3: 0,
        iomap_base: 0,
    }
}

/// 64-bit values as pairs of 32-bit words, the low half first.
pub open spec fn halves(values: Seq<u64>) -> Seq<u32> {
    Seq::new(
        2 * values.len(),
        |i: int|
            if i % 2 == 0 {
                (values[i / 2] % 0x1_0000_0000) as u32
            } else {
                (values[i / 2] / 0x1_0000_0000) as u32
            },
    )
}

/// Append 64-bit values as pairs of 32-bit words.
fn push_halves(words: &mut Vec<u32>, values: &[u64])
    ensures
        final(words)@ == old(words)@ + halves(values@),
{
    let mut i: usize = 0;
    while i < values.len()
        invariant
            i <= values.len(),
            words@ =~= old(words)@ + halves(values@).take(2 * i as int),
        decreases values.len() - i,
    {
        words.push((values[i] % 0x1_0000_0000) as u32);
        words.push((values[i] / 0x1_0000_0000) as u32);
        i = i + 1;
    }
    assert(halves(values@).take(2 * i as int) =~= halves(values@));
}

/// What loading a descriptor table takes: a limit and a base.
#[derive(Clone, Copy, Debug, PartialEq, Eq, Structural)]
pub struct DescriptorTablePointer {
    /// Size of the table in bytes, minus one.
    pub limit: u16,
    /// Linear address of the table.
    pub base: u64,
}

impl DescriptorTablePointer {
    /// The pointer to a table of so many bytes.
    #[must_use]
    pub fn to_table(base: u64, bytes: usize) -> (pointer: DescriptorTablePointer)
        requires
            1 <= bytes <= 0x1_0000,
        ensures
            pointer.base == base,
            pointer.limit == bytes - 1,
    {
        DescriptorTablePointer { limit: (bytes - 1) as u16, base }
    }
}

/// A flat code or data descriptor.
pub open spec fn descriptor(access: u8, flags: u8) -> int {
    0xFFFF + access * 0x100_0000_0000 + 0xF * 0x1_0000_0000_0000 + (flags % 16)
        * 0x10_0000_0000_0000
}

/// Build a flat code or data descriptor.
///
/// `access` is the type byte; `flags` is the granularity nibble. The base is zero
/// and the limit is the full 4 GiB; in 64-bit mode both are ignored.
#[must_use]
pub fn segment(access: u8, flags: u8) -> (bits: u64)
    ensures
        bits == descriptor(access, flags),
{
    0xFFFF + access as u64 * 0x100_0000_0000 + 0xF * 0x1_0000_0000_0000 + (flags as u64 % 16)
        * 0x10_0000_0000_0000
}

/// Kernel 64-bit code.
pub const KERNEL_CODE_DESC: u64 = 0x00AF_9A00_0000_FFFF;

/// Kernel data.
pub const KERNEL_DATA_DESC: u64 = 0x00CF_9200_0000_FFFF;

/// User 32-bit code. Never loaded.
pub const USER_CODE32_DESC: u64 = 0x00CF_FA00_0000_FFFF;

/// User data.
pub const USER_DATA_DESC: u64 = 0x00CF_F200_0000_FFFF;

/// User 64-bit code.
pub const USER_CODE_DESC: u64 = 0x00AF_FA00_0000_FFFF;

/// The low half of the descriptor of a task state segment.
pub open spec fn tss_low(base: u64, limit: u32) -> u64 {
    ((limit as u64) & 0xFFFF) | ((base & 0x00FF_FFFF) << 16) | (0x89u64 << 40) | ((((limit as u64)
        >> 16) & 0xF) << 48) | (((base >> 24) & 0xFF) << 56)
}

/// Build the two halves of the descriptor of a task state segment.
///
/// Unlike a code or data descriptor it is sixteen bytes and its base is real: it
/// is how the processor finds the interrupt stacks. Its type says available; a
/// busy one is refused when it is loaded.
#[must_use]
pub fn tss_descriptor(base: u64, limit: u32) -> (halves: (u64, u64))
    ensures
        halves == (tss_low(base, limit), base / 0x1_0000_0000),
{
    let limit = limit as u64;
    let low = (limit & 0xFFFF) | ((base & 0x00FF_FFFF) << 16) | (0x89u64 << 40) | (((limit >> 16)
        & 0xF) << 48) | (((base >> 24) & 0xFF) << 56);
    (low, base / 0x1_0000_0000)
}

proof fn lemma_tss_low(base: u64, limit: u32, low: u64)
    by (bit_vector)
    requires
        limit < 0x10_0000,
        low == ((limit as u64) & 0xFFFF) | ((base & 0x00FF_FFFF) << 16) | (0x89u64 << 40) | ((((
        limit as u64) >> 16) & 0xF) << 48) | (((base >> 24) & 0xFF) << 56),
    ensures
        ((low >> 16) & 0xFF_FFFF) | (((low >> 56) & 0xFF) << 24) | ((base / 0x1_0000_0000) << 32)
            == base,
        (low & 0xFFFF) | (((low >> 48) & 0xF) << 16) == limit as u64,
        (low >> 40) & 0xFF == 0x89,
{
}

/// The processor puts the base and the limit of a task state segment together
/// again from where the descriptor scatters them, and finds the segment available.
pub proof fn law_the_processor_reassembles_the_descriptor(base: u64, limit: u32)
    requires
        limit < 0x10_0000,
    ensures
        ({
            let low = tss_low(base, limit);
            let high = base / 0x1_0000_0000;
            &&& ((low >> 16) & 0xFF_FFFF) | (((low >> 56) & 0xFF) << 24) | (high << 32) == base
            &&& (low & 0xFFFF) | (((low >> 48) & 0xF) << 16) == limit as u64
            &&& (low >> 40) & 0xFF == 0x89
        }),
{
    lemma_tss_low(base, limit, tss_low(base, limit));
}

/// The whole table, for a task state segment at `tss`.
#[must_use]
pub fn table(tss: u64) -> (slots: [u64; 8])
    ensures
        slots@ == seq![
            0u64,
            KERNEL_CODE_DESC,
            KERNEL_DATA_DESC,
            USER_CODE32_DESC,
            USER_DATA_DESC,
            USER_CODE_DESC,
            tss_low(tss, (TSS_LEN - 1) as u32),
            tss / 0x1_0000_0000,
        ],
{
    let (low, high) = tss_descriptor(tss, (TSS_LEN - 1) as u32);
    let slots = [
        0,
        KERNEL_CODE_DESC,
        KERNEL_DATA_DESC,
        USER_CODE32_DESC,
        USER_DATA_DESC,
        USER_CODE_DESC,
        low,
        high,
    ];
    assert(slots@ =~= seq![
        0u64,
        KERNEL_CODE_DESC,
        KERNEL_DATA_DESC,
        USER_CODE32_DESC,
        USER_DATA_DESC,
        USER_CODE_DESC,
        tss_low(tss, (TSS_LEN - 1) as u32),
        tss / 0x1_0000_0000,
    ]);
    slots
}

/// A flat descriptor has its type byte in bits 40 to 47 and its granularity nibble
/// in bits 52 to 55. Its base is zero and its limit as large as it can be, whatever
/// those are.
pub proof fn law_a_flat_descriptor_covers_everything(access: u8, flags: u8)
    ensures
        ({
            let bits = descriptor(access, flags);
            &&& 0 <= bits <= u64::MAX
            &&& (bits / 0x100_0000_0000) % 0x100 == access
            &&& (bits / 0x10_0000_0000_0000) % 0x10 == flags % 16
            &&& bits % 0x1_0000 == 0xFFFF
            &&& (bits / 0x1_0000_0000_0000) % 0x10 == 0xF
            &&& (bits / 0x1_0000) % 0x100_0000 == 0
            &&& bits / 0x100_0000_0000_0000 == 0
        }),
{
    let bits = descriptor(access, flags);
    let f = (flags % 16) as int;
    assert(bits / 0x1_0000 == access * 0x100_0000 + 0xF * 0x1_0000_0000 + f * 0x10_0000_0000);
    assert(bits / 0x100_0000_0000 == access + 0xF * 0x100 + f * 0x1000);
    assert(bits / 0x1_0000_0000_0000 == 0xF + f * 0x10);
    assert(bits / 0x10_0000_0000_0000 == f);
}

/// The segment is laid out with its stacks in order and nothing between them: those
/// of rings 0 to 2 from byte 4 on, the interrupt stacks from byte 36 on, each low
/// half first, and the start of the port permissions in the last two bytes.
pub proof fn law_each_stack_has_its_place(tss: Tss, k: int)
    ensures
        tss.words().len() == 26,
        tss.words()[0] == tss.reserved0,
        0 <= k < 3 ==> tss.words()[1 + 2 * k] + 0x1_0000_0000 * tss.words()[2 + 2 * k]
            == tss.privilege_stacks@[k],
        tss.words()[7] + 0x1_0000_0000 * tss.words()[8] == tss.reserved1,
        0 <= k < 7 ==> tss.words()[9 + 2 * k] + 0x1_0000_0000 * tss.words()[10 + 2 * k]
            == tss.interrupt_stacks@[k],
        tss.words()[23] + 0x1_0000_0000 * tss.words()[24] == tss.reserved2,
        tss.words()[25] % 0x1_0000 == tss.reserved3,
        tss.words()[25] / 0x1_0000 == tss.iomap_base,
{
    lemma_halves(tss.privilege_stacks@, k);
    lemma_halves(tss.interrupt_stacks@, k);
    lemma_halves(seq![tss.reserved1], 0);
    lemma_halves(seq![tss.reserved2], 0);
}

proof fn lemma_halves(values: Seq<u64>, k: int)
    requires
        values.len() <= 7,
    ensures
        halves(values).len() == 2 * values.len(),
        0 <= k < values.len() ==> halves(values)[2 * k] + 0x1_0000_0000 * halves(values)[2 * k + 1]
            == values[k],
{
}

/// An empty segment names no stack, so that a transition nobody prepared for
/// faults.
pub proof fn law_an_empty_segment_names_no_stack(k: int)
    ensures
        0 <= k < 3 ==> empty_tss().privilege_stacks@[k] == 0,
        0 <= k < 7 ==> empty_tss().interrupt_stacks@[k] == 0,
        empty_tss().reserved0 == 0 && empty_tss().reserved1 == 0 && empty_tss().reserved2 == 0
            && empty_tss().reserved3 == 0 && empty_tss().iomap_base == 0,
{
}

/// Of a limit beyond twenty bits the descriptor keeps the lowest twenty, and the
/// base is found whole whatever the limit.
pub proof fn law_a_limit_keeps_twenty_bits(base: u64, limit: u32)
    ensures
        tss_low(base, limit) == tss_low(base, limit & 0xF_FFFF),
        tss_low(base, limit) >> 52 & 0xF == 0,
{
    let cut = limit & 0xF_FFFF;
    assert(((limit as u64) & 0xFFFF) == ((cut as u64) & 0xFFFF) && (((limit as u64) >> 16) & 0xF)
        == (((cut as u64) >> 16) & 0xF)) by (bit_vector)
        requires
            cut == limit & 0xF_FFFF,
    ;
    let low = tss_low(base, limit);
    assert(low >> 52 & 0xF == 0) by (bit_vector)
        requires
            low == ((limit as u64) & 0xFFFF) | ((base & 0x00FF_FFFF) << 16) | (0x89u64 << 40) | ((((
            limit as u64) >> 16) & 0xF) << 48) | (((base >> 24) & 0xFF) << 56),
    ;
}

/// The table has the descriptor that each selector is for in the slot that the
/// selector names, eight bytes to a slot, and each is present and of the selector's
/// ring: code or data, 64-bit code only where it runs.
pub proof fn law_each_selector_names_its_descriptor(tss: u64, slots: [u64; 8])
    requires
        call_ensures(table, (tss,), slots),
    ensures
        slots@[0] == 0,
        slots@[KERNEL_CODE as int / 8] == descriptor(0x9A, 0xA),
        slots@[KERNEL_DATA as int / 8] == descriptor(0x92, 0xC),
        slots@[USER_CODE32 as int / 8] == descriptor(0xFA, 0xC),
        slots@[USER_DATA as int / 8] == descriptor(0xF2, 0xC),
        slots@[USER_CODE as int / 8] == descriptor(0xFA, 0xA),
        slots@[TSS_SELECTOR as int / 8] == tss_low(tss, 103),
        slots@[TSS_SELECTOR as int / 8 + 1] == tss >> 32,
        KERNEL_CODE % 4 == 0 && KERNEL_DATA % 4 == 0 && TSS_SELECTOR % 4 == 0,
        USER_CODE32 % 4 == 3 && USER_DATA % 4 == 3 && USER_CODE % 4 == 3,
{
    assert(tss / 0x1_0000_0000 == tss >> 32) by (bit_vector);
}

/// The kernel's segment has its three interrupt stacks where the gates look for
/// them, no stack for a transition from ring 3, and no port permitted there.
pub proof fn law_each_interrupt_stack_is_where_its_gate_looks(
    double_fault: u64,
    nmi: u64,
    machine_check: u64,
    tss: Tss,
)
    requires
        call_ensures(Tss::with_stacks, (double_fault, nmi, machine_check), tss),
    ensures
        tss.interrupt_stacks@[IST_DOUBLE_FAULT - 1] == double_fault,
        tss.interrupt_stacks@[IST_NMI - 1] == nmi,
        tss.interrupt_stacks@[IST_MACHINE_CHECK - 1] == machine_check,
        forall|k: int| 3 <= k < 7 ==> #[trigger] tss.interrupt_stacks@[k] == 0,
        forall|k: int| 0 <= k < 3 ==> #[trigger] tss.privilege_stacks@[k] == 0,
        tss.iomap_base == 4 * tss.words().len(),
{
    law_each_stack_has_its_place(tss, 0);
}

} // verus!
