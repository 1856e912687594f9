//! Exception and interrupt entry: the saved frame, and what a vector and an error
//! code mean.
//!
//! Ten vectors come with an error code and the rest do not; every entry point
//! without one supplies a zero, so that there is exactly one frame layout.
use vstd::prelude::*;

verus! {

/// Words of a saved frame: fifteen registers, the vector, the error code, and the
/// five words the processor pushes. A multiple of sixteen bytes, so the stack stays
/// aligned under it.
pub const FRAME_WORDS: usize = 22;

/// The machine state at the moment of a trap.
///
/// The order of the fields is the order of the words in memory, lowest address
/// first. A handler may modify any of them.
#[derive(Clone, Copy, Debug, PartialEq, Eq, Structural)]
pub struct TrapFrame {
    /// Saved `RAX`.
    pub rax: u64,
    /// Saved `RBX`.
    pub rbx: u64,
    /// Saved `RCX`.
    pub rcx: u64,
    /// Saved `RDX`.
    pub rdx: u64,
    /// Saved `RSI`.
    pub rsi: u64,
    /// Saved `RDI`.
    pub rdi: u64,
    /// Saved `RBP`.
    pub rbp: u64,
    /// Saved `R8`.
    pub r8: u64,
    /// Saved `R9`.
    pub r9: u64,
    /// Saved `R10`.
    pub r10: u64,
    /// Saved `R11`.
    pub r11: u64,
    /// Saved `R12`.
    pub r12: u64,
    /// Saved `R13`.
    pub r13: u64,
    /// Saved `R14`.
    pub r14: u64,
    /// Saved `R15`.
    pub r15: u64,
    /// Which of the 256 entry points ran.
    pub vector: u64,
    /// The processor's error code, or zero for the vectors that have none.
    pub error_code: u64,
    /// Address of the faulting or interrupted instruction.
    pub rip: u64,
    /// Code segment selector at the time of the trap.
    pub cs: u64,
    /// Flags at the time of the trap.
    pub rflags: u64,
    /// Stack pointer at the time of the trap.
    pub rsp: u64,
    /// Stack segment selector at the time of the trap.
    pub ss: u64,
}

impl TrapFrame {
    /// The frame as it lies in memory, lowest address first.
    pub open spec fn words(self) -> Seq<u64> {
        seq![
            self.rax,
            self.rbx,
            self.rcx,
            self.rdx,
            self.rsi,
            self.rdi,
            self.rbp,
            self.r8,
            self.r9,
            self.r10,
            self.r11,
            self.r12,
            self.r13,
            self.r14,
            self.r15,
            self.vector,
            self.error_code,
            self.rip,
            self.cs,
            self.rflags,
            self.rsp,
            self.ss,
        ]
    }

    /// The frame as it lies in memory, lowest address first.
    #[must_use]
    pub fn to_words(&self) -> (words: [u64; 22])
        ensures
            words@ == self.words(),
    {
        let words = [
            self.rax,
            self.rbx,
            self.rcx,
            self.rdx,
            self.rsi,
            self.rdi,
            self.rbp,
            self.r8,
            self.r9,
            self.r10,
            self.r11,
            self.r12,
            self.r13,
            self.r14,
            self.r15,
            self.vector,
            self.error_code,
            self.rip,
            self.cs,
            self.rflags,
            self.rsp,
            self.ss,
        ];
        assert(words@ =~= self.words());
        words
    }

    /// The frame that lies in memory as `words`.
    #[must_use]
    pub fn from_words(words: &[u64; 22]) -> (frame: TrapFrame)
        ensures
            frame.words() == words@,
    {
        let frame = TrapFrame {
            rax: words[0],
            rbx: words[1],
            rcx: words[2],
            rdx: words[3],
            rsi: words[4],
            rdi: words[5],
            rbp: words[6],
            r8: words[7],
            r9: words[8],
            r10: words[9],
            r11: words[10],
            r12: words[11],
            r13: words[12],
            r14: words[13],
            r15: words[14],
            vector: words[15],
            error_code: words[16],
            rip: words[17],
            cs: words[18],
            rflags: words[19],
            rsp: words[20],
            ss: words[21],
        };
        assert(frame.words() =~= words@);
        frame
    }

    /// Whether the trap came from ring 3, from the bottom two bits of the code
    /// segment.
    #[must_use]
    pub fn from_user(&self) -> (user: bool)
        ensures
            user == (self.cs % 4 != 0),
    {
        self.cs % 4 != 0
    }
}

/// A frame is known from its words: no two frames lie in memory alike.
pub proof fn law_a_frame_is_its_words(a: TrapFrame, b: TrapFrame)
    requires
        a.words() == b.words(),
    ensures
        a == b,
{
    assert forall|i: int| 0 <= i < 22 implies a.words()[i] == b.words()[i] by {}
    assert(a.words()[0] == a.rax && b.words()[0] == b.rax);
    assert(a.words()[1] == a.rbx && b.words()[1] == b.rbx);
    assert(a.words()[2] == a.rcx && b.words()[2] == b.rcx);
    assert(a.words()[3] == a.rdx && b.words()[3] == b.rdx);
    assert(a.words()[4] == a.rsi && b.words()[4] == b.rsi);
    assert(a.words()[5] == a.rdi && b.words()[5] == b.rdi);
    assert(a.words()[6] == a.rbp && b.words()[6] == b.rbp);
    assert(a.words()[7] == a.r8 && b.words()[7] == b.r8);
    assert(a.words()[8] == a.r9 && b.words()[8] == b.r9);
    assert(a.words()[9] == a.r10 && b.words()[9] == b.r10);
    assert(a.words()[10] == a.r11 && b.words()[10] == b.r11);
    assert(a.words()[11] == a.r12 && b.words()[11] == b.r12);
    assert(a.words()[12] == a.r13 && b.words()[12] == b.r13);
    assert(a.words()[13] == a.r14 && b.words()[13] == b.r14);
    assert(a.words()[14] == a.r15 && b.words()[14] == b.r15);
    assert(a.words()[15] == a.vector && b.words()[15] == b.vector);
    assert(a.words()[16] == a.error_code && b.words()[16] == b.error_code);
    assert(a.words()[17] == a.rip && b.words()[17] == b.rip);
    assert(a.words()[18] == a.cs && b.words()[18] == b.cs);
    assert(a.words()[19] == a.rflags && b.words()[19] == b.rflags);
    assert(a.words()[20] == a.rsp && b.words()[20] == b.rsp);
    assert(a.words()[21] == a.ss && b.words()[21] == b.ss);
}

/// The ten vectors on which the processor pushes an error code.
pub const HAS_ERROR_CODE: [u8; 10] = [8, 10, 11, 12, 13, 14, 17, 21, 29, 30];

/// Whether the processor pushes an error code for `vector`.
#[must_use]
pub fn pushes_error_code(vector: u8) -> (pushes: bool)
    ensures
        pushes == HAS_ERROR_CODE@.contains(vector),
{
    let mut i: usize = 0;
    while i < 10
        invariant
            i <= 10,
            forall|j: int| 0 <= j < i ==> HAS_ERROR_CODE@[j] != vector,
        decreases 10 - i,
    {
        if HAS_ERROR_CODE[i] == vector {
            assert(HAS_ERROR_CODE@[i as int] == vector);
            return true;
        }
        i = i + 1;
    }
    false
}

/// The architecture's name for a vector.
pub open spec fn name_of(vector: u64) -> Seq<char> {
    if vector == 0 {
        "#DE divide error"@
    } else if vector == 1 {
        "#DB debug"@
    } else if vector == 2 {
        "NMI"@
    } else if vector == 3 {
        "#BP breakpoint"@
    } else if vector == 4 {
        "#OF overflow"@
    } else if vector == 5 {
        "#BR bound range exceeded"@
    } else if vector == 6 {
        "#UD invalid opcode"@
    } else if vector == 7 {
        "#NM device not available"@
    } else if vector == 8 {
        "#DF double fault"@
    } else if vector == 10 {
        "#TS invalid TSS"@
    } else if vector == 11 {
        "#NP segment not present"@
    } else if vector == 12 {
        "#SS stack-segment fault"@
    } else if vector == 13 {
        "#GP general protection fault"@
    } else if vector == 14 {
        "#PF page fault"@
    } else if vector == 16 {
        "#MF x87 floating-point error"@
    } else if vector == 17 {
        "#AC alignment check"@
    } else if vector == 18 {
        "#MC machine check"@
    } else if vector == 19 {
        "#XM SIMD floating-point error"@
    } else if vector == 20 {
        "#VE virtualisation exception"@
    } else if vector == 21 {
        "#CP control protection"@
    } else if vector == 28 {
        "#HV hypervisor injection"@
    } else if vector == 29 {
        "#VC VMM communication"@
    } else if vector == 30 {
        "#SX security exception"@
    } else if vector < 32 {
        "reserved"@
    } else {
        "external interrupt"@
    }
}

/// The architecture's name for a vector, for reports. Vectors 32 and up are
/// whatever the interrupt controller was told to send there.
#[must_use]
pub fn vector_name(vector: u64) -> (name: &'static str)
    ensures
        name@ == name_of(vector),
{
    if vector == 0 {
        "#DE divide error"
    } else if vector == 1 {
        "#DB debug"
    } else if vector == 2 {
        "NMI"
    } else if vector == 3 {
        "#BP breakpoint"
    } else if vector == 4 {
        "#OF overflow"
    } else if vector == 5 {
        "#BR bound range exceeded"
    } else if vector == 6 {
        "#UD invalid opcode"
    } else if vector == 7 {
        "#NM device not available"
    } else if vector == 8 {
        "#DF double fault"
    } else if vector == 10 {
        "#TS invalid TSS"
    } else if vector == 11 {
        "#NP segment not present"
    } else if vector == 12 {
        "#SS stack-segment fault"
    } else if vector == 13 {
        "#GP general protection fault"
    } else if vector == 14 {
        "#PF page fault"
    } else if vector == 16 {
        "#MF x87 floating-point error"
    } else if vector == 17 {
        "#AC alignment check"
    } else if vector == 18 {
        "#MC machine check"
    } else if vector == 19 {
        "#XM SIMD floating-point error"
    } else if vector == 20 {
        "#VE virtualisation exception"
    } else if vector == 21 {
        "#CP control protection"
    } else if vector == 28 {
        "#HV hypervisor injection"
    } else if vector == 29 {
        "#VC VMM communication"
    } else if vector == 30 {
        "#SX security exception"
    } else if vector < 32 {
        "reserved"
    } else {
        "external interrupt"
    }
}

/// Every vector has a name.
pub proof fn law_every_vector_has_a_name(vector: u64)
    ensures
        name_of(vector).len() > 0,
{
    reveal_strlit("#DE divide error");
    reveal_strlit("#DB debug");
    reveal_strlit("NMI");
    reveal_strlit("#BP breakpoint");
    reveal_strlit("#OF overflow");
    reveal_strlit("#BR bound range exceeded");
    reveal_strlit("#UD invalid opcode");
    reveal_strlit("#NM device not available");
    reveal_strlit("#DF double fault");
    reveal_strlit("#TS invalid TSS");
    reveal_strlit("#NP segment not present");
    reveal_strlit("#SS stack-segment fault");
    reveal_strlit("#GP general protection fault");
    reveal_strlit("#PF page fault");
    reveal_strlit("#MF x87 floating-point error");
    reveal_strlit("#AC alignment check");
    reveal_strlit("#MC machine check");
    reveal_strlit("#XM SIMD floating-point error");
    reveal_strlit("#VE virtualisation exception");
    reveal_strlit("#CP control protection");
    reveal_strlit("#HV hypervisor injection");
    reveal_strlit("#VC VMM communication");
    reveal_strlit("#SX security exception");
    reveal_strlit("reserved");
    reveal_strlit("external interrupt");
}

/// A decoded page-fault error code.
#[derive(Clone, Copy, Debug, PartialEq, Eq, Structural)]
pub struct PageFaultCause {
    /// The page was present, so this is a permission violation rather than a
    /// missing mapping.
    pub protection_violation: bool,
    /// The access was a write.
    pub write: bool,
    /// The access came from ring 3.
    pub user: bool,
    /// A reserved bit was set in a page-table entry on the walk.
    pub reserved_bit: bool,
    /// The access was an instruction fetch.
    pub instruction_fetch: bool,
}

impl PageFaultCause {
    /// What the five lowest bits of an error code say.
    pub open spec fn of(code: u64) -> PageFaultCause {
        PageFaultCause {
            protection_violation: code % 2 == 1,
            write: (code / 2) % 2 == 1,
            user: (code / 4) % 2 == 1,
            reserved_bit: (code / 8) % 2 == 1,
            instruction_fetch: (code / 16) % 2 == 1,
        }
    }

    /// Decode a page-fault error code.
    #[must_use]
    pub fn from_error_code(code: u64) -> (cause: PageFaultCause)
        ensures
            cause == PageFaultCause::of(code),
    {
        PageFaultCause {
            protection_violation: code % 2 == 1,
            write: (code / 2) % 2 == 1,
            user: (code / 4) % 2 == 1,
            reserved_bit: (code / 8) % 2 == 1,
            instruction_fetch: (code / 16) % 2 == 1,
        }
    }

    /// What a page fault was, in words. Malformed page tables explain a fault best,
    /// whatever else its code says.
    pub open spec fn summary(self) -> Seq<char> {
        if self.reserved_bit {
            "reserved bit set in a page-table entry"@
        } else if !self.protection_violation {
            if self.instruction_fetch {
                "instruction fetch from an unmapped page"@
            } else if self.write {
                "write to an unmapped page"@
            } else {
                "read from an unmapped page"@
            }
        } else if self.instruction_fetch {
            "instruction fetch from a no-execute page"@
        } else if self.write {
            "write to a read-only page"@
        } else if self.user {
            "user read of a supervisor page"@
        } else {
            "supervisor read of a page it may not read"@
        }
    }

    /// A one-line summary, for a fault report.
    #[must_use]
    pub fn as_str(self) -> (text: &'static str)
        ensures
            text@ == self.summary(),
    {
        if self.reserved_bit {
            return "reserved bit set in a page-table entry";
        }
        match (self.protection_violation, self.instruction_fetch, self.write, self.user) {
            (false, true, _, _) => "instruction fetch from an unmapped page",
            (false, _, true, _) => "write to an unmapped page",
            (false, _, false, _) => "read from an unmapped page",
            (true, true, _, _) => "instruction fetch from a no-execute page",
            (true, _, true, _) => "write to a read-only page",
            (true, _, false, true) => "user read of a supervisor page",
            (true, _, false, false) => "supervisor read of a page it may not read",
        }
    }
}

proof fn lemma_low_bits(code: u64, other: u64)
    by (bit_vector)
    requires
        code % 32 == other % 32,
    ensures
        code % 2 == other % 2,
        (code / 2) % 2 == (other / 2) % 2,
        (code / 4) % 2 == (other / 4) % 2,
        (code / 8) % 2 == (other / 8) % 2,
        (code / 16) % 2 == (other / 16) % 2,
{
}

/// Only the five lowest bits of a page-fault error code are interpreted.
pub proof fn law_only_five_bits_of_the_code_count(code: u64, other: u64)
    requires
        code % 32 == other % 32,
    ensures
        PageFaultCause::of(code) == PageFaultCause::of(other),
{
    lemma_low_bits(code, other);
}

/// Each field of a frame lies where the entry code put it: the registers from the
/// lowest address up, then the vector and the error code, then what the processor
/// pushed.
pub proof fn law_each_field_of_a_frame_has_its_place(f: TrapFrame)
    ensures
        f.words().len() == 22,
        f.words()[0] == f.rax && f.words()[1] == f.rbx && f.words()[2] == f.rcx && f.words()[3]
            == f.rdx,
        f.words()[4] == f.rsi && f.words()[5] == f.rdi && f.words()[6] == f.rbp,
        f.words()[7] == f.r8 && f.words()[8] == f.r9 && f.words()[9] == f.r10 && f.words()[10]
            == f.r11,
        f.words()[11] == f.r12 && f.words()[12] == f.r13 && f.words()[13] == f.r14 && f.words()[14]
            == f.r15,
        f.words()[15] == f.vector && f.words()[16] == f.error_code,
        f.words()[17] == f.rip && f.words()[18] == f.cs && f.words()[19] == f.rflags,
        f.words()[20] == f.rsp && f.words()[21] == f.ss,
{
}

/// The reserved vectors are those below 32 that the architecture has given no
/// exception, and from 32 on every vector is an external interrupt.
pub proof fn law_only_the_first_32_vectors_are_exceptions(vector: u64)
    ensures
        vector >= 32 <==> name_of(vector) == "external interrupt"@,
        name_of(vector) == "reserved"@ <==> vector == 9 || vector == 15 || 22 <= vector <= 27
            || vector == 31,
{
    lemma_initials(vector);
    reveal_strlit("reserved");
    reveal_strlit("external interrupt");
}

/// Each of the first 32 vectors has the name that the architecture gives it.
pub proof fn law_an_exception_has_its_own_name(vector: u64)
    requires
        vector < 32,
    ensures
        name_of(vector) == seq![
            "#DE divide error"@,
            "#DB debug"@,
            "NMI"@,
            "#BP breakpoint"@,
            "#OF overflow"@,
            "#BR bound range exceeded"@,
            "#UD invalid opcode"@,
            "#NM device not available"@,
            "#DF double fault"@,
            "reserved"@,
            "#TS invalid TSS"@,
            "#NP segment not present"@,
            "#SS stack-segment fault"@,
            "#GP general protection fault"@,
            "#PF page fault"@,
            "reserved"@,
            "#MF x87 floating-point error"@,
            "#AC alignment check"@,
            "#MC machine check"@,
            "#XM SIMD floating-point error"@,
            "#VE virtualisation exception"@,
            "#CP control protection"@,
            "reserved"@,
            "reserved"@,
            "reserved"@,
            "reserved"@,
            "reserved"@,
            "reserved"@,
            "#HV hypervisor injection"@,
            "#VC VMM communication"@,
            "#SX security exception"@,
            "reserved"@,
        ][vector as int],
{
}

/// How the names begin.
proof fn lemma_initials(vector: u64)
    ensures
        name_of(vector)[0] == 'r' <==> vector == 9 || vector == 15 || 22 <= vector <= 27 || vector
            == 31,
        name_of(vector)[0] == 'r' ==> name_of(vector) == "reserved"@,
        name_of(vector)[0] == 'e' <==> vector >= 32,
        name_of(vector)[0] == 'e' ==> name_of(vector) == "external interrupt"@,
{
    law_every_vector_has_a_name(vector);
    reveal_strlit("#DE divide error");
    reveal_strlit("#DB debug");
    reveal_strlit("NMI");
    reveal_strlit("#BP breakpoint");
    reveal_strlit("#OF overflow");
    reveal_strlit("#BR bound range exceeded");
    reveal_strlit("#UD invalid opcode");
    reveal_strlit("#NM device not available");
    reveal_strlit("#DF double fault");
    reveal_strlit("#TS invalid TSS");
    reveal_strlit("#NP segment not present");
    reveal_strlit("#SS stack-segment fault");
    reveal_strlit("#GP general protection fault");
    reveal_strlit("#PF page fault");
    reveal_strlit("#MF x87 floating-point error");
    reveal_strlit("#AC alignment check");
    reveal_strlit("#MC machine check");
    reveal_strlit("#XM SIMD floating-point error");
    reveal_strlit("#VE virtualisation exception");
    reveal_strlit("#CP control protection");
    reveal_strlit("#HV hypervisor injection");
    reveal_strlit("#VC VMM communication");
    reveal_strlit("#SX security exception");
    reveal_strlit("reserved");
    reveal_strlit("external interrupt");
}

/// Each fact about a page fault is one bit of its code.
pub proof fn law_each_cause_has_its_own_bit(code: u64)
    ensures
        PageFaultCause::of(code).protection_violation <==> code & 1 != 0,
        PageFaultCause::of(code).write <==> code & 2 != 0,
        PageFaultCause::of(code).user <==> code & 4 != 0,
        PageFaultCause::of(code).reserved_bit <==> code & 8 != 0,
        PageFaultCause::of(code).instruction_fetch <==> code & 16 != 0,
{
    assert((code % 2 == 1 <==> code & 1 != 0) && ((code / 2) % 2 == 1 <==> code & 2 != 0) && ((code
        / 4) % 2 == 1 <==> code & 4 != 0) && ((code / 8) % 2 == 1 <==> code & 8 != 0) && ((code
        / 16) % 2 == 1 <==> code & 16 != 0)) by (bit_vector);
}

/// A fault is reported as what it was: a set reserved bit before anything else, a
/// fetch before a write, a write before a read, and whether the page was there in
/// any of these. Who read a page makes a difference only where it was there.
pub proof fn law_a_fault_is_reported_as_what_it_was(c: PageFaultCause)
    ensures
        c.summary() == "reserved bit set in a page-table entry"@ <==> c.reserved_bit,
        c.summary() == "instruction fetch from an unmapped page"@ <==> !c.reserved_bit
            && c.instruction_fetch && !c.protection_violation,
        c.summary() == "instruction fetch from a no-execute page"@ <==> !c.reserved_bit
            && c.instruction_fetch && c.protection_violation,
        c.summary() == "write to an unmapped page"@ <==> !c.reserved_bit && !c.instruction_fetch
            && c.write && !c.protection_violation,
        c.summary() == "write to a read-only page"@ <==> !c.reserved_bit && !c.instruction_fetch
            && c.write && c.protection_violation,
        c.summary() == "read from an unmapped page"@ <==> !c.reserved_bit && !c.instruction_fetch
            && !c.write && !c.protection_violation,
        c.summary() == "user read of a supervisor page"@ <==> !c.reserved_bit
            && !c.instruction_fetch && !c.write && c.protection_violation && c.user,
        c.summary() == "supervisor read of a page it may not read"@ <==> !c.reserved_bit
            && !c.instruction_fetch && !c.write && c.protection_violation && !c.user,
{
    reveal_strlit("reserved bit set in a page-table entry");
    reveal_strlit("instruction fetch from an unmapped page");
    reveal_strlit("instruction fetch from a no-execute page");
    reveal_strlit("write to an unmapped page");
    reveal_strlit("write to a read-only page");
    reveal_strlit("read from an unmapped page");
    reveal_strlit("user read of a supervisor page");
    reveal_strlit("supervisor read of a page it may not read");
    assert("reserved bit set in a page-table entry"@.len() == 38);
    assert("instruction fetch from an unmapped page"@.len() == 39);
    assert("instruction fetch from a no-execute page"@.len() == 40);
    assert("write to an unmapped page"@.len() == 25);
    assert("write to a read-only page"@.len() == 25);
    assert("read from an unmapped page"@.len() == 26);
    assert("user read of a supervisor page"@.len() == 30);
    assert("supervisor read of a page it may not read"@.len() == 41);
    assert("write to an unmapped page"@[10] == 'n');
    assert("write to a read-only page"@[10] == ' ');
}

/// The vectors with an error code are the double fault, the segment and page
/// faults, the alignment check and the three later exceptions that have one.
pub proof fn law_ten_vectors_push_an_error_code(vector: u8, pushes: bool)
    requires
        call_ensures(pushes_error_code, (vector,), pushes),
    ensures
        pushes <==> vector == 8 || 10 <= vector <= 14 || vector == 17 || vector == 21 || vector
            == 29 || vector == 30,
{
    let codes = HAS_ERROR_CODE@;
    assert(codes[0] == 8 && codes[1] == 10 && codes[2] == 11 && codes[3] == 12 && codes[4] == 13
        && codes[5] == 14 && codes[6] == 17 && codes[7] == 21 && codes[8] == 29 && codes[9] == 30);
}

/// A trap came from the kernel exactly when the two lowest bits of its code segment
/// are clear.
pub proof fn law_the_code_segment_tells_the_ring(frame: TrapFrame, user: bool)
    requires
        call_ensures(TrapFrame::from_user, (&frame,), user),
    ensures
        user <==> frame.cs & 3 != 0,
{
    let cs = frame.cs;
    assert(cs % 4 != 0 <==> cs & 3 != 0) by (bit_vector);
}

} // verus!
