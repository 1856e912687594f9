//! A read-only view of a kernel image in the ELF64 format.
//!
//! A loader has to answer three questions before it can jump: where the image
//! wants to live, which bytes go where, and with what rights. That is header
//! validation and a walk of the loadable segments; the kernel is linked at a fixed
//! address, so there is nothing to relocate. Every rejection has its own reason,
//! because at that moment printing it is the only diagnostic that exists.
use crate::bytes;
use vstd::prelude::*;

verus! {

/// Program header type of a segment that must be placed in memory.
pub const PT_LOAD: u32 = 1;

/// Machine number of x86-64.
pub const EM_X86_64: u16 = 62;

/// File type of an executable linked at a fixed address. A position-independent
/// image is rejected: it would need relocating.
pub const ET_EXEC: u16 = 2;

/// Page size every mapping decision is made in.
pub const PAGE_SIZE: u64 = 4096;

/// Bytes of the file header.
pub const HEADER_LEN: usize = 64;

/// Bytes of one program header. Entries of the table may be longer, never
/// shorter.
pub const PROGRAM_HEADER_LEN: usize = 56;

/// Why an image was rejected.
///
/// One variant per check: the loader prints this and then halts, so the variant
/// is the bug report.
#[derive(Clone, Copy, Debug, PartialEq, Eq, Structural)]
pub enum ElfError {
    /// The four magic bytes are wrong.
    NotElf,
    /// The image is not a 64-bit one.
    NotElf64,
    /// The image is not little-endian.
    NotLittleEndian,
    /// The image is for another machine.
    WrongMachine,
    /// The image is not an executable linked at a fixed address.
    WrongType,
    /// The file is shorter than the file header.
    TruncatedHeader,
    /// The entries of the program header table are shorter than a program
    /// header, or the table runs past the end of the file.
    TruncatedProgramHeaders,
    /// The bytes of a segment lie outside the file.
    SegmentOutOfImage,
    /// A segment claims more file bytes than memory bytes.
    FileLargerThanMemory,
    /// The address of a segment is not page-aligned. Refused rather than rounded:
    /// two segments sharing a page cannot both get their own rights.
    UnalignedSegment,
    /// The image has nothing to load.
    NoLoadableSegments,
    /// The image spans a range past the end of the address space.
    SpanOverflow,
}

impl ElfError {
    /// The explanation of each rejection.
    pub open spec fn reason(self) -> Seq<char> {
        match self {
            ElfError::NotElf => "not an ELF file"@,
            ElfError::NotElf64 => "not ELF64 (32-bit image?)"@,
            ElfError::NotLittleEndian => "not little-endian"@,
            ElfError::WrongMachine =>
                "wrong machine (not x86-64 — aarch64 kernel on this ESP?)"@,
            ElfError::WrongType => "not ET_EXEC (position-independent image?)"@,
            ElfError::TruncatedHeader => "truncated ELF header"@,
            ElfError::TruncatedProgramHeaders => "truncated program headers"@,
            ElfError::SegmentOutOfImage => "segment lies outside the file"@,
            ElfError::FileLargerThanMemory => "segment p_filesz > p_memsz"@,
            ElfError::UnalignedSegment => "segment p_vaddr is not page-aligned"@,
            ElfError::NoLoadableSegments => "no PT_LOAD segments"@,
            ElfError::SpanOverflow => "image span overflows the address space"@,
        }
    }

    /// A short, printable explanation.
    #[must_use]
    pub fn as_str(self) -> (text: &'static str)
        ensures
            text@ == self.reason(),
    {
        match self {
            ElfError::NotElf => "not an ELF file",
            ElfError::NotElf64 => "not ELF64 (32-bit image?)",
            ElfError::NotLittleEndian => "not little-endian",
            ElfError::WrongMachine => "wrong machine (not x86-64 — aarch64 kernel on this ESP?)",
            ElfError::WrongType => "not ET_EXEC (position-independent image?)",
            ElfError::TruncatedHeader => "truncated ELF header",
            ElfError::TruncatedProgramHeaders => "truncated program headers",
            ElfError::SegmentOutOfImage => "segment lies outside the file",
            ElfError::FileLargerThanMemory => "segment p_filesz > p_memsz",
            ElfError::UnalignedSegment => "segment p_vaddr is not page-aligned",
            ElfError::NoLoadableSegments => "no PT_LOAD segments",
            ElfError::SpanOverflow => "image span overflows the address space",
        }
    }
}

/// Every rejection has an explanation, and no two share one.
pub proof fn law_every_rejection_has_its_own_explanation(a: ElfError, b: ElfError)
    ensures
        a.reason().len() > 0,
        a != b ==> a.reason() != b.reason(),
{
    reveal_strlit("not an ELF file");
    reveal_strlit("not ELF64 (32-bit image?)");
    reveal_strlit("not little-endian");
    reveal_strlit("wrong machine (not x86-64 — aarch64 kernel on this ESP?)");
    reveal_strlit("not ET_EXEC (position-independent image?)");
    reveal_strlit("truncated ELF header");
    reveal_strlit("truncated program headers");
    reveal_strlit("segment lies outside the file");
    reveal_strlit("segment p_filesz > p_memsz");
    reveal_strlit("segment p_vaddr is not page-aligned");
    reveal_strlit("no PT_LOAD segments");
    reveal_strlit("image span overflows the address space");
    assert(a != b && a.reason().len() == b.reason().len() ==> a.reason()[0] != b.reason()[0]);
}

/// The rights a segment asks for.
#[derive(Clone, Copy, Debug, PartialEq, Eq, Structural)]
pub struct Rights {
    /// The segment may be read.
    pub read: bool,
    /// The segment may be written.
    pub write: bool,
    /// The segment may be executed.
    pub execute: bool,
}

impl Rights {
    /// What the three lowest flag bits say.
    pub open spec fn of_flags(flags: u32) -> Rights {
        Rights {
            read: (flags / 4) % 2 == 1,
            write: (flags / 2) % 2 == 1,
            execute: flags % 2 == 1,
        }
    }

    /// Decode the flags of a program header. Unknown bits are ignored: they carry
    /// no meaning for placement.
    #[must_use]
    pub fn from_flags(flags: u32) -> (rights: Rights)
        ensures
            rights == Rights::of_flags(flags),
    {
        Rights { read: (flags / 4) % 2 == 1, write: (flags / 2) % 2 == 1, execute: flags % 2 == 1 }
    }

    /// Whether the segment is both writable and executable, which the loader
    /// refuses.
    #[must_use]
    pub fn is_wx(self) -> (both: bool)
        ensures
            both == (self.write && self.execute),
    {
        self.write && self.execute
    }
}

/// One loadable segment, resolved against the image bytes.
#[derive(Clone, Copy, Debug, PartialEq, Eq)]
pub struct Segment<'a> {
    /// Virtual address the segment must appear at, page-aligned.
    pub vaddr: u64,
    /// The bytes to copy.
    pub file: &'a [u8],
    /// Total size in memory. Bytes beyond those of the file are zero.
    pub memsz: u64,
    /// The rights the segment asks for.
    pub rights: Rights,
}

/// A segment as a value: its bytes are a sequence.
pub struct Placed {
    /// Virtual address of the segment.
    pub vaddr: u64,
    /// The bytes to copy.
    pub file: Seq<u8>,
    /// Total size in memory.
    pub memsz: u64,
    /// The rights the segment asks for.
    pub rights: Rights,
}

impl View for Segment<'_> {
    type V = Placed;

    open spec fn view(&self) -> Placed {
        Placed { vaddr: self.vaddr, file: self.file@, memsz: self.memsz, rights: self.rights }
    }
}

impl Segment<'_> {
    /// Number of pages the segment occupies in memory.
    #[must_use]
    pub fn pages(&self) -> (pages: u64)
        ensures
            pages == (self.memsz + PAGE_SIZE - 1) / PAGE_SIZE as int,
    {
        let whole = self.memsz / PAGE_SIZE;
        if self.memsz % PAGE_SIZE == 0 {
            whole
        } else {
            whole + 1
        }
    }
}

/// What is wrong with the headers of an image, if anything: the first check that
/// fails.
pub open spec fn header_fault(image: Seq<u8>) -> Option<ElfError> {
    if image.len() < HEADER_LEN {
        Some(ElfError::TruncatedHeader)
    } else if !(image[0] == 0x7f && image[1] == 0x45 && image[2] == 0x4c && image[3] == 0x46) {
        Some(ElfError::NotElf)
    } else if image[4] != 2 {
        Some(ElfError::NotElf64)
    } else if image[5] != 1 {
        Some(ElfError::NotLittleEndian)
    } else if bytes::le16(image, 16) != ET_EXEC {
        Some(ElfError::WrongType)
    } else if bytes::le16(image, 18) != EM_X86_64 {
        Some(ElfError::WrongMachine)
    } else if bytes::le16(image, 54) < PROGRAM_HEADER_LEN {
        Some(ElfError::TruncatedProgramHeaders)
    } else if bytes::le64(image, 32) + bytes::le16(image, 54) * bytes::le16(image, 56)
        > image.len() {
        Some(ElfError::TruncatedProgramHeaders)
    } else {
        None
    }
}

/// What the program header at `ph` asks for: nothing unless it is a loadable
/// segment, and then the segment or the first check that it fails.
pub open spec fn segment_at(image: Seq<u8>, ph: int) -> Option<Result<Placed, ElfError>> {
    let offset = bytes::le64(image, ph + 8);
    let filesz = bytes::le64(image, ph + 32);
    let memsz = bytes::le64(image, ph + 40);
    let vaddr = bytes::le64(image, ph + 16);
    if bytes::le32(image, ph) != PT_LOAD {
        None
    } else if filesz > memsz {
        Some(Err(ElfError::FileLargerThanMemory))
    } else if vaddr % PAGE_SIZE != 0 {
        Some(Err(ElfError::UnalignedSegment))
    } else if offset + filesz > image.len() {
        Some(Err(ElfError::SegmentOutOfImage))
    } else {
        Some(
            Ok(
                Placed {
                    vaddr,
                    file: image.subrange(offset as int, offset + filesz),
                    memsz,
                    rights: Rights::of_flags(bytes::le32(image, ph + 4)),
                },
            ),
        )
    }
}

/// What the entries of a program header table ask for, in table order, from entry
/// `index` on.
pub open spec fn segments_from(
    image: Seq<u8>,
    phoff: int,
    phentsize: int,
    phnum: int,
    index: int,
) -> Seq<Result<Placed, ElfError>>
    decreases phnum - index,
{
    if index < phnum {
        let rest = segments_from(image, phoff, phentsize, phnum, index + 1);
        match segment_at(image, phoff + index * phentsize) {
            Some(item) => seq![item] + rest,
            None => rest,
        }
    } else {
        Seq::empty()
    }
}

/// What the program headers of an image ask for, in table order.
pub open spec fn loadable_in(image: Seq<u8>) -> Seq<Result<Placed, ElfError>> {
    segments_from(
        image,
        bytes::le64(image, 32) as int,
        bytes::le16(image, 54) as int,
        bytes::le16(image, 56) as int,
        0,
    )
}

/// A segment or an error, by value.
pub open spec fn item_view(item: Result<Segment, ElfError>) -> Result<Placed, ElfError> {
    match item {
        Ok(segment) => Ok(segment@),
        Err(e) => Err(e),
    }
}

/// A validated executable borrowing the raw image bytes.
#[derive(Clone, Copy, Debug, PartialEq, Eq)]
pub struct Elf<'a> {
    /// The whole file.
    pub image: &'a [u8],
    /// The virtual address to jump to.
    pub entry: u64,
    /// Where the program header table starts.
    pub phoff: usize,
    /// Bytes of one entry of the table.
    pub phentsize: usize,
    /// Number of entries of the table.
    pub phnum: usize,
}

impl<'a> Elf<'a> {
    /// Whether the program header table lies in the image and its entries hold
    /// whole program headers.
    pub open spec fn wf(&self) -> bool {
        &&& self.phentsize >= PROGRAM_HEADER_LEN
        &&& self.phoff + self.phentsize * self.phnum <= self.image@.len()
    }

    /// What the program headers ask for, in table order.
    pub open spec fn loadable(&self) -> Seq<Result<Placed, ElfError>> {
        segments_from(
            self.image@,
            self.phoff as int,
            self.phentsize as int,
            self.phnum as int,
            0,
        )
    }

    /// Validate `image` as an x86-64 executable.
    ///
    /// Header-level checks only; those of a segment happen during the walk, so
    /// that each failure is attributed to the segment that caused it.
    ///
    /// # Errors
    /// Returns the specific [`ElfError`] for the first check that fails.
    pub fn parse(image: &'a [u8]) -> (result: Result<Elf<'a>, ElfError>)
        ensures
            match result {
                Err(e) => header_fault(image@) == Some(e),
                Ok(elf) => {
                    &&& header_fault(image@) is None
                    &&& elf.wf()
                    &&& elf.image@ == image@
                    &&& elf.entry == bytes::le64(image@, 24)
                    &&& elf.phoff == bytes::le64(image@, 32)
                    &&& elf.phentsize == bytes::le16(image@, 54)
                    &&& elf.phnum == bytes::le16(image@, 56)
                },
            },
    {
        if image.len() < HEADER_LEN {
            return Err(ElfError::TruncatedHeader);
        }
        if !(image[0] == 0x7f && image[1] == 0x45 && image[2] == 0x4c && image[3] == 0x46) {
            return Err(ElfError::NotElf);
        }
        if image[4] != 2 {
            return Err(ElfError::NotElf64);
        }
        if image[5] != 1 {
            return Err(ElfError::NotLittleEndian);
        }
        if bytes::u16_at(image, 16) != Some(ET_EXEC) {
            return Err(ElfError::WrongType);
        }
        if bytes::u16_at(image, 18) != Some(EM_X86_64) {
            return Err(ElfError::WrongMachine);
        }
        let (Some(entry), Some(phoff), Some(phentsize), Some(phnum)) = (
            bytes::u64_at(image, 24),
            bytes::u64_at(image, 32),
            bytes::u16_at(image, 54),
            bytes::u16_at(image, 56),
        ) else {
            return Err(ElfError::TruncatedHeader);
        };
        if (phentsize as usize) < PROGRAM_HEADER_LEN {
            return Err(ElfError::TruncatedProgramHeaders);
        }
        assert(phentsize * phnum <= 0xffff * 0xffff) by (nonlinear_arith)
            requires
                phentsize <= 0xffff,
                phnum <= 0xffff,
        ;
        assert(phentsize * phnum >= 0) by (nonlinear_arith)
            requires
                phentsize >= 0,
                phnum >= 0,
        ;
        let table_len = phentsize as u64 * phnum as u64;
        let size = image.len() as u64;
        if phoff > size || table_len > size - phoff {
            return Err(ElfError::TruncatedProgramHeaders);
        }
        Ok(
            Elf {
                image,
                entry,
                phoff: phoff as usize,
                phentsize: phentsize as usize,
                phnum: phnum as usize,
            },
        )
    }

    /// The entry point: the virtual address to jump to.
    #[must_use]
    pub fn entry(&self) -> (entry: u64)
        ensures
            entry == self.entry,
    {
        self.entry
    }

    /// Walk the loadable segments in program header order.
    ///
    /// Each item is a `Result`, because a malformed segment must stop the load
    /// rather than be skipped.
    #[must_use]
    pub fn segments(&self) -> (walk: Segments<'a>)
        requires
            self.wf(),
        ensures
            walk.wf(),
            walk.remaining() == self.loadable(),
    {
        Segments {
            image: self.image,
            phoff: self.phoff,
            phentsize: self.phentsize,
            phnum: self.phnum,
            index: 0,
        }
    }

    /// The contiguous block the image needs, as base address and bytes,
    /// page-aligned outwards.
    ///
    /// One block of this size with every segment at the same distance from the
    /// base as in the image keeps the difference between virtual and physical
    /// addresses constant.
    ///
    /// # Errors
    /// Propagates any segment error, and reports
    /// [`ElfError::NoLoadableSegments`] for an image with nothing to load.
    pub fn load_span(&self) -> (span: Result<(u64, u64), ElfError>)
        requires
            self.wf(),
        ensures
            span == span_of(self.loadable()),
    {
        let mut lo = u64::MAX;
        let mut hi = 0u64;
        let mut walk = self.segments();
        let ghost all = self.loadable();
        loop
            invariant
                walk.wf(),
                extent(walk.remaining(), lo, hi) == extent(all, u64::MAX, 0),
                span_of(all) == span_of(self.loadable()),
                lo <= hi || lo == u64::MAX,
            ensures
                extent(all, u64::MAX, 0) == Ok::<(u64, u64), ElfError>((lo, hi)),
                span_of(all) == span_of(self.loadable()),
                lo <= hi || lo == u64::MAX,
            decreases walk.phnum - walk.index,
        {
            match walk.next() {
                None => {
                    break;
                },
                Some(Err(e)) => {
                    return Err(e);
                },
                Some(Ok(segment)) => {
                    let Some(end) = segment.vaddr.checked_add(segment.memsz) else {
                        return Err(ElfError::SpanOverflow);
                    };
                    if segment.vaddr < lo {
                        lo = segment.vaddr;
                    }
                    if end > hi {
                        hi = end;
                    }
                },
            }
        }
        if lo == u64::MAX {
            return Err(ElfError::NoLoadableSegments);
        }
        let over = hi % PAGE_SIZE;
        let hi = if over == 0 {
            hi
        } else {
            match hi.checked_add(PAGE_SIZE - over) {
                Some(up) => up,
                None => {
                    return Err(ElfError::SpanOverflow);
                },
            }
        };
        Ok((lo, hi - lo))
    }
}

/// The lowest address and the highest end of some segments, starting from `lo` and
/// `hi`, or the first thing that is wrong with them.
pub open spec fn extent(
    segments: Seq<Result<Placed, ElfError>>,
    lo: u64,
    hi: u64,
) -> Result<(u64, u64), ElfError>
    decreases segments.len(),
{
    if segments.len() == 0 {
        Ok((lo, hi))
    } else {
        match segments[0] {
            Err(e) => Err(e),
            Ok(s) => {
                let end = s.vaddr + s.memsz;
                if end > u64::MAX {
                    Err(ElfError::SpanOverflow)
                } else {
                    extent(
                        segments.drop_first(),
                        if s.vaddr < lo {
                            s.vaddr
                        } else {
                            lo
                        },
                        if end > hi {
                            end as u64
                        } else {
                            hi
                        },
                    )
                }
            },
        }
    }
}

/// The least multiple of the page size that is not below `n`.
pub open spec fn page_up(n: int) -> int {
    (n + PAGE_SIZE - 1) / PAGE_SIZE as int * PAGE_SIZE
}

/// The block that some segments need, or why there is none.
pub open spec fn span_of(segments: Seq<Result<Placed, ElfError>>) -> Result<(u64, u64), ElfError> {
    match extent(segments, u64::MAX, 0) {
        Err(e) => Err(e),
        Ok((lo, hi)) => if lo == u64::MAX {
            Err(ElfError::NoLoadableSegments)
        } else if page_up(hi as int) > u64::MAX {
            Err(ElfError::SpanOverflow)
        } else {
            Ok((lo, (page_up(hi as int) - lo) as u64))
        },
    }
}

/// A walk over the loadable segments of an image. See [`Elf::segments`].
#[derive(Clone, Copy, Debug)]
pub struct Segments<'a> {
    /// The whole file.
    pub image: &'a [u8],
    /// Where the program header table starts.
    pub phoff: usize,
    /// Bytes of one entry of the table.
    pub phentsize: usize,
    /// Number of entries of the table.
    pub phnum: usize,
    /// The entry to look at next.
    pub index: usize,
}

impl<'a> Segments<'a> {
    /// Whether every entry still to come lies in the image.
    pub open spec fn wf(&self) -> bool {
        &&& self.phentsize >= PROGRAM_HEADER_LEN
        &&& self.phoff + self.phentsize * self.phnum <= self.image@.len()
        &&& self.index <= self.phnum
    }

    /// What is still to come.
    pub open spec fn remaining(&self) -> Seq<Result<Placed, ElfError>> {
        segments_from(
            self.image@,
            self.phoff as int,
            self.phentsize as int,
            self.phnum as int,
            self.index as int,
        )
    }

    /// The next loadable segment, if there is one.
    pub fn next(&mut self) -> (item: Option<Result<Segment<'a>, ElfError>>)
        requires
            old(self).wf(),
        ensures
            final(self).wf(),
            final(self).image == old(self).image,
            final(self).phoff == old(self).phoff,
            final(self).phentsize == old(self).phentsize,
            final(self).phnum == old(self).phnum,
            match item {
                None => old(self).remaining().len() == 0 && final(self).remaining().len() == 0,
                Some(item) => {
                    &&& old(self).remaining().len() > 0
                    &&& item_view(item) == old(self).remaining()[0]
                    &&& final(self).remaining() == old(self).remaining().drop_first()
                    &&& final(self).index > old(self).index
                },
            },
    {
        while self.index < self.phnum
            invariant
                self.wf(),
                self.image == old(self).image,
                self.phoff == old(self).phoff,
                self.phentsize == old(self).phentsize,
                self.phnum == old(self).phnum,
                self.index >= old(self).index,
                self.remaining() == old(self).remaining(),
            decreases self.phnum - self.index,
        {
            let image = self.image;
            assert(self.index * self.phentsize + self.phentsize <= self.phentsize * self.phnum)
                by (nonlinear_arith)
                requires
                    self.index < self.phnum,
            ;
            assert(self.phoff + self.index * self.phentsize + PROGRAM_HEADER_LEN <= image.len());
            assert(self.index * self.phentsize >= 0) by (nonlinear_arith);
            let ph = self.phoff + self.index * self.phentsize;
            self.index = self.index + 1;
            let ghost rest = self.remaining();
            proof {
                assert((seq![item_at(image@, ph as int)] + rest).drop_first() =~= rest);
            }
            let (Some(p_type), Some(p_flags)) = (
                bytes::u32_at(image, ph),
                bytes::u32_at(image, ph + 4),
            ) else {
                return Some(Err(ElfError::TruncatedProgramHeaders));
            };
            if p_type != PT_LOAD {
                continue;
            }
            let (Some(offset), Some(vaddr), Some(filesz), Some(memsz)) = (
                bytes::u64_at(image, ph + 8),
                bytes::u64_at(image, ph + 16),
                bytes::u64_at(image, ph + 32),
                bytes::u64_at(image, ph + 40),
            ) else {
                return Some(Err(ElfError::TruncatedProgramHeaders));
            };
            if filesz > memsz {
                return Some(Err(ElfError::FileLargerThanMemory));
            }
            if vaddr % PAGE_SIZE != 0 {
                return Some(Err(ElfError::UnalignedSegment));
            }
            let size = image.len() as u64;
            if offset > size || filesz > size - offset {
                return Some(Err(ElfError::SegmentOutOfImage));
            }
            let start = offset as usize;
            let end = start + filesz as usize;
            return Some(
                Ok(
                    Segment {
                        vaddr,
                        file: &image[start..end],
                        memsz,
                        rights: Rights::from_flags(p_flags),
                    },
                ),
            );
        }
        None
    }
}

/// What a loadable program header asks for.
pub open spec fn item_at(image: Seq<u8>, ph: int) -> Result<Placed, ElfError> {
    segment_at(image, ph)->0
}

/// Every segment that a walk gives out is page-aligned, takes no more bytes from
/// the file than it has in memory, and takes them from inside the image.
pub proof fn law_segments_are_aligned_and_inside_the_image(
    image: Seq<u8>,
    phoff: int,
    phentsize: int,
    phnum: int,
    index: int,
    i: int,
)
    requires
        0 <= i < segments_from(image, phoff, phentsize, phnum, index).len(),
    ensures
        segments_from(image, phoff, phentsize, phnum, index)[i] matches Ok(s) ==> {
            &&& s.vaddr % PAGE_SIZE == 0
            &&& s.file.len() <= s.memsz
            &&& exists|offset: int|
                0 <= offset && offset + s.file.len() <= image.len() && s.file
                    == #[trigger] image.subrange(offset, offset + s.file.len())
        },
    decreases phnum - index,
{
    let ph = phoff + index * phentsize;
    let rest = segments_from(image, phoff, phentsize, phnum, index + 1);
    match segment_at(image, ph) {
        Some(item) => {
            if i == 0 {
                if let Ok(s) = item {
                    let offset = bytes::le64(image, ph + 8) as int;
                    assert(s.file =~= image.subrange(offset, offset + s.file.len()));
                }
            } else {
                law_segments_are_aligned_and_inside_the_image(
                    image,
                    phoff,
                    phentsize,
                    phnum,
                    index + 1,
                    i - 1,
                );
            }
        },
        None => {
            law_segments_are_aligned_and_inside_the_image(
                image,
                phoff,
                phentsize,
                phnum,
                index + 1,
                i,
            );
        },
    }
}

/// What an extent is made of.
proof fn lemma_extent(segments: Seq<Result<Placed, ElfError>>, lo: u64, hi: u64)
    ensures
        extent(segments, lo, hi) matches Ok((low, high)) ==> {
            &&& low <= lo
            &&& high >= hi
            &&& low == lo || exists|i: int|
                0 <= i < segments.len() && (#[trigger] segments[i])->Ok_0.vaddr == low
            &&& high == hi || exists|i: int|
                0 <= i < segments.len() && (#[trigger] segments[i])->Ok_0.vaddr
                    + segments[i]->Ok_0.memsz == high
            &&& forall|i: int|
                0 <= i < segments.len() ==> {
                    &&& (#[trigger] segments[i]) is Ok
                    &&& low <= segments[i]->Ok_0.vaddr
                    &&& segments[i]->Ok_0.vaddr + segments[i]->Ok_0.memsz <= high
                }
        },
    decreases segments.len(),
{
    if segments.len() > 0 {
        if let Ok(s) = segments[0] {
            let end = s.vaddr + s.memsz;
            if end <= u64::MAX {
                let rest = segments.drop_first();
                let lo2 = if s.vaddr < lo { s.vaddr } else { lo };
                let hi2 = if end > hi { end as u64 } else { hi };
                lemma_extent(rest, lo2, hi2);
                if let Ok((low, high)) = extent(segments, lo, hi) {
                    assert forall|i: int| 0 <= i < segments.len() implies {
                        &&& (#[trigger] segments[i]) is Ok
                        &&& low <= segments[i]->Ok_0.vaddr
                        &&& segments[i]->Ok_0.vaddr + segments[i]->Ok_0.memsz <= high
                    } by {
                        if i > 0 {
                            assert(rest[i - 1] == segments[i]);
                        }
                    }
                    if low != lo2 {
                        let i = choose|i: int|
                            0 <= i < rest.len() && (#[trigger] rest[i])->Ok_0.vaddr == low;
                        assert(segments[i + 1] == rest[i]);
                    }
                    if high != hi2 {
                        let i = choose|i: int|
                            0 <= i < rest.len() && (#[trigger] rest[i])->Ok_0.vaddr
                                + rest[i]->Ok_0.memsz == high;
                        assert(segments[i + 1] == rest[i]);
                    }
                }
            }
        }
    }
}

/// A load span covers every segment of the image, stays in the address space,
/// starts at one of the segments, and ends less than a page past the end of one of
/// them.
pub proof fn law_the_load_span_covers_every_segment(
    segments: Seq<Result<Placed, ElfError>>,
    base: u64,
    size: u64,
)
    requires
        span_of(segments) == Ok::<(u64, u64), ElfError>((base, size)),
    ensures
        forall|i: int|
            0 <= i < segments.len() ==> {
                &&& (#[trigger] segments[i]) is Ok
                &&& base <= segments[i]->Ok_0.vaddr
                &&& segments[i]->Ok_0.vaddr + segments[i]->Ok_0.memsz <= base + size
            },
        base + size <= u64::MAX,
        exists|i: int| 0 <= i < segments.len() && (#[trigger] segments[i])->Ok_0.vaddr == base,
        exists|i: int|
            0 <= i < segments.len() && base + size - ((#[trigger] segments[i])->Ok_0.vaddr
                + segments[i]->Ok_0.memsz) < PAGE_SIZE,
{
    lemma_extent(segments, u64::MAX, 0);
    let (lo, hi) = extent(segments, u64::MAX, 0)->Ok_0;
    assert(base + size == page_up(hi as int));
    let i = choose|i: int| 0 <= i < segments.len() && (#[trigger] segments[i])->Ok_0.vaddr == lo;
    assert(segments[i]->Ok_0.vaddr == base);
    if hi == 0 {
        assert(base + size - (segments[i]->Ok_0.vaddr + segments[i]->Ok_0.memsz) < PAGE_SIZE);
    }
}

/// The load span of an image is whole pages.
pub proof fn law_the_load_span_is_whole_pages(elf: Elf, base: u64, size: u64)
    requires
        span_of(elf.loadable()) == Ok::<(u64, u64), ElfError>((base, size)),
    ensures
        base % PAGE_SIZE == 0,
        size % PAGE_SIZE == 0,
{
    let segments = elf.loadable();
    law_the_load_span_covers_every_segment(segments, base, size);
    let i = choose|i: int| 0 <= i < segments.len() && (#[trigger] segments[i])->Ok_0.vaddr == base;
    law_segments_are_aligned_and_inside_the_image(
        elf.image@,
        elf.phoff as int,
        elf.phentsize as int,
        elf.phnum as int,
        0,
        i,
    );
    let (lo, hi) = extent(segments, u64::MAX, 0)->Ok_0;
    let q = (hi + PAGE_SIZE - 1) / PAGE_SIZE as int;
    let b = base / PAGE_SIZE;
    lemma_extent(segments, u64::MAX, 0);
    assert(size == 4096 * (q - b));
}

/// The flags of a program header are three independent bits: 4 to read, 2 to
/// write, 1 to execute.
pub proof fn law_each_right_has_its_own_bit(flags: u32)
    ensures
        Rights::of_flags(flags).read <==> flags & 4 != 0,
        Rights::of_flags(flags).write <==> flags & 2 != 0,
        Rights::of_flags(flags).execute <==> flags & 1 != 0,
{
    assert(((flags / 4) % 2 == 1 <==> flags & 4 != 0) && ((flags / 2) % 2 == 1 <==> flags & 2 != 0)
        && (flags % 2 == 1 <==> flags & 1 != 0)) by (bit_vector);
}

/// A walk gives out what the loadable headers of the table ask for, one item for
/// each and in table order. The headers it comes from are returned by their place
/// in the table.
///
/// A segment has the address, the size and the rights of its header. It carries
/// exactly as many bytes as the header's file size, and the byte at `k` is the
/// byte of the image that lies `k` past the header's file offset. An error tells
/// what is wrong with the header it stands for.
pub proof fn law_a_walk_gives_out_every_loadable_header(
    image: Seq<u8>,
    phoff: int,
    phentsize: int,
    phnum: int,
    index: int,
) -> (headers: Seq<int>)
    ensures
        headers.len() == segments_from(image, phoff, phentsize, phnum, index).len(),
        forall|a: int, b: int| 0 <= a < b < headers.len() ==> headers[a] < headers[b],
        forall|j: int| #[trigger]
            headers.contains(j) <==> index <= j < phnum && bytes::le32(image, phoff + j * phentsize)
                == 1,
        forall|i: int|
            0 <= i < headers.len() ==> {
                let ph = phoff + #[trigger] headers[i] * phentsize;
                let flags = bytes::le32(image, ph + 4);
                let offset = bytes::le64(image, ph + 8);
                let vaddr = bytes::le64(image, ph + 16);
                let filesz = bytes::le64(image, ph + 32);
                let memsz = bytes::le64(image, ph + 40);
                match segments_from(image, phoff, phentsize, phnum, index)[i] {
                    Ok(s) => {
                        &&& filesz <= memsz
                        &&& vaddr % 4096 == 0
                        &&& offset + filesz <= image.len()
                        &&& s.vaddr == vaddr
                        &&& s.memsz == memsz
                        &&& s.rights.read == (flags & 4 != 0)
                        &&& s.rights.write == (flags & 2 != 0)
                        &&& s.rights.execute == (flags & 1 != 0)
                        &&& s.file.len() == filesz
                        &&& forall|k: int|
                            0 <= k < filesz ==> #[trigger] s.file[k] == image[offset + k]
                    },
                    Err(e) => if filesz > memsz {
                        e == ElfError::FileLargerThanMemory
                    } else if vaddr % 4096 != 0 {
                        e == ElfError::UnalignedSegment
                    } else {
                        e == ElfError::SegmentOutOfImage && offset + filesz > image.len()
                    },
                }
            },
    decreases phnum - index,
{
    if index < phnum {
        let ph = phoff + index * phentsize;
        let rest = law_a_walk_gives_out_every_loadable_header(
            image,
            phoff,
            phentsize,
            phnum,
            index + 1,
        );
        let after = segments_from(image, phoff, phentsize, phnum, index + 1);
        law_each_right_has_its_own_bit(bytes::le32(image, ph + 4));
        if bytes::le32(image, ph) == 1 {
            let headers = seq![index] + rest;
            let items = segments_from(image, phoff, phentsize, phnum, index);
            assert(items == seq![segment_at(image, ph)->0] + after);
            assert forall|i: int| 0 < i < headers.len() implies headers[i] == rest[i - 1]
                && items[i] == after[i - 1] by {}
            assert forall|a: int, b: int| 0 <= a < b < headers.len() implies headers[a]
                < headers[b] by {
                assert(rest.contains(rest[b - 1]));
            }
            assert forall|j: int| #[trigger]
                headers.contains(j) <==> index <= j < phnum && bytes::le32(
                image,
                phoff + j * phentsize,
            ) == 1 by {
                assert(rest.contains(j) <==> index + 1 <= j < phnum && bytes::le32(
                    image,
                    phoff + j * phentsize,
                ) == 1);
                assert(headers[0] == index);
                if rest.contains(j) {
                    let at = choose|at: int| 0 <= at < rest.len() && rest[at] == j;
                    assert(headers[at + 1] == j);
                }
                if headers.contains(j) && j != index {
                    let at = choose|at: int| 0 <= at < headers.len() && headers[at] == j;
                    assert(rest[at - 1] == j);
                }
            }
            headers
        } else {
            assert forall|j: int| #[trigger]
                rest.contains(j) <==> index <= j < phnum && bytes::le32(
                image,
                phoff + j * phentsize,
            ) == 1 by {}
            rest
        }
    } else {
        Seq::empty()
    }
}

/// Every segment that a walk over an image gives out carries exactly the bytes its
/// program header names: as many as the 64-bit field at 32 says, starting where
/// the field at 8 says.
pub proof fn law_a_segment_is_the_bytes_its_header_names(image: Seq<u8>, i: int) -> (j: int)
    requires
        0 <= i < loadable_in(image).len(),
    ensures
        0 <= j < bytes::le16(image, 56),
        loadable_in(image)[i] matches Ok(s) ==> {
            let ph = bytes::le64(image, 32) + j * bytes::le16(image, 54);
            &&& bytes::le32(image, ph) == 1
            &&& s.vaddr == bytes::le64(image, ph + 16)
            &&& s.memsz == bytes::le64(image, ph + 40)
            &&& s.file.len() == bytes::le64(image, ph + 32)
            &&& forall|k: int|
                0 <= k < s.file.len() ==> #[trigger] s.file[k] == image[bytes::le64(image, ph + 8)
                    + k]
        },
{
    let headers = law_a_walk_gives_out_every_loadable_header(
        image,
        bytes::le64(image, 32) as int,
        bytes::le16(image, 54) as int,
        bytes::le16(image, 56) as int,
        0,
    );
    assert(headers.contains(headers[i]));
    headers[i]
}

/// As many items come out of an image as its table has loadable headers: the
/// table starts where the 64-bit field at 32 says, and the 16-bit fields at 54
/// and 56 give the size and the number of its entries.
pub proof fn law_no_loadable_header_is_passed_over(image: Seq<u8>) -> (headers: Seq<int>)
    ensures
        headers.len() == loadable_in(image).len(),
        forall|a: int, b: int| 0 <= a < b < headers.len() ==> headers[a] < headers[b],
        forall|j: int| #[trigger]
            headers.contains(j) <==> 0 <= j < bytes::le16(image, 56) && bytes::le32(
                image,
                bytes::le64(image, 32) + j * bytes::le16(image, 54),
            ) == 1,
{
    law_a_walk_gives_out_every_loadable_header(
        image,
        bytes::le64(image, 32) as int,
        bytes::le16(image, 54) as int,
        bytes::le16(image, 56) as int,
        0,
    )
}

/// Stepping a walk past a header that asks for nothing changes nothing, and
/// stepping it past a loadable one leaves out exactly its first item.
pub proof fn law_a_step_takes_one_header(elf: Elf, index: int)
    requires
        0 <= index < elf.phnum,
    ensures
        ({
            let here = segments_from(
                elf.image@,
                elf.phoff as int,
                elf.phentsize as int,
                elf.phnum as int,
                index,
            );
            let after = segments_from(
                elf.image@,
                elf.phoff as int,
                elf.phentsize as int,
                elf.phnum as int,
                index + 1,
            );
            if bytes::le32(elf.image@, elf.phoff + index * elf.phentsize) == 1 {
                here.len() == after.len() + 1 && here.drop_first() == after
            } else {
                here == after
            }
        }),
        index == 0 ==> elf.loadable() == segments_from(
            elf.image@,
            elf.phoff as int,
            elf.phentsize as int,
            elf.phnum as int,
            index,
        ),
{
    let after = segments_from(
        elf.image@,
        elf.phoff as int,
        elf.phentsize as int,
        elf.phnum as int,
        index + 1,
    );
    match segment_at(elf.image@, elf.phoff + index * elf.phentsize) {
        Some(item) => {
            assert((seq![item] + after).drop_first() =~= after);
        },
        None => {},
    }
}

/// The headers are found good exactly when the image is long enough, is marked as
/// a 64-bit little-endian ELF file, is an executable for this machine, and holds
/// its whole program header table. Each fault names the first of these that does
/// not hold.
pub proof fn law_headers_are_refused_for_what_is_wrong(image: Seq<u8>)
    ensures
        ({
            let whole = image.len() >= 64;
            let elf = image[0] == 0x7f && image[1] == 'E' as u8 && image[2] == 'L' as u8 && image[3]
                == 'F' as u8;
            let wide = image[4] == 2;
            let little = image[5] == 1;
            let executable = image[16] == 2 && image[17] == 0;
            let ours = image[18] == 0x3e && image[19] == 0;
            let table = bytes::le16(image, 54) >= 56 && bytes::le64(image, 32) + bytes::le16(
                image,
                54,
            ) * bytes::le16(image, 56) <= image.len();
            match header_fault(image) {
                Some(ElfError::TruncatedHeader) => !whole,
                Some(ElfError::NotElf) => whole && !elf,
                Some(ElfError::NotElf64) => whole && elf && !wide,
                Some(ElfError::NotLittleEndian) => whole && elf && wide && !little,
                Some(ElfError::WrongType) => whole && elf && wide && little && !executable,
                Some(ElfError::WrongMachine) => whole && elf && wide && little && executable
                    && !ours,
                Some(ElfError::TruncatedProgramHeaders) => whole && elf && wide && little
                    && executable && ours && !table,
                Some(_) => false,
                None => whole && elf && wide && little && executable && ours && table,
            }
        }),
{
}

/// There is no load span exactly when a segment is at fault, runs past the end of
/// the address space or ends in its last, incomplete page, or when there is
/// nothing to load. The first segment that has a fault or runs past the end
/// decides which error it is.
pub proof fn law_a_load_span_fails_with_its_first_segment(
    segments: Seq<Result<Placed, ElfError>>,
    n: int,
)
    requires
        0 <= n <= segments.len(),
        forall|i: int|
            0 <= i < n ==> (#[trigger] segments[i]) is Ok && segments[i]->Ok_0.vaddr % PAGE_SIZE
                == 0 && segments[i]->Ok_0.vaddr + segments[i]->Ok_0.memsz <= u64::MAX,
    ensures
        n < segments.len() ==> (segments[n] matches Err(e) ==> span_of(segments) == Err::<
            (u64, u64),
            ElfError,
        >(e)),
        n < segments.len() ==> (segments[n] matches Ok(s) ==> s.vaddr + s.memsz > u64::MAX
            ==> span_of(segments) == Err::<(u64, u64), ElfError>(ElfError::SpanOverflow)),
        n == segments.len() == 0 ==> span_of(segments) == Err::<(u64, u64), ElfError>(
            ElfError::NoLoadableSegments,
        ),
        n == segments.len() && n > 0 ==> if exists|i: int|
            0 <= i < n && (#[trigger] segments[i])->Ok_0.vaddr + segments[i]->Ok_0.memsz > u64::MAX
                - 4095 {
            span_of(segments) == Err::<(u64, u64), ElfError>(ElfError::SpanOverflow)
        } else {
            span_of(segments) is Ok
        },
{
    lemma_extent_fails(segments, n, u64::MAX, 0);
    lemma_extent(segments, u64::MAX, 0);
    if n == segments.len() {
        let (lo, hi) = extent(segments, u64::MAX, 0)->Ok_0;
        if n > 0 {
            assert(lo <= segments[0]->Ok_0.vaddr);
        }
    }
}

/// The first segment that has a fault or runs past the end of the address space
/// decides the extent.
proof fn lemma_extent_fails(
    segments: Seq<Result<Placed, ElfError>>,
    n: int,
    lo: u64,
    hi: u64,
)
    requires
        0 <= n <= segments.len(),
        forall|i: int|
            0 <= i < n ==> (#[trigger] segments[i]) is Ok && segments[i]->Ok_0.vaddr
                + segments[i]->Ok_0.memsz <= u64::MAX,
    ensures
        n == segments.len() ==> extent(segments, lo, hi) is Ok,
        n < segments.len() ==> (segments[n] matches Err(e) ==> extent(segments, lo, hi) == Err::<
            (u64, u64),
            ElfError,
        >(e)),
        n < segments.len() ==> (segments[n] matches Ok(s) ==> s.vaddr + s.memsz > u64::MAX
            ==> extent(segments, lo, hi) == Err::<(u64, u64), ElfError>(ElfError::SpanOverflow)),
    decreases segments.len(),
{
    if n > 0 {
        let s = segments[0]->Ok_0;
        let end = s.vaddr + s.memsz;
        let rest = segments.drop_first();
        assert forall|i: int| 0 <= i < n - 1 implies (#[trigger] rest[i]) is Ok
            && rest[i]->Ok_0.vaddr + rest[i]->Ok_0.memsz <= u64::MAX by {
            assert(rest[i] == segments[i + 1]);
        }
        assert(n < segments.len() ==> rest[n - 1] == segments[n]);
        lemma_extent_fails(
            rest,
            n - 1,
            if s.vaddr < lo {
                s.vaddr
            } else {
                lo
            },
            if end > hi {
                end as u64
            } else {
                hi
            },
        );
    }
}

/// A segment is seen as what it is, and an error as itself.
pub proof fn law_a_segment_is_seen_as_it_is(segment: Segment, e: ElfError)
    ensures
        segment@.vaddr == segment.vaddr,
        segment@.memsz == segment.memsz,
        segment@.rights == segment.rights,
        segment@.file.len() == segment.file@.len(),
        forall|k: int|
            0 <= k < segment.file@.len() ==> #[trigger] segment@.file[k] == segment.file@[k],
        item_view(Ok(segment)) == Ok::<Placed, ElfError>(segment@),
        item_view(Err(e)) == Err::<Placed, ElfError>(e),
{
}

/// A validated executable is the image it was parsed from: it starts where the
/// 64-bit field at 24 says, and its program headers are those of the image.
pub proof fn law_a_parsed_image_is_the_image(image: &[u8], elf: Elf, i: int)
    requires
        call_ensures(Elf::parse, (image,), Ok(elf)),
        0 <= i < elf.loadable().len(),
    ensures
        elf.entry == bytes::le64(image@, 24),
        elf.loadable() == loadable_in(image@),
        elf.loadable()[i] matches Ok(s) ==> exists|j: int|
            {
                let ph = bytes::le64(image@, 32) + #[trigger] (j * bytes::le16(image@, 54));
                &&& 0 <= j < bytes::le16(image@, 56)
                &&& s.vaddr == bytes::le64(image@, ph + 16)
                &&& s.memsz == bytes::le64(image@, ph + 40)
                &&& s.file.len() == bytes::le64(image@, ph + 32)
            },
{
    let j = law_a_segment_is_the_bytes_its_header_names(image@, i);
    let at = j * bytes::le16(image@, 54);
}

/// The pages of a segment hold it, and one fewer would not.
pub proof fn law_a_segment_has_the_pages_it_needs(segment: Segment, pages: u64)
    requires
        call_ensures(Segment::pages, (&segment,), pages),
    ensures
        4096 * pages >= segment.memsz,
        segment.memsz > 0 ==> 4096 * (pages - 1) < segment.memsz,
        segment.memsz == 0 ==> pages == 0,
{
}

/// What a walk gives out next is what its next loadable header asks for: the headers
/// it passes over on the way are not loadable, and the segment carries the bytes of
/// the image from the header's file offset on, as many as its file size. The place
/// of the header in the table is returned.
pub proof fn law_the_next_segment_is_that_of_the_next_header(
    walk: &mut Segments,
    item: Option<Result<Segment, ElfError>>,
) -> (j: int)
    requires
        old(walk).wf(),
        call_ensures(Segments::next, (walk,), item),
    ensures
        ({
            let w = *old(walk);
            let image = w.image@;
            let loadable = |k: int|
                bytes::le32(image, w.phoff + k * w.phentsize) == 1;
            let ph = w.phoff + j * w.phentsize;
            match item {
                None => forall|k: int| w.index <= k < w.phnum ==> !#[trigger] loadable(k),
                Some(result) => {
                    &&& w.index <= j < w.phnum
                    &&& loadable(j)
                    &&& forall|k: int| w.index <= k < j ==> !#[trigger] loadable(k)
                    &&& result matches Ok(s) ==> {
                        let offset = bytes::le64(image, ph + 8);
                        &&& s.vaddr == bytes::le64(image, ph + 16)
                        &&& s.memsz == bytes::le64(image, ph + 40)
                        &&& s.file@.len() == bytes::le64(image, ph + 32)
                        &&& offset + s.file@.len() <= image.len()
                        &&& forall|i: int|
                            0 <= i < s.file@.len() ==> #[trigger] s.file@[i] == image[offset + i]
                        &&& s.rights.read == (bytes::le32(image, ph + 4) & 4 != 0)
                        &&& s.rights.write == (bytes::le32(image, ph + 4) & 2 != 0)
                        &&& s.rights.execute == (bytes::le32(image, ph + 4) & 1 != 0)
                    }
                },
            }
        }),
{
    let w = *old(walk);
    let image = w.image@;
    let loadable = |k: int| bytes::le32(image, w.phoff + k * w.phentsize) == 1;
    let headers = law_a_walk_gives_out_every_loadable_header(
        image,
        w.phoff as int,
        w.phentsize as int,
        w.phnum as int,
        w.index as int,
    );
    match item {
        None => {
            assert forall|k: int| w.index <= k < w.phnum implies !#[trigger] loadable(k) by {
                assert(!headers.contains(k));
            }
            0
        },
        Some(result) => {
            assert(w.remaining()[0] == item_view(result));
            assert(headers.contains(headers[0]));
            assert forall|k: int| w.index <= k < headers[0] implies !#[trigger] loadable(k) by {
                if loadable(k) {
                    assert(headers.contains(k));
                    let at = choose|at: int| 0 <= at < headers.len() && headers[at] == k;
                    assert(headers[0] <= headers[at]);
                }
            }
            headers[0]
        },
    }
}

/// A rejection is explained by what is wrong with the image.
pub proof fn law_a_rejection_says_what_is_wrong(e: ElfError)
    ensures
        e == ElfError::NotElf <==> e.reason() == "not an ELF file"@,
        e == ElfError::NotElf64 <==> e.reason() == "not ELF64 (32-bit image?)"@,
        e == ElfError::NotLittleEndian <==> e.reason() == "not little-endian"@,
        e == ElfError::WrongMachine <==> e.reason()
            == "wrong machine (not x86-64 — aarch64 kernel on this ESP?)"@,
        e == ElfError::WrongType <==> e.reason() == "not ET_EXEC (position-independent image?)"@,
        e == ElfError::TruncatedHeader <==> e.reason() == "truncated ELF header"@,
        e == ElfError::TruncatedProgramHeaders <==> e.reason() == "truncated program headers"@,
        e == ElfError::SegmentOutOfImage <==> e.reason() == "segment lies outside the file"@,
        e == ElfError::FileLargerThanMemory <==> e.reason() == "segment p_filesz > p_memsz"@,
        e == ElfError::UnalignedSegment <==> e.reason() == "segment p_vaddr is not page-aligned"@,
        e == ElfError::NoLoadableSegments <==> e.reason() == "no PT_LOAD segments"@,
        e == ElfError::SpanOverflow <==> e.reason() == "image span overflows the address space"@,
{
    law_every_rejection_has_its_own_explanation(e, ElfError::NotElf);
    law_every_rejection_has_its_own_explanation(e, ElfError::NotElf64);
    law_every_rejection_has_its_own_explanation(e, ElfError::NotLittleEndian);
    law_every_rejection_has_its_own_explanation(e, ElfError::WrongMachine);
    law_every_rejection_has_its_own_explanation(e, ElfError::WrongType);
    law_every_rejection_has_its_own_explanation(e, ElfError::TruncatedHeader);
    law_every_rejection_has_its_own_explanation(e, ElfError::TruncatedProgramHeaders);
    law_every_rejection_has_its_own_explanation(e, ElfError::SegmentOutOfImage);
    law_every_rejection_has_its_own_explanation(e, ElfError::FileLargerThanMemory);
    law_every_rejection_has_its_own_explanation(e, ElfError::UnalignedSegment);
    law_every_rejection_has_its_own_explanation(e, ElfError::NoLoadableSegments);
    law_every_rejection_has_its_own_explanation(e, ElfError::SpanOverflow);
}

} // verus!
