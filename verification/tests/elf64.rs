use staros_pc::elf64::{Elf, ElfError, Rights, Segment, EM_X86_64, ET_EXEC, PAGE_SIZE, PT_LOAD};

const PF_X: u32 = 1;
const PF_W: u32 = 2;
const PF_R: u32 = 4;

/// Everything a walk over the segments gives out.
fn all_segments<'a>(elf: &Elf<'a>) -> Vec<Result<Segment<'a>, ElfError>> {
    let mut walk = elf.segments();
    let mut all = Vec::new();
    while let Some(item) = walk.next() {
        all.push(item);
    }
    all
}

struct Builder {
    entry: u64,
    machine: u16,
    etype: u16,
    class: u8,
    data: u8,
    magic: [u8; 4],
    phentsize: u16,
    phdrs: Vec<(u32, u32, u64, u64, u64, u64)>,
    tail: Vec<u8>,
}

impl Builder {
    fn new() -> Self {
        Self {
            entry: 0xFFFF_FFFF_8000_0000,
            machine: EM_X86_64,
            etype: ET_EXEC,
            class: 2,
            data: 1,
            magic: *b"\x7fELF",
            phentsize: 56,
            phdrs: Vec::new(),
            tail: Vec::new(),
        }
    }

    fn load(mut self, offset: u64, vaddr: u64, filesz: u64, memsz: u64, flags: u32) -> Self {
        self.phdrs.push((PT_LOAD, flags, offset, vaddr, filesz, memsz));
        self
    }

    fn note(mut self, offset: u64, filesz: u64) -> Self {
        self.phdrs.push((4, PF_R, offset, 0, filesz, filesz));
        self
    }

    fn build(self) -> Vec<u8> {
        let phoff = 64u64;
        let mut out = vec![0u8; 64];
        out[0..4].copy_from_slice(&self.magic);
        out[4] = self.class;
        out[5] = self.data;
        out[6] = 1;
        out[16..18].copy_from_slice(&self.etype.to_le_bytes());
        out[18..20].copy_from_slice(&self.machine.to_le_bytes());
        out[20..24].copy_from_slice(&1u32.to_le_bytes());
        out[24..32].copy_from_slice(&self.entry.to_le_bytes());
        out[32..40].copy_from_slice(&phoff.to_le_bytes());
        out[52..54].copy_from_slice(&64u16.to_le_bytes());
        out[54..56].copy_from_slice(&self.phentsize.to_le_bytes());
        out[56..58].copy_from_slice(&(self.phdrs.len() as u16).to_le_bytes());

        for (ty, flags, offset, vaddr, filesz, memsz) in &self.phdrs {
            let mut ph = vec![0u8; 56];
            ph[0..4].copy_from_slice(&ty.to_le_bytes());
            ph[4..8].copy_from_slice(&flags.to_le_bytes());
            ph[8..16].copy_from_slice(&offset.to_le_bytes());
            ph[16..24].copy_from_slice(&vaddr.to_le_bytes());
            ph[24..32].copy_from_slice(&vaddr.to_le_bytes());
            ph[32..40].copy_from_slice(&filesz.to_le_bytes());
            ph[40..48].copy_from_slice(&memsz.to_le_bytes());
            ph[48..56].copy_from_slice(&PAGE_SIZE.to_le_bytes());
            ph.resize(self.phentsize as usize, 0);
            out.extend_from_slice(&ph);
        }
        out.extend_from_slice(&self.tail);
        out
    }
}

fn kernel_like() -> Vec<u8> {
    const BASE: u64 = 0xFFFF_FFFF_8000_0000;
    let mut b = Builder::new()
        .load(0x1000, BASE, 0x1000, 0x1000, PF_R | PF_X)
        .load(0x2000, BASE + 0x1000, 0x1000, 0x1000, PF_R)
        .load(0x3000, BASE + 0x2000, 0x0800, 0x3000, PF_R | PF_W);
    b.tail = vec![0u8; 0x4000 - 64 - 3 * 56];
    let mut img = b.build();
    img[0x1000] = 0xAA;
    img[0x2000] = 0xBB;
    img[0x3000] = 0xCC;
    img
}

#[test]
fn parses_a_kernel_shaped_image() {
    let img = kernel_like();
    let elf = Elf::parse(&img).expect("valid image");
    assert_eq!(elf.entry(), 0xFFFF_FFFF_8000_0000);
    let segs: Vec<Segment<'_>> = all_segments(&elf).into_iter().map(|s| s.unwrap()).collect();
    assert_eq!(segs.len(), 3);
    assert_eq!(segs[0].rights, Rights { read: true, write: false, execute: true });
    assert_eq!(segs[1].rights, Rights { read: true, write: false, execute: false });
    assert_eq!(segs[2].rights, Rights { read: true, write: true, execute: false });
    assert_eq!(segs[0].file[0], 0xAA);
    assert_eq!(segs[1].file[0], 0xBB);
    assert_eq!(segs[2].file[0], 0xCC);
}

#[test]
fn bss_tail_is_memsz_minus_filesz() {
    let img = kernel_like();
    let elf = Elf::parse(&img).unwrap();
    let data = all_segments(&elf)[2].unwrap();
    assert_eq!(data.file.len(), 0x800);
    assert_eq!(data.memsz, 0x3000);
    assert_eq!(data.memsz - data.file.len() as u64, 0x2800);
    assert_eq!(data.pages(), 3);
}

#[test]
fn load_span_covers_every_segment_and_rounds_up() {
    const BASE: u64 = 0xFFFF_FFFF_8000_0000;
    let img = kernel_like();
    let elf = Elf::parse(&img).unwrap();
    let (base, size) = elf.load_span().unwrap();
    assert_eq!(base, BASE);
    assert_eq!(size, 0x5000);
}

#[test]
fn load_span_rounds_a_ragged_tail_up_to_a_page() {
    let mut b = Builder::new().load(64 + 56, 0x1000, 1, 1, PF_R);
    b.tail = vec![0u8; 1];
    let img = b.build();
    let elf = Elf::parse(&img).unwrap();
    assert_eq!(elf.load_span().unwrap(), (0x1000, PAGE_SIZE));
}

#[test]
fn non_load_headers_are_skipped_not_counted() {
    let mut b = Builder::new()
        .note(64 + 2 * 56, 4)
        .load(64 + 2 * 56, 0x1000, 4, 4, PF_R);
    b.tail = vec![0u8; 4];
    let img = b.build();
    let elf = Elf::parse(&img).unwrap();
    assert_eq!(all_segments(&elf).len(), 1);
    assert_eq!(elf.load_span().unwrap(), (0x1000, PAGE_SIZE));
}

#[test]
fn an_image_with_no_load_segments_is_rejected_by_span_not_by_parse() {
    let img = Builder::new().note(64 + 56, 0).build();
    let elf = Elf::parse(&img).expect("header is valid");
    assert_eq!(elf.load_span(), Err(ElfError::NoLoadableSegments));
}

#[test]
fn rejects_a_foreign_machine_by_name() {
    let mut b = Builder::new();
    b.machine = 183;
    let img = b.build();
    assert_eq!(Elf::parse(&img), Err(ElfError::WrongMachine));
}

#[test]
fn rejects_the_wrong_class_endianness_type_and_magic_separately() {
    let mut b = Builder::new();
    b.class = 1;
    let img = b.build();
    assert_eq!(Elf::parse(&img), Err(ElfError::NotElf64));

    let mut b = Builder::new();
    b.data = 2;
    let img = b.build();
    assert_eq!(Elf::parse(&img), Err(ElfError::NotLittleEndian));

    let mut b = Builder::new();
    b.etype = 3;
    let img = b.build();
    assert_eq!(Elf::parse(&img), Err(ElfError::WrongType));

    let mut b = Builder::new();
    b.magic = *b"MZ\x00\x00";
    let img = b.build();
    assert_eq!(Elf::parse(&img), Err(ElfError::NotElf));
}

#[test]
fn truncating_the_header_at_every_length_is_rejected_not_panicked() {
    let img = kernel_like();
    for n in 0..64 {
        assert_eq!(
            Elf::parse(&img[..n]),
            Err(ElfError::TruncatedHeader),
            "length {n} must be rejected as a short header",
        );
    }
}

#[test]
fn truncating_the_program_header_table_is_rejected_at_every_length() {
    let img = kernel_like();
    let table_end = 64 + 3 * 56;
    for n in 64..table_end {
        assert_eq!(
            Elf::parse(&img[..n]),
            Err(ElfError::TruncatedProgramHeaders),
            "length {n} cuts the program-header table",
        );
    }
    let elf = Elf::parse(&img[..table_end]).expect("table is complete");
    assert_eq!(elf.segments().next().unwrap(), Err(ElfError::SegmentOutOfImage));
}

#[test]
fn a_segment_pointing_past_the_file_is_rejected() {
    let img = Builder::new().load(64 + 56, 0x1000, 0x1000, 0x1000, PF_R).build();
    let elf = Elf::parse(&img).unwrap();
    assert_eq!(elf.segments().next().unwrap(), Err(ElfError::SegmentOutOfImage));
    assert_eq!(elf.load_span(), Err(ElfError::SegmentOutOfImage));
}

#[test]
fn a_segment_offset_that_overflows_usize_is_rejected() {
    let img = Builder::new().load(u64::MAX - 8, 0x1000, 16, 16, PF_R).build();
    let elf = Elf::parse(&img).unwrap();
    assert_eq!(elf.segments().next().unwrap(), Err(ElfError::SegmentOutOfImage));
}

#[test]
fn filesz_larger_than_memsz_is_rejected() {
    let mut b = Builder::new().load(64 + 56, 0x1000, 8, 4, PF_R);
    b.tail = vec![0u8; 8];
    let img = b.build();
    let elf = Elf::parse(&img).unwrap();
    assert_eq!(elf.segments().next().unwrap(), Err(ElfError::FileLargerThanMemory));
}

#[test]
fn an_unaligned_segment_is_refused_rather_than_rounded() {
    let mut b = Builder::new().load(64 + 56, 0x1001, 4, 4, PF_R);
    b.tail = vec![0u8; 4];
    let img = b.build();
    let elf = Elf::parse(&img).unwrap();
    assert_eq!(elf.segments().next().unwrap(), Err(ElfError::UnalignedSegment));
}

#[test]
fn a_phentsize_below_the_real_header_size_is_rejected() {
    let mut b = Builder::new().load(64 + 56, 0x1000, 0, 0, PF_R);
    b.phentsize = 48;
    let img = b.build();
    assert_eq!(Elf::parse(&img), Err(ElfError::TruncatedProgramHeaders));
}

#[test]
fn a_larger_phentsize_still_parses_padding_is_legal() {
    let mut b = Builder::new().load(64 + 72, 0x1000, 4, 4, PF_R | PF_X);
    b.phentsize = 72;
    b.tail = vec![0u8; 4];
    let img = b.build();
    let elf = Elf::parse(&img).unwrap();
    let seg = elf.segments().next().unwrap().unwrap();
    assert_eq!(seg.vaddr, 0x1000);
    assert!(seg.rights.execute);
}

#[test]
fn a_segment_reaching_past_the_address_space_is_a_span_overflow() {
    let img = Builder::new()
        .load(64 + 56, 0xFFFF_FFFF_FFFF_F000, 0, u64::MAX, PF_R)
        .build();
    let elf = Elf::parse(&img).unwrap();
    assert_eq!(elf.load_span(), Err(ElfError::SpanOverflow));
}

#[test]
fn wx_segments_are_detectable_so_the_loader_can_refuse_them() {
    assert!(Rights::from_flags(PF_R | PF_W | PF_X).is_wx());
    assert!(!Rights::from_flags(PF_R | PF_X).is_wx());
    assert!(!Rights::from_flags(PF_R | PF_W).is_wx());
}

#[test]
fn every_error_has_a_distinct_printable_reason() {
    let all = [
        ElfError::NotElf,
        ElfError::NotElf64,
        ElfError::NotLittleEndian,
        ElfError::WrongMachine,
        ElfError::WrongType,
        ElfError::TruncatedHeader,
        ElfError::TruncatedProgramHeaders,
        ElfError::SegmentOutOfImage,
        ElfError::FileLargerThanMemory,
        ElfError::UnalignedSegment,
        ElfError::NoLoadableSegments,
        ElfError::SpanOverflow,
    ];
    for (i, a) in all.iter().enumerate() {
        assert!(!a.as_str().is_empty());
        for b in &all[i + 1..] {
            assert_ne!(a.as_str(), b.as_str(), "two errors share a message");
        }
    }
}

#[test]
fn a_walk_goes_on_after_a_malformed_segment() {
    let mut b = Builder::new()
        .load(64 + 2 * 56, 0x1001, 4, 4, PF_R)
        .load(64 + 2 * 56, 0x2000, 4, 4, PF_R);
    b.tail = vec![9u8; 4];
    let img = b.build();
    let elf = Elf::parse(&img).unwrap();
    let all = all_segments(&elf);
    assert_eq!(all[0], Err(ElfError::UnalignedSegment));
    assert_eq!(all[1].unwrap().file, &[9u8; 4]);
    assert_eq!(elf.load_span(), Err(ElfError::UnalignedSegment));
    let mut walk = elf.segments();
    while walk.next().is_some() {}
    assert_eq!(walk.next(), None);
}

#[test]
fn a_span_is_counted_from_the_lowest_segment() {
    let img = Builder::new()
        .load(64, 0x9000, 0, 0x10, PF_R)
        .load(64, 0x4000, 0, 0x1001, PF_R)
        .build();
    assert_eq!(Elf::parse(&img).unwrap().load_span(), Ok((0x4000, 0x6000)));
}

#[test]
fn a_last_page_that_cannot_be_rounded_up_is_a_span_overflow() {
    let img = Builder::new().load(64, 0xFFFF_FFFF_FFFF_F000, 0, 0xFFF, PF_R).build();
    assert_eq!(Elf::parse(&img).unwrap().load_span(), Err(ElfError::SpanOverflow));
}

#[test]
fn the_reasons_are_what_is_printed() {
    assert_eq!(ElfError::NotElf.as_str(), "not an ELF file");
    assert_eq!(
        ElfError::WrongMachine.as_str(),
        "wrong machine (not x86-64 \u{2014} aarch64 kernel on this ESP?)"
    );
}

#[test]
fn unknown_flag_bits_carry_no_rights() {
    assert_eq!(
        Rights::from_flags(0xFFFF_FFF8),
        Rights { read: false, write: false, execute: false }
    );
}
