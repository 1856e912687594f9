//! Turning the firmware's memory map into the kernel's.
//!
//! Two things go wrong here on real machines, and both are silent: walking the
//! map in steps of the structure's own size rather than the firmware's, and
//! trusting the names of the memory types. Boot-services memory is nominally free
//! once the firmware is gone, and firmware that keeps using it is common enough
//! that it stays reserved here.
use crate::bootinfo;
use crate::bytes;
use crate::bootinfo::{MemoryKind, MemoryRegion};
use crate::loader::efi::{memory_type, MemoryDescriptor, DESCRIPTOR_LEN};
use vstd::prelude::*;

verus! {

/// Bytes per page of the firmware, whatever page size the processor uses.
pub const EFI_PAGE_SIZE: u64 = 4096;

/// Why a conversion failed.
#[derive(Clone, Copy, Debug, PartialEq, Eq, Structural)]
pub enum ConvertError {
    /// The step between descriptors is smaller than a descriptor.
    BadDescriptorSize,
    /// The output slice cannot hold the regions. Carries how many are needed, so
    /// the caller can report the shortfall rather than guess.
    TooManyRegions(usize),
}

/// What a memory type means to the kernel.
pub open spec fn kind_of(ty: u32) -> MemoryKind {
    if ty == memory_type::CONVENTIONAL {
        MemoryKind::Usable
    } else if ty == memory_type::ACPI_RECLAIM {
        MemoryKind::AcpiReclaimable
    } else if ty == memory_type::ACPI_NVS {
        MemoryKind::AcpiNvs
    } else if ty == memory_type::UNUSABLE {
        MemoryKind::BadMemory
    } else if ty == memory_type::LOADER_CODE || ty == memory_type::LOADER_DATA {
        MemoryKind::LoaderReclaimable
    } else {
        MemoryKind::Reserved
    }
}

/// What a memory type means to the kernel.
///
/// Conservative by construction: only conventional memory becomes usable, and
/// everything unrecognised is reserved, which costs memory and never costs
/// correctness.
#[must_use]
pub fn classify(ty: u32) -> (kind: MemoryKind)
    ensures
        kind == kind_of(ty),
{
    if ty == memory_type::CONVENTIONAL {
        MemoryKind::Usable
    } else if ty == memory_type::ACPI_RECLAIM {
        MemoryKind::AcpiReclaimable
    } else if ty == memory_type::ACPI_NVS {
        MemoryKind::AcpiNvs
    } else if ty == memory_type::UNUSABLE {
        MemoryKind::BadMemory
    } else if ty == memory_type::LOADER_CODE || ty == memory_type::LOADER_DATA {
        MemoryKind::LoaderReclaimable
    } else {
        MemoryKind::Reserved
    }
}

/// Only conventional memory is ever handed to the frame allocator at boot.
pub proof fn law_only_conventional_memory_is_usable(ty: u32)
    ensures
        kind_of(ty) == MemoryKind::Usable <==> ty == memory_type::CONVENTIONAL,
{
}

/// How many whole descriptors a map holds.
pub open spec fn descriptor_count(map: Seq<u8>, stride: int) -> nat {
    (map.len() / stride as nat) as nat
}

/// The region that descriptor `k` describes.
pub open spec fn described(map: Seq<u8>, stride: int, k: int) -> MemoryRegion {
    let d = MemoryDescriptor::at(map, k * stride);
    MemoryRegion {
        start: d.phys_start,
        len: bootinfo::saturated(d.pages * EFI_PAGE_SIZE),
        kind: kind_of(d.ty),
    }
}

/// Whether two regions of one kind follow each other without a gap.
pub open spec fn continues(before: MemoryRegion, after: MemoryRegion) -> bool {
    before.kind == after.kind && before.limit() == after.start
}

/// One region for two that follow each other.
pub open spec fn joined(before: MemoryRegion, after: MemoryRegion) -> MemoryRegion {
    MemoryRegion { len: bootinfo::saturated(before.len + after.len), ..before }
}

/// Regions with one more at their end, which continues the last one if it can.
/// Empty regions are dropped.
pub open spec fn appended(regions: Seq<MemoryRegion>, r: MemoryRegion) -> Seq<MemoryRegion> {
    if r.len == 0 {
        regions
    } else if regions.len() > 0 && continues(regions.last(), r) {
        regions.update(regions.len() - 1, joined(regions.last(), r))
    } else {
        regions.push(r)
    }
}

/// The regions of the first `n` descriptors.
pub open spec fn regions_of(map: Seq<u8>, stride: int, n: nat) -> Seq<MemoryRegion>
    decreases n,
{
    if n == 0 {
        Seq::empty()
    } else {
        appended(regions_of(map, stride, (n - 1) as nat), described(map, stride, n - 1))
    }
}

/// How many of the first `n` descriptors are converted before one needs a region
/// there is no room for.
pub open spec fn fitting(map: Seq<u8>, stride: int, room: nat, n: nat) -> nat
    decreases n,
{
    if n == 0 {
        0
    } else {
        let before = fitting(map, stride, room, (n - 1) as nat);
        if before == n - 1 && regions_of(map, stride, n).len() <= room {
            n
        } else {
            before
        }
    }
}

proof fn lemma_fitting(map: Seq<u8>, stride: int, room: nat, n: nat)
    ensures
        fitting(map, stride, room, n) <= n,
    decreases n,
{
    if n > 0 {
        lemma_fitting(map, stride, room, (n - 1) as nat);
    }
}

/// Once a descriptor does not fit, none after it is converted.
proof fn lemma_fitting_stops(map: Seq<u8>, stride: int, room: nat, k: nat, n: nat)
    requires
        k < n,
        fitting(map, stride, room, k) == k,
        regions_of(map, stride, k + 1).len() > room,
    ensures
        fitting(map, stride, room, n) == k,
    decreases n,
{
    if n > k + 1 {
        lemma_fitting_stops(map, stride, room, k, (n - 1) as nat);
    }
}

proof fn lemma_whole_descriptors(len: int, stride: int, k: int)
    by (nonlinear_arith)
    requires
        stride > 0,
        0 <= k,
        0 <= len,
    ensures
        k < len / stride <==> k * stride + stride <= len,
        (len - k * stride) / stride == len / stride - k,
        k <= len / stride ==> 0 <= k * stride <= len,
{
    let q = len / stride;
    assert(q * stride <= len < (q + 1) * stride);
    if k < q {
        assert((k + 1) * stride <= q * stride);
    } else {
        assert(k * stride >= q * stride);
    }
    assert(len - k * stride == (q - k) * stride + len % stride);
}

/// How many bytes some pages are, saturating instead of wrapping.
fn bytes_of_pages(pages: u64) -> (len: u64)
    ensures
        len == bootinfo::saturated(pages * EFI_PAGE_SIZE),
{
    match pages.checked_mul(EFI_PAGE_SIZE) {
        Some(len) => len,
        None => u64::MAX,
    }
}

/// How many regions a map has, wherever there is room for them.
fn regions_needed(map: &[u8], descriptor_size: usize) -> (needed: usize)
    requires
        descriptor_size >= DESCRIPTOR_LEN,
    ensures
        needed == regions_of(
            map@,
            descriptor_size as int,
            descriptor_count(map@, descriptor_size as int),
        ).len(),
{
    let ghost stride = descriptor_size as int;
    let ghost count = descriptor_count(map@, stride);
    let mut needed: usize = 0;
    let mut last = MemoryRegion::new(0, 0, MemoryKind::Reserved);
    let mut offset: usize = 0;
    let ghost mut k: nat = 0;
    while descriptor_size <= map.len() - offset
        invariant
            descriptor_size >= DESCRIPTOR_LEN,
            stride == descriptor_size,
            count == descriptor_count(map@, stride),
            k <= count,
            offset == k * stride,
            offset <= map.len(),
            needed == regions_of(map@, stride, k).len(),
            needed > 0 ==> last == regions_of(map@, stride, k).last(),
            needed <= k <= offset,
        decreases map.len() - offset,
    {
        let ghost before = regions_of(map@, stride, k);
        let Some(d) = MemoryDescriptor::read(map, offset) else {
            return needed;
        };
        proof {
            lemma_whole_descriptors(map@.len() as int, stride, k as int);
            lemma_whole_descriptors(map@.len() as int, stride, (k + 1) as int);
            assert((k + 1) * stride == k * stride + stride) by (nonlinear_arith);
            assert(regions_of(map@, stride, k + 1) == appended(
                before,
                described(map@, stride, k as int),
            ));
            k = k + 1;
        }
        offset = offset + descriptor_size;
        let len = bytes_of_pages(d.pages);
        if len == 0 {
            continue;
        }
        let kind = classify(d.ty);
        if needed > 0 && last.kind == kind && last.end() == d.phys_start {
            last = MemoryRegion::new(last.start, last.len.saturating_add(len), kind);
        } else {
            last = MemoryRegion::new(d.phys_start, len, kind);
            needed = needed + 1;
        }
    }
    proof {
        lemma_whole_descriptors(map@.len() as int, stride, k as int);
    }
    needed
}

/// Walk a raw memory map and write the kernel's view of it into `out`.
///
/// `descriptor_size` comes from the firmware and is the only correct step.
/// Adjacent entries of the same kind become one region. A trailing partial
/// descriptor is ignored.
///
/// Returns how many regions were written.
///
/// # Errors
/// [`ConvertError::BadDescriptorSize`] for a step that cannot hold a descriptor,
/// [`ConvertError::TooManyRegions`] if `out` is too small.
pub fn convert(map: &[u8], descriptor_size: usize, out: &mut [MemoryRegion]) -> (result: Result<
    usize,
    ConvertError,
>)
    ensures
        ({
            let stride = descriptor_size as int;
            let room = old(out)@.len();
            let count = descriptor_count(map@, stride);
            let done = fitting(map@, stride, room, count);
            let regions = regions_of(map@, stride, done);
            if descriptor_size < DESCRIPTOR_LEN {
                &&& result == Err::<usize, ConvertError>(ConvertError::BadDescriptorSize)
                &&& final(out)@ == old(out)@
            } else {
                &&& match result {
                    Ok(n) => done == count && n == regions.len(),
                    Err(ConvertError::TooManyRegions(needed)) => {
                        &&& done < count
                        &&& needed == regions_of(map@, stride, count).len()
                    },
                    Err(ConvertError::BadDescriptorSize) => false,
                }
                &&& final(out)@ == regions + old(out)@.skip(regions.len() as int)
            }
        }),
{
    if descriptor_size < DESCRIPTOR_LEN {
        return Err(ConvertError::BadDescriptorSize);
    }
    let ghost stride = descriptor_size as int;
    let ghost room = out@.len();
    let ghost count = descriptor_count(map@, stride);
    let mut n: usize = 0;
    let mut offset: usize = 0;
    let ghost mut k: nat = 0;
    while descriptor_size <= map.len() - offset
        invariant
            descriptor_size >= DESCRIPTOR_LEN,
            stride == descriptor_size,
            room == old(out)@.len(),
            room == out.len(),
            count == descriptor_count(map@, stride),
            k <= count,
            offset == k * stride,
            offset <= map.len(),
            fitting(map@, stride, room, k) == k,
            n == regions_of(map@, stride, k).len(),
            n <= room,
            n <= k,
            k <= offset,
            out@ =~= regions_of(map@, stride, k) + old(out)@.skip(n as int),
        decreases map.len() - offset,
    {
        let ghost before = regions_of(map@, stride, k);
        let ghost r = described(map@, stride, k as int);
        let Some(d) = MemoryDescriptor::read(map, offset) else {
            return Err(ConvertError::BadDescriptorSize);
        };
        proof {
            lemma_whole_descriptors(map@.len() as int, stride, k as int);
            lemma_whole_descriptors(map@.len() as int, stride, (k + 1) as int);
            assert((k + 1) * stride == k * stride + stride) by (nonlinear_arith);
            assert(regions_of(map@, stride, k + 1) == appended(before, r));
            k = k + 1;
        }
        offset = offset + descriptor_size;
        let len = bytes_of_pages(d.pages);
        if len == 0 {
            continue;
        }
        let kind = classify(d.ty);
        if n > 0 {
            let prev = out[n - 1];
            if prev.kind == kind && prev.end() == d.phys_start {
                out[n - 1] = MemoryRegion::new(prev.start, prev.len.saturating_add(len), kind);
                continue;
            }
        }
        if n == out.len() {
            proof {
                lemma_fitting_stops(map@, stride, room, (k - 1) as nat, count);
            }
            return Err(ConvertError::TooManyRegions(regions_needed(map, descriptor_size)));
        }
        out[n] = MemoryRegion::new(d.phys_start, len, kind);
        n = n + 1;
    }
    proof {
        lemma_whole_descriptors(map@.len() as int, stride, k as int);
    }
    Ok(n)
}

/// Whether a descriptor counts: all of them do, or all but the reserved ones.
pub open spec fn counts(r: MemoryRegion, ram_only: bool) -> bool {
    ram_only ==> r.kind != MemoryKind::Reserved
}

/// The highest end among the first `n` descriptors that count, or 0.
pub open spec fn highest_of(map: Seq<u8>, stride: int, ram_only: bool, n: nat) -> u64
    decreases n,
{
    if n == 0 {
        0
    } else {
        let below = highest_of(map, stride, ram_only, (n - 1) as nat);
        let r = described(map, stride, n - 1);
        if counts(r, ram_only) && r.limit() > below {
            r.limit()
        } else {
            below
        }
    }
}

/// The least multiple of `align` that is not below `n`.
pub open spec fn rounded_up(n: int, align: int) -> int {
    (n + align - 1) / align * align
}

/// What [`highest_address`] and [`highest_ram_address`] report. There is no multiple
/// of zero to round up to, which comes to the last address of all, as does one that
/// does not fit.
pub open spec fn extent_of(
    map: Seq<u8>,
    stride: int,
    align: int,
    ram_only: bool,
) -> Result<u64, ConvertError> {
    if stride < DESCRIPTOR_LEN {
        Err(ConvertError::BadDescriptorSize)
    } else {
        let hi = highest_of(map, stride, ram_only, descriptor_count(map, stride));
        if align == 0 {
            Ok(u64::MAX)
        } else {
            Ok(bootinfo::saturated(rounded_up(hi as int, align)))
        }
    }
}

proof fn lemma_rounded_up(n: int, align: int)
    by (nonlinear_arith)
    requires
        align > 0,
        n >= 0,
    ensures
        n % align == 0 ==> rounded_up(n, align) == n,
        n % align != 0 ==> rounded_up(n, align) == n + (align - n % align),
{
    let q = n / align;
    let r = n % align;
    assert(n == q * align + r);
    assert(0 <= r < align);
    if r == 0 {
        assert((n + align - 1) / align == q);
    } else {
        assert(n + align - 1 == (q + 1) * align + (r - 1));
        assert((n + align - 1) / align == q + 1);
        assert((q + 1) * align == q * align + align);
    }
}

/// Walk a raw memory map for the highest end among the descriptors that count,
/// rounded up to `align`.
fn extent(map: &[u8], descriptor_size: usize, align: u64, ram_only: bool) -> (result: Result<
    u64,
    ConvertError,
>)
    ensures
        result == extent_of(map@, descriptor_size as int, align as int, ram_only),
{
    if descriptor_size < DESCRIPTOR_LEN {
        return Err(ConvertError::BadDescriptorSize);
    }
    let ghost stride = descriptor_size as int;
    let mut hi: u64 = 0;
    let mut offset: usize = 0;
    let ghost mut k: nat = 0;
    while descriptor_size <= map.len() - offset
        invariant
            descriptor_size >= DESCRIPTOR_LEN,
            stride == descriptor_size,
            k <= descriptor_count(map@, stride),
            offset == k * stride,
            offset <= map.len(),
            hi == highest_of(map@, stride, ram_only, k),
        decreases map.len() - offset,
    {
        let Some(d) = MemoryDescriptor::read(map, offset) else {
            return Err(ConvertError::BadDescriptorSize);
        };
        proof {
            lemma_whole_descriptors(map@.len() as int, stride, k as int);
            lemma_whole_descriptors(map@.len() as int, stride, (k + 1) as int);
            assert((k + 1) * stride == k * stride + stride) by (nonlinear_arith);
            k = k + 1;
        }
        offset = offset + descriptor_size;
        let end = d.phys_start.saturating_add(bytes_of_pages(d.pages));
        let skip = ram_only && classify(d.ty) == MemoryKind::Reserved;
        if !skip && end > hi {
            hi = end;
        }
    }
    proof {
        lemma_whole_descriptors(map@.len() as int, stride, k as int);
        if align > 0 {
            lemma_rounded_up(hi as int, align as int);
        }
    }
    if align == 0 {
        return Ok(u64::MAX);
    }
    let over = hi % align;
    if over == 0 {
        return Ok(hi);
    }
    match hi.checked_add(align - over) {
        Some(up) => Ok(up),
        None => Ok(u64::MAX),
    }
}

/// The highest physical address any descriptor reaches, rounded up to `align`.
///
/// Every entry counts, device apertures included. Saturating: a descriptor that
/// claims the very top of the address space must not come out as a small number.
///
/// # Errors
/// [`ConvertError::BadDescriptorSize`] for an impossible step.
pub fn highest_address(map: &[u8], descriptor_size: usize, align: u64) -> (result: Result<
    u64,
    ConvertError,
>)
    ensures
        result == extent_of(map@, descriptor_size as int, align as int, false),
{
    extent(map, descriptor_size, align, false)
}

/// The highest physical address reached by anything that is actually memory,
/// rounded up to `align`.
///
/// This is how far the identity and linear maps have to span. Reserved entries do
/// not count: they may be device apertures, which can lie far above all memory.
///
/// # Errors
/// [`ConvertError::BadDescriptorSize`] for an impossible step.
pub fn highest_ram_address(map: &[u8], descriptor_size: usize, align: u64) -> (result: Result<
    u64,
    ConvertError,
>)
    ensures
        result == extent_of(map@, descriptor_size as int, align as int, true),
{
    extent(map, descriptor_size, align, true)
}

proof fn lemma_regions_grow(map: Seq<u8>, stride: int, k: nat, n: nat)
    requires
        k <= n,
    ensures
        regions_of(map, stride, k).len() <= regions_of(map, stride, n).len()
            <= regions_of(map, stride, k).len() + (n - k),
    decreases n,
{
    if n > k {
        lemma_regions_grow(map, stride, k, (n - 1) as nat);
    }
}

/// A map is converted whole exactly when there is room for all its regions.
pub proof fn law_a_map_is_converted_when_its_regions_fit(
    map: Seq<u8>,
    stride: int,
    room: nat,
    n: nat,
)
    ensures
        fitting(map, stride, room, n) == n <==> regions_of(map, stride, n).len() <= room,
    decreases n,
{
    if n > 0 {
        law_a_map_is_converted_when_its_regions_fit(map, stride, room, (n - 1) as nat);
        lemma_regions_grow(map, stride, (n - 1) as nat, n);
        lemma_fitting(map, stride, room, (n - 1) as nat);
    }
}

/// The number a failed conversion reports is the real requirement: with that much
/// room the same map is converted whole, and with less it is not. It is never more
/// than the number of descriptors.
pub proof fn law_the_reported_room_is_what_is_needed(
    map: Seq<u8>,
    stride: int,
    room: nat,
    count: nat,
)
    ensures
        fitting(map, stride, room, count) == count <==> room >= regions_of(
            map,
            stride,
            count,
        ).len(),
        regions_of(map, stride, count).len() <= count,
{
    law_a_map_is_converted_when_its_regions_fit(map, stride, room, count);
    lemma_regions_grow(map, stride, 0, count);
}

/// Regions come out fully joined and never empty: no region continues the one
/// before it.
pub proof fn law_regions_are_fully_joined(map: Seq<u8>, stride: int, n: nat)
    ensures
        forall|i: int|
            0 <= i < regions_of(map, stride, n).len() ==> (#[trigger] regions_of(
                map,
                stride,
                n,
            )[i]).len > 0,
        forall|i: int, j: int|
            0 <= i && j == i + 1 && j < regions_of(map, stride, n).len() ==> !continues(
                #[trigger] regions_of(map, stride, n)[i],
                #[trigger] regions_of(map, stride, n)[j],
            ),
    decreases n,
{
    if n > 0 {
        law_regions_are_fully_joined(map, stride, (n - 1) as nat);
    }
}

/// Whether a region is of this kind and holds `a`.
pub open spec fn region_holds(r: MemoryRegion, kind: MemoryKind, a: u64) -> bool {
    r.kind == kind && r.start <= a < r.limit()
}

/// Whether one of the regions is of this kind and holds `a`.
pub open spec fn holds(regions: Seq<MemoryRegion>, kind: MemoryKind, a: u64) -> bool {
    exists|i: int| 0 <= i < regions.len() && #[trigger] region_holds(regions[i], kind, a)
}

/// Whether one of the first `n` descriptors is of this kind and holds `a`.
pub open spec fn described_as(
    map: Seq<u8>,
    stride: int,
    n: nat,
    kind: MemoryKind,
    a: u64,
) -> bool {
    exists|k: int| 0 <= k < n && #[trigger] region_holds(described(map, stride, k), kind, a)
}

proof fn lemma_appended_holds(
    before: Seq<MemoryRegion>,
    r: MemoryRegion,
    kind: MemoryKind,
    a: u64,
)
    ensures
        holds(appended(before, r), kind, a) <==> holds(before, kind, a) || region_holds(
            r,
            kind,
            a,
        ),
{
    let after = appended(before, r);
    let last = before.len() - 1;
    if holds(after, kind, a) {
        let i = choose|i: int|
            0 <= i < after.len() && #[trigger] region_holds(after[i], kind, a);
        if i < before.len() && !region_holds(before[i], kind, a) {
            assert(after[i] == joined(before[i], r));
        }
    }
    if holds(before, kind, a) {
        let i = choose|i: int|
            0 <= i < before.len() && #[trigger] region_holds(before[i], kind, a);
        assert(region_holds(after[i], kind, a));
    }
    if region_holds(r, kind, a) {
        assert(region_holds(after[after.len() - 1], kind, a));
    }
}

/// The conversion neither loses nor invents memory: an address is in a region of
/// some kind exactly when a descriptor of that kind holds it.
pub proof fn law_conversion_keeps_every_address(
    map: Seq<u8>,
    stride: int,
    n: nat,
    kind: MemoryKind,
    a: u64,
)
    ensures
        holds(regions_of(map, stride, n), kind, a) <==> described_as(map, stride, n, kind, a),
    decreases n,
{
    if n > 0 {
        let m = (n - 1) as nat;
        let r = described(map, stride, n - 1);
        law_conversion_keeps_every_address(map, stride, m, kind, a);
        lemma_appended_holds(regions_of(map, stride, m), r, kind, a);
        assert(described_as(map, stride, n, kind, a) <==> described_as(map, stride, m, kind, a)
            || region_holds(r, kind, a)) by {
            if described_as(map, stride, m, kind, a) {
                let k = choose|k: int|
                    0 <= k < m && #[trigger] region_holds(described(map, stride, k), kind, a);
                assert(region_holds(described(map, stride, k), kind, a));
            }
        }
    }
}

/// The reported extent is a bound: no descriptor that counts reaches past it.
pub proof fn law_the_extent_covers_every_descriptor(
    map: Seq<u8>,
    stride: int,
    align: int,
    ram_only: bool,
    k: int,
)
    requires
        align >= 0,
        0 <= k < descriptor_count(map, stride),
        ram_only ==> described(map, stride, k).kind != MemoryKind::Reserved,
    ensures
        extent_of(map, stride, align, ram_only) matches Ok(hi) ==> described(
            map,
            stride,
            k,
        ).limit() <= hi,
{
    let n = descriptor_count(map, stride);
    lemma_highest(map, stride, ram_only, n, k);
    if align > 0 {
        lemma_rounded_up(highest_of(map, stride, ram_only, n) as int, align);
        vstd::arithmetic::div_mod::lemma_mod_bound(
            highest_of(map, stride, ram_only, n) as int,
            align,
        );
    }
}

proof fn lemma_highest(map: Seq<u8>, stride: int, ram_only: bool, n: nat, k: int)
    requires
        0 <= k < n,
        counts(described(map, stride, k), ram_only),
    ensures
        described(map, stride, k).limit() <= highest_of(map, stride, ram_only, n),
    decreases n,
{
    if k < n - 1 {
        lemma_highest(map, stride, ram_only, (n - 1) as nat, k);
    }
}

/// Every memory type has one meaning. The loader's own memory can be reclaimed, as
/// can that of the firmware tables; storage that must survive and memory that is
/// bad are told apart from the rest; and whatever else there is, boot-services
/// code and data included, is reserved.
pub proof fn law_each_memory_type_has_its_meaning(ty: u32)
    ensures
        kind_of(ty) == MemoryKind::Usable <==> ty == 7,
        kind_of(ty) == MemoryKind::LoaderReclaimable <==> ty == memory_type::LOADER_CODE || ty
            == memory_type::LOADER_DATA,
        kind_of(ty) == MemoryKind::AcpiReclaimable <==> ty == memory_type::ACPI_RECLAIM,
        kind_of(ty) == MemoryKind::AcpiNvs <==> ty == memory_type::ACPI_NVS,
        kind_of(ty) == MemoryKind::BadMemory <==> ty == memory_type::UNUSABLE,
        kind_of(ty) == MemoryKind::Reserved <==> !(ty == 1 || ty == 2 || 7 <= ty <= 10),
        ty == memory_type::BOOT_SERVICES_CODE || ty == memory_type::BOOT_SERVICES_DATA
            ==> kind_of(ty) == MemoryKind::Reserved,
        memory_type::LOADER_CODE == 1 && memory_type::LOADER_DATA == 2,
        memory_type::BOOT_SERVICES_CODE == 3 && memory_type::BOOT_SERVICES_DATA == 4,
        memory_type::UNUSABLE == 8 && memory_type::ACPI_RECLAIM == 9 && memory_type::ACPI_NVS
            == 10,
{
}

/// The region of a descriptor starts at its physical base, is its pages long, and
/// is of the kind that its type means. Descriptors lie one step apart.
pub proof fn law_a_descriptor_is_the_region_it_describes(map: Seq<u8>, stride: int, k: int)
    ensures
        ({
            let at = k * stride;
            let r = described(map, stride, k);
            &&& r.start == bytes::le64(map, at + 8)
            &&& r.kind == kind_of(bytes::le32(map, at))
            &&& if bytes::le64(map, at + 24) * 4096 <= u64::MAX {
                r.len == bytes::le64(map, at + 24) * 4096
            } else {
                r.len == u64::MAX
            }
        }),
{
}

/// The descriptors of a map are all that lie in it whole.
pub proof fn law_only_a_partial_descriptor_is_left_out(map: Seq<u8>, stride: int)
    requires
        stride > 0,
    ensures
        descriptor_count(map, stride) * stride <= map.len() < (descriptor_count(map, stride) + 1)
            * stride,
{
    lemma_whole_descriptors(
        map.len() as int,
        stride,
        descriptor_count(map, stride) as int,
    );
    let n = descriptor_count(map, stride) as int;
    assert((n + 1) * stride == n * stride + stride) by (nonlinear_arith);
}

/// One descriptor more changes the regions in one of three ways. An empty one
/// changes nothing. One of the kind of the last region that starts where that ends
/// makes it longer by its own length. Any other becomes a region of its own behind
/// those before it, which stay as they were.
pub proof fn law_a_descriptor_extends_or_follows(map: Seq<u8>, stride: int, n: nat)
    ensures
        regions_of(map, stride, 0).len() == 0,
        ({
            let before = regions_of(map, stride, n);
            let after = regions_of(map, stride, n + 1);
            let last = before.last();
            let r = described(map, stride, n as int);
            if r.len == 0 {
                after == before
            } else if before.len() > 0 && last.kind == r.kind && (last.start + last.len == r.start
                || last.start + last.len > u64::MAX && r.start == u64::MAX) {
                &&& after.len() == before.len()
                &&& after.drop_last() == before.drop_last()
                &&& after.last().start == last.start
                &&& after.last().kind == last.kind
                &&& if last.len + r.len <= u64::MAX {
                    after.last().len == last.len + r.len
                } else {
                    after.last().len == u64::MAX
                }
            } else {
                after.len() == before.len() + 1 && after.drop_last() == before && after.last() == r
            }
        }),
{
    let before = regions_of(map, stride, n);
    let after = regions_of(map, stride, n + 1);
    let r = described(map, stride, n as int);
    assert(after == appended(before, r));
    if r.len > 0 {
        if before.len() > 0 && continues(before.last(), r) {
            assert(after.drop_last() =~= before.drop_last());
        } else {
            assert(after.drop_last() =~= before);
        }
    }
}

/// A conversion stops where the room ends and not before: the regions of what was
/// converted fit, and those of one descriptor more would not.
pub proof fn law_a_conversion_goes_as_far_as_there_is_room(
    map: Seq<u8>,
    stride: int,
    room: nat,
    n: nat,
)
    ensures
        ({
            let done = fitting(map, stride, room, n);
            &&& done <= n
            &&& regions_of(map, stride, done).len() <= room
            &&& done < n ==> regions_of(map, stride, done + 1).len() > room
        }),
    decreases n,
{
    if n > 0 {
        law_a_conversion_goes_as_far_as_there_is_room(map, stride, room, (n - 1) as nat);
    }
}

/// The reported extent is no more than is needed: it is a multiple of the
/// alignment, or the last address if there is none that high, and a descriptor
/// that counts ends less than one alignment below it. With nothing that counts it
/// is zero. A step too short is refused, and an alignment of zero gives the last
/// address.
pub proof fn law_the_extent_ends_at_a_descriptor(
    map: Seq<u8>,
    stride: int,
    align: int,
    ram_only: bool,
)
    requires
        align >= 0,
    ensures
        stride < 40 ==> extent_of(map, stride, align, ram_only) == Err::<u64, ConvertError>(
            ConvertError::BadDescriptorSize,
        ),
        stride >= 40 ==> extent_of(map, stride, align, ram_only) is Ok,
        stride >= 40 && align == 0 ==> extent_of(map, stride, align, ram_only) == Ok::<
            u64,
            ConvertError,
        >(u64::MAX),
        stride >= 40 && align > 0 ==> {
            let hi = extent_of(map, stride, align, ram_only)->Ok_0;
            &&& hi == u64::MAX || hi as int % align == 0
            &&& hi == 0 || exists|k: int|
                {
                    &&& 0 <= k < descriptor_count(map, stride)
                    &&& ram_only ==> (#[trigger] described(map, stride, k)).kind
                        != MemoryKind::Reserved
                    &&& described(map, stride, k).limit() > hi - align
                }
        },
{
    if stride >= DESCRIPTOR_LEN && align > 0 {
        let n = descriptor_count(map, stride);
        let top = highest_of(map, stride, ram_only, n) as int;
        lemma_rounded_up(top, align);
        vstd::arithmetic::div_mod::lemma_mod_bound(top, align);
        lemma_rounded_is_multiple(top, align);
        lemma_highest_is_reached(map, stride, ram_only, n);
        if top > 0 {
            let k = choose|k: int|
                {
                    &&& 0 <= k < n
                    &&& counts(#[trigger] described(map, stride, k), ram_only)
                    &&& described(map, stride, k).limit() == top
                };
            assert(described(map, stride, k).limit() == top);
        }
    }
}

proof fn lemma_rounded_is_multiple(n: int, align: int)
    requires
        align > 0,
        n >= 0,
    ensures
        rounded_up(n, align) % align == 0,
        n == 0 ==> rounded_up(n, align) == 0,
        rounded_up(n, align) < n + align,
        rounded_up(n, align) >= 0,
{
    let q = (n + align - 1) / align;
    vstd::arithmetic::div_mod::lemma_mod_multiples_basic(q, align);
    vstd::arithmetic::div_mod::lemma_fundamental_div_mod(n + align - 1, align);
    vstd::arithmetic::div_mod::lemma_mod_bound(n + align - 1, align);
    vstd::arithmetic::mul::lemma_mul_is_commutative(q, align);
    if n == 0 {
        vstd::arithmetic::div_mod::lemma_basic_div(align - 1, align);
        vstd::arithmetic::mul::lemma_mul_basics(align);
    }
    vstd::arithmetic::div_mod::lemma_div_pos_is_pos(n + align - 1, align);
    vstd::arithmetic::mul::lemma_mul_nonnegative(q, align);
}

/// Some descriptor that counts reaches the highest end, unless it is zero.
proof fn lemma_highest_is_reached(map: Seq<u8>, stride: int, ram_only: bool, n: nat)
    ensures
        highest_of(map, stride, ram_only, n) == 0 || exists|k: int|
            {
                &&& 0 <= k < n
                &&& counts(#[trigger] described(map, stride, k), ram_only)
                &&& described(map, stride, k).limit() == highest_of(map, stride, ram_only, n)
            },
    decreases n,
{
    if n > 0 {
        let m = (n - 1) as nat;
        let below = highest_of(map, stride, ram_only, m);
        let r = described(map, stride, n - 1);
        lemma_highest_is_reached(map, stride, ram_only, m);
        if !(counts(r, ram_only) && r.limit() > below) && below > 0 {
            let k = choose|k: int|
                {
                    &&& 0 <= k < m
                    &&& counts(#[trigger] described(map, stride, k), ram_only)
                    &&& described(map, stride, k).limit() == below
                };
            assert(described(map, stride, k).limit() == below);
        }
    }
}

/// Classifying a type says what it means to the kernel, and nothing but conventional
/// memory is said to be usable.
pub proof fn law_a_type_is_classified_as_what_it_means(ty: u32, kind: MemoryKind)
    requires
        call_ensures(classify, (ty,), kind),
    ensures
        match kind {
            MemoryKind::Usable => ty == memory_type::CONVENTIONAL,
            MemoryKind::LoaderReclaimable => ty == memory_type::LOADER_CODE || ty
                == memory_type::LOADER_DATA,
            MemoryKind::AcpiReclaimable => ty == memory_type::ACPI_RECLAIM,
            MemoryKind::AcpiNvs => ty == memory_type::ACPI_NVS,
            MemoryKind::BadMemory => ty == memory_type::UNUSABLE,
            MemoryKind::Reserved => {
                &&& ty != memory_type::CONVENTIONAL
                &&& ty != memory_type::LOADER_CODE
                &&& ty != memory_type::LOADER_DATA
                &&& ty != memory_type::ACPI_RECLAIM
                &&& ty != memory_type::ACPI_NVS
                &&& ty != memory_type::UNUSABLE
            },
        },
{
}

/// A converted map stands at the start of the array, and what lies behind it there is
/// left alone. Where there is no room the number that is reported is more than there
/// was.
pub proof fn law_a_converted_map_stands_at_the_start(
    map: &[u8],
    descriptor_size: usize,
    out: &mut [MemoryRegion],
    result: Result<usize, ConvertError>,
    i: int,
)
    requires
        call_ensures(convert, (map, descriptor_size, out), result),
    ensures
        descriptor_size < 40 <==> result == Err::<usize, ConvertError>(
            ConvertError::BadDescriptorSize,
        ),
        descriptor_size < 40 ==> final(out)@ == old(out)@,
        descriptor_size >= 40 ==> {
            let stride = descriptor_size as int;
            let all = regions_of(map@, stride, descriptor_count(map@, stride));
            let room = old(out)@.len();
            &&& final(out)@.len() == room
            &&& result is Ok <==> all.len() <= room
            &&& result matches Ok(n) ==> {
                &&& n == all.len()
                &&& 0 <= i < n ==> final(out)@[i] == all[i]
                &&& n <= i < room ==> final(out)@[i] == old(out)@[i]
            }
            &&& result matches Err(e) ==> e == ConvertError::TooManyRegions(all.len() as usize)
        },
{
    if descriptor_size >= 40 {
        let stride = descriptor_size as int;
        let count = descriptor_count(map@, stride);
        let room = old(out)@.len();
        law_a_map_is_converted_when_its_regions_fit(map@, stride, room, count);
        law_a_conversion_goes_as_far_as_there_is_room(map@, stride, room, count);
    }
}

/// Memory does not reach past the highest address of all, and each of the two is a
/// multiple of the alignment or the last address.
pub proof fn law_memory_ends_no_later_than_the_map(
    map: &[u8],
    descriptor_size: usize,
    align: u64,
    all: Result<u64, ConvertError>,
    ram: Result<u64, ConvertError>,
    k: int,
)
    requires
        descriptor_size >= 40,
        align > 0,
        call_ensures(highest_address, (map, descriptor_size, align), all),
        call_ensures(highest_ram_address, (map, descriptor_size, align), ram),
        0 <= k < descriptor_count(map@, descriptor_size as int),
    ensures
        all is Ok && ram is Ok,
        described(map@, descriptor_size as int, k).limit() <= all->Ok_0,
        described(map@, descriptor_size as int, k).kind != MemoryKind::Reserved ==> described(
            map@,
            descriptor_size as int,
            k,
        ).limit() <= ram->Ok_0,
        ram->Ok_0 == 0 || exists|j: int|
            {
                &&& 0 <= j < descriptor_count(map@, descriptor_size as int)
                &&& (#[trigger] described(map@, descriptor_size as int, j)).kind
                    != MemoryKind::Reserved
                &&& described(map@, descriptor_size as int, j).limit() > ram->Ok_0 - align
            },
        all->Ok_0 == u64::MAX || all->Ok_0 as int % align as int == 0,
        ram->Ok_0 == u64::MAX || ram->Ok_0 as int % align as int == 0,
{
    let stride = descriptor_size as int;
    law_the_extent_ends_at_a_descriptor(map@, stride, align as int, true);
    law_the_extent_ends_at_a_descriptor(map@, stride, align as int, false);
    law_the_extent_covers_every_descriptor(map@, stride, align as int, false, k);
    if described(map@, stride, k).kind != MemoryKind::Reserved {
        law_the_extent_covers_every_descriptor(map@, stride, align as int, true, k);
    }
}

} // verus!
