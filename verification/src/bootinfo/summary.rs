//! Facts derived from a memory map, computed without touching the memory itself.
use crate::bootinfo;
use crate::bootinfo::{MemoryKind, MemoryRegion};
use crate::sequences;
use vstd::prelude::*;

verus! {

/// Facts derived from a memory map.
#[derive(Clone, Copy, Debug, PartialEq, Eq)]
pub struct MemoryStats {
    /// Sum of all usable ranges, in bytes.
    pub usable_bytes: u64,
    /// Sum of every range the firmware described, in bytes.
    pub total_bytes: u64,
    /// The largest single usable range, or `None` if there is none.
    pub largest_usable: Option<(u64, u64)>,
    /// Highest address any region reaches, device apertures included.
    pub highest_address: u64,
    /// Highest address reached by anything that is actually memory, which is how
    /// far the linear map has to span. Reserved ranges are left out: they are the
    /// only ones that may be device apertures, and those can lie far above all
    /// memory.
    pub highest_ram: u64,
}

impl Default for MemoryStats {
    fn default() -> (stats: MemoryStats)
        ensures
            stats == (MemoryStats {
                usable_bytes: 0,
                total_bytes: 0,
                largest_usable: None,
                highest_address: 0,
                highest_ram: 0,
            }),
    {
        MemoryStats {
            usable_bytes: 0,
            total_bytes: 0,
            largest_usable: None,
            highest_address: 0,
            highest_ram: 0,
        }
    }
}

/// The bytes of all regions.
pub open spec fn bytes_described(regions: Seq<MemoryRegion>) -> nat
    decreases regions.len(),
{
    if regions.len() == 0 {
        0
    } else {
        bytes_described(regions.drop_last()) + regions.last().len as nat
    }
}

/// The regions of which `keep` holds, in map order.
pub open spec fn kept(regions: Seq<MemoryRegion>, keep: spec_fn(MemoryRegion) -> bool) -> Seq<
    MemoryRegion,
>
    decreases regions.len(),
{
    if regions.len() == 0 {
        Seq::empty()
    } else if keep(regions.last()) {
        kept(regions.drop_last(), keep).push(regions.last())
    } else {
        kept(regions.drop_last(), keep)
    }
}

/// The regions the frame allocator may take at boot.
pub open spec fn usable_regions(regions: Seq<MemoryRegion>) -> Seq<MemoryRegion> {
    kept(regions, |r: MemoryRegion| r.len > 0 && r.kind == MemoryKind::Usable)
}

/// The regions that are not empty.
pub open spec fn real_regions(regions: Seq<MemoryRegion>) -> Seq<MemoryRegion> {
    kept(regions, |r: MemoryRegion| r.len > 0)
}

/// The regions that are certainly memory.
pub open spec fn ram_regions(regions: Seq<MemoryRegion>) -> Seq<MemoryRegion> {
    kept(regions, |r: MemoryRegion| r.len > 0 && r.kind != MemoryKind::Reserved)
}

/// The highest end among the regions, or 0.
pub open spec fn highest_end(regions: Seq<MemoryRegion>) -> u64
    decreases regions.len(),
{
    if regions.len() == 0 {
        0
    } else {
        let below = highest_end(regions.drop_last());
        if regions.last().limit() > below {
            regions.last().limit()
        } else {
            below
        }
    }
}

/// The first of the longest regions, as start and length.
pub open spec fn first_longest(regions: Seq<MemoryRegion>) -> Option<(u64, u64)>
    decreases regions.len(),
{
    if regions.len() == 0 {
        None
    } else {
        let best = first_longest(regions.drop_last());
        let r = regions.last();
        match best {
            Some((start, len)) => if r.len > len {
                Some((r.start, r.len))
            } else {
                best
            },
            None => Some((r.start, r.len)),
        }
    }
}

/// What a memory map comes to.
pub open spec fn stats_of(regions: Seq<MemoryRegion>) -> MemoryStats {
    MemoryStats {
        usable_bytes: bootinfo::saturated(bytes_described(usable_regions(regions)) as int),
        total_bytes: bootinfo::saturated(bytes_described(regions) as int),
        largest_usable: first_longest(usable_regions(regions)),
        highest_address: highest_end(real_regions(regions)),
        highest_ram: highest_end(ram_regions(regions)),
    }
}

/// Summarise a memory map.
///
/// Empty regions are skipped: firmware emits them, and one must not become the
/// largest usable range.
#[must_use]
pub fn summarise(regions: &[MemoryRegion]) -> (stats: MemoryStats)
    ensures
        stats == stats_of(regions@),
{
    let mut stats = MemoryStats::default();
    let mut i: usize = 0;
    assert(regions@.take(0) =~= Seq::empty());
    while i < regions.len()
        invariant
            i <= regions.len(),
            stats == stats_of(regions@.take(i as int)),
        decreases regions.len() - i,
    {
        let r = regions[i];
        proof {
            assert(regions@.take(i + 1).drop_last() =~= regions@.take(i as int));
            assert(regions@.take(i + 1).last() == r);
            assert forall|s: Seq<MemoryRegion>| #[trigger] s.push(r).drop_last() == s by {
                assert(s.push(r).drop_last() =~= s);
            }
        }
        if r.len > 0 {
            stats.total_bytes = stats.total_bytes.saturating_add(r.len);
            let end = r.end();
            if end > stats.highest_address {
                stats.highest_address = end;
            }
            if r.kind != MemoryKind::Reserved && end > stats.highest_ram {
                stats.highest_ram = end;
            }
            if r.kind.usable_at_boot() {
                stats.usable_bytes = stats.usable_bytes.saturating_add(r.len);
                let better = match stats.largest_usable {
                    Some((_, len)) => r.len > len,
                    None => true,
                };
                if better {
                    stats.largest_usable = Some((r.start, r.len));
                }
            }
        }
        i = i + 1;
    }
    assert(regions@.take(i as int) =~= regions@);
    stats
}

/// Being kept is being in the map and meeting the condition.
pub proof fn lemma_kept(regions: Seq<MemoryRegion>, keep: spec_fn(MemoryRegion) -> bool)
    ensures
        forall|r: MemoryRegion|
            #![trigger kept(regions, keep).contains(r)]
            #![trigger regions.contains(r)]
            kept(regions, keep).contains(r) <==> regions.contains(r) && keep(r),
    decreases regions.len(),
{
    if regions.len() > 0 {
        let rest = kept(regions.drop_last(), keep);
        lemma_kept(regions.drop_last(), keep);
        assert forall|r: MemoryRegion| #[trigger]
            kept(regions, keep).contains(r) <==> regions.contains(r) && keep(r) by {
            sequences::lemma_last_contains(regions);
            sequences::lemma_push_contains(rest, regions.last());
        }
    } else {
        assert(kept(regions, keep) =~= Seq::empty());
    }
}

/// Every address in a region lies below the highest end, and some region reaches
/// it unless there is none.
proof fn lemma_highest_end(regions: Seq<MemoryRegion>)
    ensures
        forall|r: MemoryRegion| #[trigger]
            regions.contains(r) ==> r.limit() <= highest_end(regions),
        highest_end(regions) == 0 || exists|r: MemoryRegion| #[trigger]
            regions.contains(r) && r.limit() == highest_end(regions),
    decreases regions.len(),
{
    if regions.len() > 0 {
        lemma_highest_end(regions.drop_last());
        sequences::lemma_last_contains(regions);
        assert(regions.contains(regions.last()));
    }
}

/// The linear map spans all memory and stops where memory stops: the highest
/// memory address bounds every non-empty region that is not reserved, and it is
/// the end of one of them unless there is none.
pub proof fn law_highest_ram_is_where_memory_ends(regions: Seq<MemoryRegion>)
    ensures
        forall|r: MemoryRegion| #[trigger]
            regions.contains(r) && r.len > 0 && r.kind != MemoryKind::Reserved ==> r.limit()
                <= stats_of(regions).highest_ram,
        stats_of(regions).highest_ram == 0 || exists|r: MemoryRegion| #[trigger]
            regions.contains(r) && r.len > 0 && r.kind != MemoryKind::Reserved && r.limit()
                == stats_of(regions).highest_ram,
{
    let keep = |r: MemoryRegion| r.len > 0 && r.kind != MemoryKind::Reserved;
    lemma_kept(regions, keep);
    lemma_highest_end(ram_regions(regions));
}

/// The highest address bounds every non-empty region, device apertures included,
/// and it is the end of one of them unless there is none.
pub proof fn law_highest_address_is_where_the_map_ends(regions: Seq<MemoryRegion>)
    ensures
        forall|r: MemoryRegion| #[trigger]
            regions.contains(r) && r.len > 0 ==> r.limit() <= stats_of(regions).highest_address,
        stats_of(regions).highest_address == 0 || exists|r: MemoryRegion| #[trigger]
            regions.contains(r) && r.len > 0 && r.limit() == stats_of(regions).highest_address,
{
    let keep = |r: MemoryRegion| r.len > 0;
    lemma_kept(regions, keep);
    lemma_highest_end(real_regions(regions));
}

proof fn lemma_first_longest(regions: Seq<MemoryRegion>)
    ensures
        first_longest(regions) is None <==> regions.len() == 0,
        first_longest(regions) matches Some((start, len)) ==> {
            &&& exists|r: MemoryRegion| #[trigger]
                regions.contains(r) && r.start == start && r.len == len
            &&& forall|r: MemoryRegion| #[trigger] regions.contains(r) ==> r.len <= len
        },
    decreases regions.len(),
{
    if regions.len() > 0 {
        lemma_first_longest(regions.drop_last());
        sequences::lemma_last_contains(regions);
        assert(regions.contains(regions.last()));
    }
}

/// The largest usable range is a non-empty usable region that no other exceeds;
/// there is none exactly when nothing is usable.
pub proof fn law_the_largest_usable_range_is_usable_and_largest(regions: Seq<MemoryRegion>)
    ensures
        stats_of(regions).largest_usable is None <==> !(exists|r: MemoryRegion| #[trigger]
            regions.contains(r) && r.len > 0 && r.kind == MemoryKind::Usable),
        stats_of(regions).largest_usable matches Some((start, len)) ==> {
            &&& len > 0
            &&& regions.contains(MemoryRegion { start, len, kind: MemoryKind::Usable })
            &&& forall|r: MemoryRegion| #[trigger]
                regions.contains(r) && r.kind == MemoryKind::Usable ==> r.len <= len
        },
{
    let keep = |r: MemoryRegion| r.len > 0 && r.kind == MemoryKind::Usable;
    let usable = usable_regions(regions);
    lemma_kept(regions, keep);
    lemma_first_longest(usable);
    if usable.len() > 0 {
        assert(usable.contains(usable[0]));
    }
}

/// A map that grows by one region grows the totals by its length, up to the
/// largest 64-bit value: all bytes whatever its kind, usable bytes if it is
/// usable. A region of any other kind leaves the usable bytes as they were.
pub proof fn law_each_region_adds_its_own_bytes(regions: Seq<MemoryRegion>, r: MemoryRegion)
    ensures
        ({
            let before = stats_of(regions);
            let after = stats_of(regions.push(r));
            &&& r.kind != MemoryKind::Usable ==> after.usable_bytes == before.usable_bytes
            &&& r.kind == MemoryKind::Usable ==> {
                if before.usable_bytes + r.len <= u64::MAX {
                    after.usable_bytes == before.usable_bytes + r.len
                } else {
                    after.usable_bytes == u64::MAX
                }
            }
            &&& if before.total_bytes + r.len <= u64::MAX {
                after.total_bytes == before.total_bytes + r.len
            } else {
                after.total_bytes == u64::MAX
            }
        }),
{
    let more = regions.push(r);
    let usable = |r: MemoryRegion| r.len > 0 && r.kind == MemoryKind::Usable;
    assert(more.drop_last() =~= regions);
    if usable(r) {
        let grown = kept(regions, usable).push(r);
        assert(usable_regions(more) == grown);
        assert(grown.drop_last() =~= usable_regions(regions));
    }
}

/// A map with nothing in it comes to nothing.
pub proof fn law_an_empty_map_comes_to_nothing()
    ensures
        ({
            let stats = stats_of(Seq::empty());
            &&& stats.usable_bytes == 0
            &&& stats.total_bytes == 0
            &&& stats.largest_usable is None
            &&& stats.highest_address == 0
            &&& stats.highest_ram == 0
        }),
{
}

/// Of usable regions of the same length the first counts as the largest: another
/// region becomes the largest only if it is usable and longer, and it then does,
/// whatever stood before it.
pub proof fn law_only_a_longer_region_becomes_the_largest(
    regions: Seq<MemoryRegion>,
    r: MemoryRegion,
)
    ensures
        ({
            let before = stats_of(regions).largest_usable;
            let after = stats_of(regions.push(r)).largest_usable;
            let longer = match before {
                Some((_, len)) => r.len > len,
                None => r.len > 0,
            };
            if r.kind == MemoryKind::Usable && longer {
                after == Some((r.start, r.len))
            } else {
                after == before
            }
        }),
{
    let more = regions.push(r);
    let usable = |r: MemoryRegion| r.len > 0 && r.kind == MemoryKind::Usable;
    assert(more.drop_last() =~= regions);
    if usable(r) {
        let grown = kept(regions, usable).push(r);
        assert(usable_regions(more) == grown);
        assert(grown.drop_last() =~= usable_regions(regions));
    }
}

/// A region moves the two highest addresses up to its end and never down. An empty
/// one moves neither, and a reserved one does not count as memory.
pub proof fn law_each_region_raises_the_highest_addresses(
    regions: Seq<MemoryRegion>,
    r: MemoryRegion,
)
    ensures
        ({
            let before = stats_of(regions);
            let after = stats_of(regions.push(r));
            let end = if r.start + r.len <= u64::MAX {
                r.start + r.len
            } else {
                u64::MAX as int
            };
            &&& after.highest_address == (if r.len > 0 && end > before.highest_address {
                end
            } else {
                before.highest_address as int
            })
            &&& after.highest_ram == (if r.len > 0 && r.kind != MemoryKind::Reserved && end
                > before.highest_ram {
                end
            } else {
                before.highest_ram as int
            })
        }),
{
    let more = regions.push(r);
    let present = |r: MemoryRegion| r.len > 0;
    let ram = |r: MemoryRegion| r.len > 0 && r.kind != MemoryKind::Reserved;
    assert(more.drop_last() =~= regions);
    if present(r) {
        let grown = kept(regions, present).push(r);
        assert(real_regions(more) == grown);
        assert(grown.drop_last() =~= real_regions(regions));
    }
    if ram(r) {
        let grown = kept(regions, ram).push(r);
        assert(ram_regions(more) == grown);
        assert(grown.drop_last() =~= ram_regions(regions));
    }
}

/// Two summaries of maps that differ by one region differ by what that region is:
/// all bytes by its length, and usable bytes by its length only if it is usable. No
/// other kind of region counts as usable.
pub proof fn law_a_summary_counts_usable_regions_only(
    regions: &[MemoryRegion],
    more: &[MemoryRegion],
    r: MemoryRegion,
    before: MemoryStats,
    after: MemoryStats,
)
    requires
        more@ == regions@.push(r),
        call_ensures(summarise, (regions,), before),
        call_ensures(summarise, (more,), after),
    ensures
        after.total_bytes == (if before.total_bytes + r.len <= u64::MAX {
            before.total_bytes + r.len
        } else {
            u64::MAX as int
        }),
        after.usable_bytes == (if r.kind != MemoryKind::Usable {
            before.usable_bytes as int
        } else if before.usable_bytes + r.len <= u64::MAX {
            before.usable_bytes + r.len
        } else {
            u64::MAX as int
        }),
        regions@.len() == 0 ==> before.total_bytes == 0 && before.usable_bytes == 0,
{
    law_each_region_adds_its_own_bytes(regions@, r);
    law_an_empty_map_comes_to_nothing();
    if regions@.len() == 0 {
        assert(regions@ =~= Seq::empty());
    }
}

/// The usable regions are those of the map that are usable and not empty, each as
/// often as it occurs there and in the same order.
pub proof fn law_usable_regions_keep_their_order(a: Seq<MemoryRegion>, b: Seq<MemoryRegion>)
    ensures
        usable_regions(a + b) == usable_regions(a) + usable_regions(b),
        b.len() == 1 ==> usable_regions(b) == (if b[0].kind == MemoryKind::Usable && b[0].len > 0 {
            b
        } else {
            Seq::empty()
        }),
    decreases b.len(),
{
    let usable = |r: MemoryRegion| r.len > 0 && r.kind == MemoryKind::Usable;
    if b.len() == 0 {
        assert(a + b =~= a);
        assert(usable_regions(a) + usable_regions(b) =~= usable_regions(a));
    } else {
        law_usable_regions_keep_their_order(a, b.drop_last());
        assert((a + b).drop_last() =~= a + b.drop_last());
        assert(usable_regions(a + b) =~= usable_regions(a) + usable_regions(b));
    }
    if b.len() == 1 {
        assert(b.drop_last() =~= Seq::empty());
        assert(kept(b.drop_last(), usable) =~= Seq::empty());
        assert(usable_regions(b) =~= (if b[0].kind == MemoryKind::Usable && b[0].len > 0 {
            b
        } else {
            Seq::empty()
        }));
    }
}

} // verus!
