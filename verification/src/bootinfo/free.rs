//! Free memory: the usable ranges with everything already spoken for carved out.
//!
//! The kernel image, the memory map itself and an initial file system all sit
//! inside memory the firmware calls usable, so the usable ranges are not an
//! answer until those are carved out. A range with something in its middle leaves
//! two free runs, both of which are real memory.
use crate::bootinfo;
use crate::bootinfo::runs;
use crate::bootinfo::runs::Walk;
use crate::bootinfo::summary;
use crate::bootinfo::{MemoryKind, MemoryRegion};
use crate::sequences;
use vstd::prelude::*;

verus! {

/// How many free runs the fixed-size paths here can hold.
///
/// Firmware maps have a few dozen usable ranges at most, and four exclusions can
/// split at most four of them in two. This is generous for both.
pub const MAX_FREE_RUNS: usize = 96;

/// A usable region as its first address and the one past its last.
pub open spec fn span(r: MemoryRegion) -> (u64, u64) {
    (r.start, r.limit())
}

/// The usable regions as spans, in map order.
pub open spec fn usable_spans(regions: Seq<MemoryRegion>) -> Seq<(u64, u64)> {
    summary::usable_regions(regions).map_values(|r: MemoryRegion| span(r))
}

/// An exclusion, given as start and length, as a span.
pub open spec fn excluded_span(exclusion: (u64, u64)) -> (u64, u64) {
    (exclusion.0, bootinfo::saturated(exclusion.0 + exclusion.1))
}

/// Whether two spans have an address in common, or would if both were not empty.
pub open spec fn overlap(a: (u64, u64), b: (u64, u64)) -> bool {
    a.0 < b.1 && b.0 < a.1
}

/// What lies in `s` below `ex`.
pub open spec fn left_of(s: (u64, u64), ex: (u64, u64)) -> (u64, u64) {
    (s.0, if ex.0 > s.0 { ex.0 } else { s.0 })
}

/// What lies in `s` above `ex`.
pub open spec fn right_of(s: (u64, u64), ex: (u64, u64)) -> (u64, u64) {
    (if ex.1 < s.1 { ex.1 } else { s.1 }, s.1)
}

/// The runs after `ex` is cut out of run `i`. The left piece stays in place and
/// the right one is appended. With no room for a second piece the larger one
/// stays; with no piece left the run stays as an empty one.
pub open spec fn carve_one(runs: Seq<(u64, u64)>, i: int, ex: (u64, u64), room: nat) -> Seq<
    (u64, u64),
> {
    let s = runs[i];
    let left = left_of(s, ex);
    let right = right_of(s, ex);
    if !overlap(s, ex) {
        runs
    } else if left.0 < left.1 && right.0 < right.1 {
        if runs.len() < room {
            runs.update(i, left).push(right)
        } else if left.1 - left.0 >= right.1 - right.0 {
            runs.update(i, left)
        } else {
            runs.update(i, right)
        }
    } else if left.0 < left.1 {
        runs.update(i, left)
    } else if right.0 < right.1 {
        runs.update(i, right)
    } else {
        runs.update(i, (s.0, s.0))
    }
}

/// The runs after `ex` is cut out of each of the first `n`.
pub open spec fn carve_first(runs: Seq<(u64, u64)>, n: nat, ex: (u64, u64), room: nat) -> Seq<
    (u64, u64),
>
    decreases n,
{
    if n == 0 {
        runs
    } else {
        carve_one(carve_first(runs, (n - 1) as nat, ex, room), n - 1, ex, room)
    }
}

/// The runs after every exclusion is cut out of every run. Empty exclusions cut
/// nothing.
pub open spec fn carve_all(
    runs: Seq<(u64, u64)>,
    exclusions: Seq<(u64, u64)>,
    room: nat,
) -> Seq<(u64, u64)>
    decreases exclusions.len(),
{
    if exclusions.len() == 0 {
        runs
    } else {
        let before = carve_all(runs, exclusions.drop_last(), room);
        let ex = excluded_span(exclusions.last());
        if ex.0 < ex.1 {
            carve_first(before, before.len(), ex, room)
        } else {
            before
        }
    }
}

/// The runs that are not empty, as start and length.
pub open spec fn compacted(runs: Seq<(u64, u64)>) -> Seq<(u64, u64)>
    decreases runs.len(),
{
    if runs.len() == 0 {
        Seq::empty()
    } else {
        let rest = compacted(runs.drop_last());
        let (start, end) = runs.last();
        if start < end {
            rest.push((start, (end - start) as u64))
        } else {
            rest
        }
    }
}

/// As many of the usable spans as there is room for.
pub open spec fn fitting_spans(regions: Seq<MemoryRegion>, room: nat) -> Seq<(u64, u64)> {
    let spans = usable_spans(regions);
    spans.take(if spans.len() < room { spans.len() as int } else { room as int })
}

/// The spans that fit, carved: the state from which the runs are read off.
pub open spec fn carved(
    regions: Seq<MemoryRegion>,
    exclusions: Seq<(u64, u64)>,
    room: nat,
) -> Seq<(u64, u64)> {
    carve_all(fitting_spans(regions, room), exclusions, room)
}

/// The free runs, as start and length, where there is room for `room` of them.
pub open spec fn runs_of(
    regions: Seq<MemoryRegion>,
    exclusions: Seq<(u64, u64)>,
    room: nat,
) -> Seq<(u64, u64)> {
    compacted(carved(regions, exclusions, room))
}

/// Some runs, and then those of `first` that are not among them as often as they
/// are among `all`, as far as there is room.
pub open spec fn topped_up(
    kept: Seq<(u64, u64)>,
    first: Seq<(u64, u64)>,
    all: Seq<(u64, u64)>,
    room: nat,
) -> Seq<(u64, u64)>
    decreases first.len(),
{
    if first.len() == 0 {
        kept
    } else {
        let before = topped_up(kept, first.drop_last(), all, room);
        let run = first.last();
        if before.len() < room && sequences::often(before, run) < sequences::often(all, run) {
            before.push(run)
        } else {
            before
        }
    }
}

/// The runs that are handed back where there is room for `room` of them: those
/// that carving leaves, and then, where carving had to drop some for want of room
/// that was free in the end, as many of those as fit.
pub open spec fn handed_back(
    regions: Seq<MemoryRegion>,
    exclusions: Seq<(u64, u64)>,
    room: nat,
) -> Seq<(u64, u64)> {
    let all = runs::all_runs(regions, exclusions);
    topped_up(runs_of(regions, exclusions, room), all, all, room)
}

/// What carving leaves in the slots, runs first.
pub open spec fn slots(
    regions: Seq<MemoryRegion>,
    exclusions: Seq<(u64, u64)>,
    before: Seq<(u64, u64)>,
) -> Seq<(u64, u64)> {
    let carved = carved(regions, exclusions, before.len());
    compacted(carved) + carved.skip(compacted(carved).len() as int) + before.skip(
        carved.len() as int,
    )
}

/// The first of the longest runs.
pub open spec fn longest(runs: Seq<(u64, u64)>) -> Option<(u64, u64)>
    decreases runs.len(),
{
    if runs.len() == 0 {
        None
    } else {
        let best = longest(runs.drop_last());
        match best {
            Some((_, len)) => if runs.last().1 > len {
                Some(runs.last())
            } else {
                best
            },
            None => Some(runs.last()),
        }
    }
}

/// Where run `i` is left after carving, seen from a longer prefix.
proof fn lemma_carve_first_len(runs: Seq<(u64, u64)>, n: nat, ex: (u64, u64), room: nat)
    requires
        n <= runs.len() <= room,
    ensures
        runs.len() <= carve_first(runs, n, ex, room).len() <= room,
        forall|j: int|
            n <= j < runs.len() ==> #[trigger] carve_first(runs, n, ex, room)[j] == runs[j],
    decreases n,
{
    if n > 0 {
        lemma_carve_first_len(runs, (n - 1) as nat, ex, room);
    }
}

proof fn lemma_carve_all_len(runs: Seq<(u64, u64)>, exclusions: Seq<(u64, u64)>, room: nat)
    requires
        runs.len() <= room,
    ensures
        runs.len() <= carve_all(runs, exclusions, room).len() <= room,
    decreases exclusions.len(),
{
    if exclusions.len() > 0 {
        lemma_carve_all_len(runs, exclusions.drop_last(), room);
        let before = carve_all(runs, exclusions.drop_last(), room);
        lemma_carve_first_len(before, before.len(), excluded_span(exclusions.last()), room);
    }
}

/// Spans whose end is not below their start.
pub open spec fn ordered(runs: Seq<(u64, u64)>) -> bool {
    forall|i: int| 0 <= i < runs.len() ==> (#[trigger] runs[i]).0 <= runs[i].1
}

proof fn lemma_carve_first_ordered(runs: Seq<(u64, u64)>, n: nat, ex: (u64, u64), room: nat)
    requires
        ordered(runs),
        n <= runs.len() <= room,
    ensures
        ordered(carve_first(runs, n, ex, room)),
    decreases n,
{
    if n > 0 {
        lemma_carve_first_ordered(runs, (n - 1) as nat, ex, room);
        lemma_carve_first_len(runs, (n - 1) as nat, ex, room);
    }
}

/// Write the spans of the usable regions into `out` as far as it goes, and count
/// them all.
fn write_spans(regions: &[MemoryRegion], out: &mut [(u64, u64)]) -> (n: usize)
    ensures
        n == usable_spans(regions@).len(),
        final(out)@.len() == old(out)@.len(),
        final(out)@ == fitting_spans(regions@, old(out)@.len()) + old(out)@.skip(
            fitting_spans(regions@, old(out)@.len()).len() as int,
        ),
        ordered(fitting_spans(regions@, old(out)@.len())),
{
    let room = out.len();
    let mut n: usize = 0;
    let mut k: usize = 0;
    assert(regions@.take(0) =~= Seq::empty());
    assert(usable_spans(Seq::empty()) =~= Seq::empty());
    assert(fitting_spans(Seq::empty(), room as nat) =~= Seq::empty());
    while k < regions.len()
        invariant
            k <= regions.len(),
            n <= k,
            room == out.len(),
            room == old(out)@.len(),
            n == usable_spans(regions@.take(k as int)).len(),
            out@ =~= fitting_spans(regions@.take(k as int), room as nat) + old(out)@.skip(
                fitting_spans(regions@.take(k as int), room as nat).len() as int,
            ),
            ordered(fitting_spans(regions@.take(k as int), room as nat)),
        decreases regions.len() - k,
    {
        let r = regions[k];
        let ghost before = usable_spans(regions@.take(k as int));
        proof {
            assert(regions@.take(k + 1).drop_last() =~= regions@.take(k as int));
            assert(regions@.take(k + 1).last() == r);
            if r.len > 0 && r.kind == MemoryKind::Usable {
                assert(usable_spans(regions@.take(k + 1)) =~= before.push(span(r)));
            } else {
                assert(usable_spans(regions@.take(k + 1)) =~= before);
            }
        }
        if r.kind.usable_at_boot() && r.len > 0 {
            let end = r.end();
            if n < out.len() {
                out[n] = (r.start, end);
            }
            n = n + 1;
        }
        k = k + 1;
    }
    assert(regions@.take(k as int) =~= regions@);
    n
}

/// Cut one exclusion out of the first `live` runs of `out`.
fn carve(out: &mut [(u64, u64)], live: usize, ex: (u64, u64)) -> (now: usize)
    requires
        live <= old(out)@.len(),
        ex.0 < ex.1,
        ordered(old(out)@.take(live as int)),
    ensures
        ({
            let runs = old(out)@.take(live as int);
            let carved = carve_first(runs, live as nat, ex, old(out)@.len());
            &&& now == carved.len()
            &&& now <= old(out)@.len()
            &&& final(out)@ == carved + old(out)@.skip(now as int)
            &&& ordered(carved)
        }),
{
    let room = out.len();
    let ghost runs = out@.take(live as int);
    let mut now = live;
    let mut i: usize = 0;
    while i < live
        invariant
            i <= live <= now <= room,
            room == out.len(),
            room == old(out)@.len(),
            runs == old(out)@.take(live as int),
            ordered(runs),
            ex.0 < ex.1,
            now == carve_first(runs, i as nat, ex, room as nat).len(),
            out@ =~= carve_first(runs, i as nat, ex, room as nat) + old(out)@.skip(now as int),
        decreases live - i,
    {
        let ghost state = carve_first(runs, i as nat, ex, room as nat);
        proof {
            lemma_carve_first_len(runs, i as nat, ex, room as nat);
            lemma_carve_first_ordered(runs, i as nat, ex, room as nat);
        }
        let (start, end) = out[i];
        assert((start, end) == state[i as int]);
        if ex.0 < end && start < ex.1 {
            let cut = if ex.0 > start { ex.0 } else { start };
            let resume = if ex.1 < end { ex.1 } else { end };
            let left_len = cut - start;
            let right_len = end - resume;
            if left_len > 0 && right_len > 0 {
                if now < room {
                    out[i] = (start, cut);
                    out[now] = (resume, end);
                    now = now + 1;
                } else if left_len >= right_len {
                    out[i] = (start, cut);
                } else {
                    out[i] = (resume, end);
                }
            } else if left_len > 0 {
                out[i] = (start, cut);
            } else if right_len > 0 {
                out[i] = (resume, end);
            } else {
                out[i] = (start, start);
            }
        }
        i = i + 1;
    }
    proof {
        lemma_carve_first_ordered(runs, live as nat, ex, room as nat);
    }
    now
}

/// Move the runs that are not empty to the front of `out`, as start and length.
fn compact(out: &mut [(u64, u64)], live: usize) -> (kept: usize)
    requires
        live <= old(out)@.len(),
    ensures
        ({
            let runs = compacted(old(out)@.take(live as int));
            &&& kept == runs.len()
            &&& kept <= live
            &&& final(out)@ == runs + old(out)@.skip(kept as int)
        }),
{
    let mut kept: usize = 0;
    let mut i: usize = 0;
    while i < live
        invariant
            kept <= i <= live <= out.len(),
            out@.len() == old(out)@.len(),
            kept == compacted(old(out)@.take(i as int)).len(),
            out@ =~= compacted(old(out)@.take(i as int)) + old(out)@.skip(kept as int),
        decreases live - i,
    {
        let (start, end) = out[i];
        proof {
            assert(old(out)@.take(i + 1).drop_last() =~= old(out)@.take(i as int));
            assert(old(out)@.take(i + 1).last() == (start, end));
        }
        if end > start {
            out[kept] = (start, end - start);
            kept = kept + 1;
        }
        i = i + 1;
    }
    kept
}

/// Carve the free runs into `out`, and return how many there are.
fn place_runs(
    regions: &[MemoryRegion],
    exclusions: &[(u64, u64)],
    out: &mut [(u64, u64)],
) -> (kept: usize)
    ensures
        kept == runs_of(regions@, exclusions@, old(out)@.len()).len(),
        kept <= old(out)@.len(),
        final(out)@ == slots(regions@, exclusions@, old(out)@),
        final(out)@.len() == old(out)@.len(),
{
    let room = out.len();
    let n = write_spans(regions, out);
    let ghost spans = fitting_spans(regions@, room as nat);
    let mut live = if n < room { n } else { room };
    assert(out@.take(live as int) =~= spans);
    let mut k: usize = 0;
    assert(exclusions@.take(0) =~= Seq::empty());
    while k < exclusions.len()
        invariant
            k <= exclusions.len(),
            room == out.len(),
            room == old(out)@.len(),
            spans.len() <= live <= room,
            live == carve_all(spans, exclusions@.take(k as int), room as nat).len(),
            out@ =~= carve_all(spans, exclusions@.take(k as int), room as nat) + old(out)@.skip(
                live as int,
            ),
            ordered(carve_all(spans, exclusions@.take(k as int), room as nat)),
        decreases exclusions.len() - k,
    {
        let (ex_start, ex_len) = exclusions[k];
        let ex_end = ex_start.saturating_add(ex_len);
        proof {
            assert(exclusions@.take(k + 1).drop_last() =~= exclusions@.take(k as int));
            assert(exclusions@.take(k + 1).last() == (ex_start, ex_len));
            assert(out@.take(live as int) =~= carve_all(
                spans,
                exclusions@.take(k as int),
                room as nat,
            ));
            lemma_carve_first_len(
                out@.take(live as int),
                live as nat,
                (ex_start, ex_end),
                room as nat,
            );
        }
        if ex_end > ex_start {
            live = carve(out, live, (ex_start, ex_end));
        }
        k = k + 1;
    }
    assert(exclusions@.take(k as int) =~= exclusions@);
    let ghost state = out@;
    assert(state.take(live as int) =~= carved(regions@, exclusions@, room as nat));
    let kept = compact(out, live);
    assert(out@ =~= compacted(state.take(live as int)) + state.take(live as int).skip(kept as int)
        + old(out)@.skip(live as int));
    kept
}

/// How often a run is among the first `n` of `out`.
fn times_among(out: &[(u64, u64)], n: usize, run: (u64, u64)) -> (count: usize)
    requires
        n <= out@.len(),
    ensures
        count == sequences::often(out@.take(n as int), run),
        count <= n,
{
    let mut count: usize = 0;
    let mut i: usize = 0;
    assert(out@.take(0) =~= Seq::empty());
    while i < n
        invariant
            count <= i <= n <= out.len(),
            count == sequences::often(out@.take(i as int), run),
        decreases n - i,
    {
        proof {
            assert(out@.take(i + 1) =~= out@.take(i as int).push(out@[i as int]));
            sequences::lemma_often_push(out@.take(i as int), out@[i as int], run);
        }
        if out[i].0 == run.0 && out[i].1 == run.1 {
            count = count + 1;
        }
        i = i + 1;
    }
    count
}

/// Write the runs that are not among the first `kept` of `out` as often as they
/// exist after them, as far as there is room.
fn top_up(
    regions: &[MemoryRegion],
    exclusions: &[(u64, u64)],
    out: &mut [(u64, u64)],
    kept: usize,
)
    requires
        kept <= old(out)@.len(),
    ensures
        ({
            let all = runs::all_runs(regions@, exclusions@);
            let written = topped_up(old(out)@.take(kept as int), all, all, old(out)@.len());
            &&& written.len() <= old(out)@.len()
            &&& final(out)@ == written + old(out)@.skip(written.len() as int)
        }),
{
    let ghost all = runs::all_runs(regions@, exclusions@);
    let ghost first = out@.take(kept as int);
    let mut walk = Walk::new();
    let mut filled = kept;
    assert(walk.count(regions@, exclusions@) == 0);
    assert(all.take(0) =~= Seq::empty());
    loop
        invariant
            walk.wf(regions@, exclusions@),
            all == runs::all_runs(regions@, exclusions@),
            walk.count(regions@, exclusions@) <= all.len(),
            first == old(out)@.take(kept as int),
            out@.len() == old(out)@.len(),
            filled <= out.len(),
            filled == topped_up(
                first,
                all.take(walk.count(regions@, exclusions@) as int),
                all,
                out@.len(),
            ).len(),
            out@ =~= topped_up(
                first,
                all.take(walk.count(regions@, exclusions@) as int),
                all,
                out@.len(),
            ) + old(out)@.skip(filled as int),
        decreases all.len() - walk.count(regions@, exclusions@),
    {
        let ghost n = walk.count(regions@, exclusions@) as int;
        match walk.next(regions, exclusions) {
            None => {
                assert(all.take(n) =~= all);
                return;
            },
            Some(run) => {
                proof {
                    assert(all.take(n + 1).drop_last() =~= all.take(n));
                    assert(all.take(n + 1).last() == run);
                    assert(out@.take(filled as int) =~= topped_up(
                        first,
                        all.take(n),
                        all,
                        out@.len(),
                    ));
                }
                if filled < out.len() && times_among(out, filled, run) < runs::times(
                    regions,
                    exclusions,
                    run,
                ) {
                    out[filled] = run;
                    filled = filled + 1;
                }
            },
        }
    }
}

/// Every usable run with all of `exclusions` carved out, written into `out` as
/// start and length.
///
/// Returns how many runs exist, which may exceed the length of `out`, so a caller
/// can tell "forty runs, room for thirty-two" from "thirty-two runs". Runs there
/// is no room for are counted and dropped; the ones written are always genuinely
/// free, because handing back fewer runs than exist can only waste memory, while
/// handing back one that overlaps live data corrupts it. What `out` holds past the
/// runs is scratch.
#[must_use]
pub fn free_runs(
    regions: &[MemoryRegion],
    exclusions: &[(u64, u64)],
    out: &mut [(u64, u64)],
) -> (count: usize)
    ensures
        ({
            let all = runs::all_runs(regions@, exclusions@);
            let written = handed_back(regions@, exclusions@, old(out)@.len());
            &&& count == (if all.len() <= usize::MAX {
                all.len() as int
            } else {
                usize::MAX as int
            })
            &&& written.len() <= old(out)@.len()
            &&& final(out)@ == written + slots(regions@, exclusions@, old(out)@).skip(
                written.len() as int,
            )
        }),
{
    let kept = place_runs(regions, exclusions, out);
    assert(out@.take(kept as int) =~= runs_of(regions@, exclusions@, old(out)@.len()));
    top_up(regions, exclusions, out, kept);
    runs::count_runs(regions, exclusions)
}

/// The longer of two runs, the first if they are of one length.
fn longer(best: Option<(u64, u64)>, run: (u64, u64)) -> (now: Option<(u64, u64)>)
    ensures
        now == (match best {
            Some((_, len)) => if run.1 > len {
                Some(run)
            } else {
                best
            },
            None => Some(run),
        }),
{
    match best {
        Some((_, len)) => if run.1 > len {
            Some(run)
        } else {
            best
        },
        None => Some(run),
    }
}

/// The largest usable range that does not overlap any of `exclusions`, as start
/// and length. Of ranges of one length it is the first that carving leaves.
#[must_use]
pub fn largest_free_run(regions: &[MemoryRegion], exclusions: &[(u64, u64)]) -> (run: Option<
    (u64, u64),
>)
    ensures
        run == largest(regions@, exclusions@),
{
    let mut scratch: [(u64, u64); 96] = [(0u64, 0u64);96];
    let kept = place_runs(regions, exclusions, &mut scratch);
    let ghost first = runs_of(regions@, exclusions@, MAX_FREE_RUNS as nat);
    let ghost all = runs::all_runs(regions@, exclusions@);
    let mut best: Option<(u64, u64)> = None;
    let mut i: usize = 0;
    while i < kept
        invariant
            i <= kept <= 96,
            kept == first.len(),
            forall|j: int| 0 <= j < kept ==> scratch@[j] == first[j],
            best == longest(first.take(i as int)),
        decreases kept - i,
    {
        proof {
            assert(first.take(i + 1).drop_last() =~= first.take(i as int));
            assert(first.take(i + 1).last() == scratch@[i as int]);
        }
        best = longer(best, scratch[i]);
        i = i + 1;
    }
    let mut walk = Walk::new();
    assert(walk.count(regions@, exclusions@) == 0);
    assert(first + all.take(0) =~= first.take(i as int));
    loop
        invariant
            walk.wf(regions@, exclusions@),
            all == runs::all_runs(regions@, exclusions@),
            first == runs_of(regions@, exclusions@, MAX_FREE_RUNS as nat),
            walk.count(regions@, exclusions@) <= all.len(),
            best == longest(first + all.take(walk.count(regions@, exclusions@) as int)),
        decreases all.len() - walk.count(regions@, exclusions@),
    {
        let ghost n = walk.count(regions@, exclusions@) as int;
        match walk.next(regions, exclusions) {
            None => {
                assert(all.take(n) =~= all);
                return best;
            },
            Some(run) => {
                proof {
                    assert((first + all.take(n + 1)).drop_last() =~= first + all.take(n));
                    assert((first + all.take(n + 1)).last() == run);
                }
                best = longer(best, run);
            },
        }
    }
}

/// The largest run: the first of the longest that carving leaves, unless one that
/// it had no room for is longer still.
pub open spec fn largest(regions: Seq<MemoryRegion>, exclusions: Seq<(u64, u64)>) -> Option<
    (u64, u64),
> {
    longest(
        runs_of(regions, exclusions, MAX_FREE_RUNS as nat) + runs::all_runs(regions, exclusions),
    )
}

/// Whether an exclusion, given as start and length, holds any address at all.
pub open spec fn holds_something(exclusion: (u64, u64)) -> bool {
    excluded_span(exclusion).0 < excluded_span(exclusion).1
}

/// Whether an exclusion, given as start and length, holds `a`.
pub open spec fn holds(exclusion: (u64, u64), a: u64) -> bool {
    excluded_span(exclusion).0 <= a < excluded_span(exclusion).1
}

/// Whether some run of `runs`, given as start and length, holds `a`.
pub open spec fn in_runs(runs: Seq<(u64, u64)>, a: u64) -> bool {
    exists|i: int| 0 <= i < runs.len() && (#[trigger] runs[i]).0 <= a < runs[i].0 + runs[i].1
}

/// How many pieces of a span, once some exclusions are cut out of it one after the
/// other, are `x`.
pub open spec fn hits(s: (u64, u64), exclusions: Seq<(u64, u64)>, x: (u64, u64)) -> nat
    decreases exclusions.len(),
{
    if exclusions.len() == 0 {
        if s == x {
            1
        } else {
            0
        }
    } else {
        let ex = excluded_span(exclusions[0]);
        let rest = exclusions.drop_first();
        if ex.0 < ex.1 && overlap(s, ex) {
            hits(left_of(s, ex), rest, x) + hits(right_of(s, ex), rest, x)
        } else {
            hits(s, rest, x)
        }
    }
}

/// Whether the edges of a span are edges of the span it was cut from or of
/// something that was cut out of that.
pub open spec fn has_edges(p: (u64, u64), s: (u64, u64), exclusions: Seq<(u64, u64)>) -> bool {
    &&& p.0 == s.0 || exists|e: int|
        0 <= e < exclusions.len() && holds_something(#[trigger] exclusions[e]) && excluded_span(
            exclusions[e],
        ).1 == p.0
    &&& p.1 == s.1 || exists|e: int|
        0 <= e < exclusions.len() && holds_something(#[trigger] exclusions[e]) && excluded_span(
            exclusions[e],
        ).0 == p.1
}

/// Edges that are found among all but the first exclusion are found among all of
/// them.
proof fn lemma_edges(p: (u64, u64), q: (u64, u64), s: (u64, u64), exclusions: Seq<(u64, u64)>)
    requires
        exclusions.len() > 0,
        has_edges(p, q, exclusions.drop_first()),
        ({
            let ex = excluded_span(exclusions[0]);
            &&& q.0 == s.0 || (holds_something(exclusions[0]) && q.0 == ex.1)
            &&& q.1 == s.1 || (holds_something(exclusions[0]) && q.1 == ex.0)
        }),
    ensures
        has_edges(p, s, exclusions),
{
    let rest = exclusions.drop_first();
    if p.0 != q.0 {
        let e = choose|e: int|
            0 <= e < rest.len() && holds_something(#[trigger] rest[e]) && excluded_span(rest[e]).1
                == p.0;
        assert(exclusions[e + 1] == rest[e]);
    }
    if p.1 != q.1 {
        let e = choose|e: int|
            0 <= e < rest.len() && holds_something(#[trigger] rest[e]) && excluded_span(rest[e]).0
                == p.1;
        assert(exclusions[e + 1] == rest[e]);
    }
}

/// A span that is not empty is a piece of another at most once, and if it is, it
/// lies in it, is clear of everything that was cut out, and has the edges of a
/// piece.
proof fn lemma_hits(s: (u64, u64), exclusions: Seq<(u64, u64)>, x: (u64, u64))
    requires
        s.0 <= s.1,
        x.0 < x.1,
    ensures
        hits(s, exclusions, x) <= 1,
        hits(s, exclusions, x) > 0 ==> {
            &&& s.0 <= x.0 && x.1 <= s.1
            &&& has_edges(x, s, exclusions)
            &&& forall|e: int|
                0 <= e < exclusions.len() && holds_something(#[trigger] exclusions[e]) ==> !overlap(
                    x,
                    excluded_span(exclusions[e]),
                )
        },
    decreases exclusions.len(),
{
    if exclusions.len() > 0 {
        let ex = excluded_span(exclusions[0]);
        let rest = exclusions.drop_first();
        let left = left_of(s, ex);
        let right = right_of(s, ex);
        let cut = ex.0 < ex.1 && overlap(s, ex);
        if cut {
            lemma_hits(left, rest, x);
            lemma_hits(right, rest, x);
            if hits(left, rest, x) > 0 {
                lemma_edges(x, left, s, exclusions);
            }
            if hits(right, rest, x) > 0 {
                lemma_edges(x, right, s, exclusions);
            }
        } else {
            lemma_hits(s, rest, x);
            if hits(s, rest, x) > 0 {
                lemma_edges(x, s, s, exclusions);
            }
        }
        if hits(s, exclusions, x) > 0 {
            assert forall|e: int|
                0 <= e < exclusions.len() && holds_something(
                    #[trigger] exclusions[e],
                ) implies !overlap(x, excluded_span(exclusions[e])) by {
                if e > 0 {
                    assert(rest[e - 1] == exclusions[e]);
                }
            }
        }
    }
}

/// How many pieces of some spans are `x`.
pub open spec fn total(spans: Seq<(u64, u64)>, exclusions: Seq<(u64, u64)>, x: (u64, u64)) -> nat
    decreases spans.len(),
{
    if spans.len() == 0 {
        0
    } else {
        total(spans.drop_last(), exclusions, x) + hits(spans.last(), exclusions, x)
    }
}

/// How many pieces of some spans are `x`, where the first exclusion has yet to be
/// cut out of the first `n` and has been cut out of the others.
spec fn mixed(spans: Seq<(u64, u64)>, n: int, exclusions: Seq<(u64, u64)>, x: (u64, u64)) -> nat
    decreases spans.len(),
{
    if spans.len() == 0 {
        0
    } else {
        mixed(spans.drop_last(), n, exclusions, x) + if spans.len() - 1 < n {
            hits(spans.last(), exclusions, x)
        } else {
            hits(spans.last(), exclusions.drop_first(), x)
        }
    }
}

proof fn lemma_mixed(spans: Seq<(u64, u64)>, exclusions: Seq<(u64, u64)>, x: (u64, u64))
    requires
        exclusions.len() > 0,
    ensures
        mixed(spans, 0, exclusions, x) == total(spans, exclusions.drop_first(), x),
        forall|n: int|
            n >= spans.len() ==> #[trigger] mixed(spans, n, exclusions, x) == total(
                spans,
                exclusions,
                x,
            ),
    decreases spans.len(),
{
    if spans.len() > 0 {
        let rest = spans.drop_last();
        lemma_mixed(rest, exclusions, x);
        assert forall|n: int| n >= spans.len() implies #[trigger] mixed(spans, n, exclusions, x)
            == total(spans, exclusions, x) by {
            assert(mixed(rest, n, exclusions, x) == total(rest, exclusions, x));
        }
    }
}

proof fn lemma_mixed_step(
    spans: Seq<(u64, u64)>,
    n: int,
    exclusions: Seq<(u64, u64)>,
    x: (u64, u64),
)
    requires
        0 <= n < spans.len(),
    ensures
        mixed(spans, n + 1, exclusions, x) + hits(spans[n], exclusions.drop_first(), x) == mixed(
            spans,
            n,
            exclusions,
            x,
        ) + hits(spans[n], exclusions, x),
    decreases spans.len(),
{
    let rest = spans.drop_last();
    if n < rest.len() {
        lemma_mixed_step(rest, n, exclusions, x);
    } else {
        lemma_mixed_same(rest, n, exclusions, x);
    }
}

proof fn lemma_mixed_same(
    spans: Seq<(u64, u64)>,
    n: int,
    exclusions: Seq<(u64, u64)>,
    x: (u64, u64),
)
    requires
        n >= spans.len(),
    ensures
        mixed(spans, n + 1, exclusions, x) == mixed(spans, n, exclusions, x),
    decreases spans.len(),
{
    if spans.len() > 0 {
        lemma_mixed_same(spans.drop_last(), n, exclusions, x);
    }
}

proof fn lemma_total_update(
    spans: Seq<(u64, u64)>,
    i: int,
    s: (u64, u64),
    exclusions: Seq<(u64, u64)>,
    x: (u64, u64),
)
    requires
        0 <= i < spans.len(),
    ensures
        total(spans.update(i, s), exclusions, x) + hits(spans[i], exclusions, x) == total(
            spans,
            exclusions,
            x,
        ) + hits(s, exclusions, x),
    decreases spans.len(),
{
    let rest = spans.drop_last();
    if i < rest.len() {
        lemma_total_update(rest, i, s, exclusions, x);
        assert(spans.update(i, s).drop_last() =~= rest.update(i, s));
    } else {
        assert(spans.update(i, s).drop_last() =~= rest);
    }
}

proof fn lemma_total_push(
    spans: Seq<(u64, u64)>,
    s: (u64, u64),
    exclusions: Seq<(u64, u64)>,
    x: (u64, u64),
)
    ensures
        total(spans.push(s), exclusions, x) == total(spans, exclusions, x) + hits(
            s,
            exclusions,
            x,
        ),
{
    assert(spans.push(s).drop_last() =~= spans);
}

/// An empty span has no pieces that are not empty.
proof fn lemma_hits_empty(a: u64, exclusions: Seq<(u64, u64)>, x: (u64, u64))
    requires
        x.0 < x.1,
    ensures
        hits((a, a), exclusions, x) == 0,
{
    lemma_hits((a, a), exclusions, x);
}

/// Cutting an exclusion out of the first `n` runs makes no piece that was not to
/// come, however little room there is.
proof fn lemma_carve_first_total(
    runs: Seq<(u64, u64)>,
    n: nat,
    exclusions: Seq<(u64, u64)>,
    room: nat,
    x: (u64, u64),
)
    requires
        exclusions.len() > 0,
        holds_something(exclusions[0]),
        n <= runs.len() <= room,
        x.0 < x.1,
    ensures
        total(
            carve_first(runs, n, excluded_span(exclusions[0]), room),
            exclusions.drop_first(),
            x,
        ) <= mixed(runs, n as int, exclusions, x),
    decreases n,
{
    let ex = excluded_span(exclusions[0]);
    let rest = exclusions.drop_first();
    if n == 0 {
        lemma_mixed(runs, exclusions, x);
    } else {
        let m = (n - 1) as nat;
        let state = carve_first(runs, m, ex, room);
        let s = runs[m as int];
        lemma_carve_first_total(runs, m, exclusions, room, x);
        lemma_carve_first_len(runs, m, ex, room);
        lemma_mixed_step(runs, m as int, exclusions, x);
        assert(state[m as int] == s);
        let left = left_of(s, ex);
        let right = right_of(s, ex);
        lemma_total_update(state, m as int, left, rest, x);
        lemma_total_update(state, m as int, right, rest, x);
        lemma_total_update(state, m as int, (s.0, s.0), rest, x);
        lemma_total_push(state.update(m as int, left), right, rest, x);
        lemma_hits_empty(s.0, rest, x);
    }
}

/// Cutting nothing out changes nothing.
proof fn lemma_total_nothing(
    spans: Seq<(u64, u64)>,
    exclusions: Seq<(u64, u64)>,
    x: (u64, u64),
)
    requires
        exclusions.len() > 0,
        !holds_something(exclusions[0]),
    ensures
        total(spans, exclusions, x) == total(spans, exclusions.drop_first(), x),
    decreases spans.len(),
{
    if spans.len() > 0 {
        lemma_total_nothing(spans.drop_last(), exclusions, x);
    }
}

/// Carving makes no piece that was not to come, however little room there is.
proof fn lemma_carve_all_total(
    runs: Seq<(u64, u64)>,
    exclusions: Seq<(u64, u64)>,
    k: int,
    room: nat,
    x: (u64, u64),
)
    requires
        runs.len() <= room,
        0 <= k <= exclusions.len(),
        x.0 < x.1,
    ensures
        total(carve_all(runs, exclusions.take(k), room), exclusions.skip(k), x) <= total(
            runs,
            exclusions,
            x,
        ),
    decreases k,
{
    if k == 0 {
        assert(exclusions.take(0) =~= Seq::empty());
        assert(exclusions.skip(0) =~= exclusions);
    } else {
        let before = exclusions.take(k - 1);
        let after = exclusions.skip(k - 1);
        let state = carve_all(runs, before, room);
        assert(exclusions.take(k).drop_last() =~= before);
        assert(exclusions.take(k).last() == after[0]);
        assert(after.drop_first() =~= exclusions.skip(k));
        lemma_carve_all_total(runs, exclusions, k - 1, room, x);
        lemma_carve_all_len(runs, before, room);
        if holds_something(after[0]) {
            lemma_carve_first_total(state, state.len(), after, room, x);
            lemma_mixed(state, after, x);
        } else {
            lemma_total_nothing(state, after, x);
        }
    }
}

proof fn lemma_carve_all_ordered(runs: Seq<(u64, u64)>, exclusions: Seq<(u64, u64)>, room: nat)
    requires
        ordered(runs),
        runs.len() <= room,
    ensures
        ordered(carve_all(runs, exclusions, room)),
    decreases exclusions.len(),
{
    if exclusions.len() > 0 {
        let rest = exclusions.drop_last();
        let before = carve_all(runs, rest, room);
        lemma_carve_all_ordered(runs, rest, room);
        lemma_carve_all_len(runs, rest, room);
        lemma_carve_first_ordered(before, before.len(), excluded_span(exclusions.last()), room);
    }
}

/// A span as start and length.
pub open spec fn as_run(s: (u64, u64)) -> (u64, u64) {
    (s.0, (s.1 - s.0) as u64)
}

/// Which span a compacted run comes from.
proof fn lemma_compacted_from(runs: Seq<(u64, u64)>, i: int) -> (j: int)
    requires
        0 <= i < compacted(runs).len(),
    ensures
        0 <= j < runs.len(),
        runs[j].0 < runs[j].1,
        compacted(runs)[i] == as_run(runs[j]),
    decreases runs.len(),
{
    if i < compacted(runs.drop_last()).len() {
        lemma_compacted_from(runs.drop_last(), i)
    } else {
        runs.len() - 1
    }
}

/// Which region a usable span comes from.
proof fn lemma_span_from(regions: Seq<MemoryRegion>, k: int) -> (r: MemoryRegion)
    requires
        0 <= k < usable_spans(regions).len(),
    ensures
        regions.contains(r),
        r.len > 0,
        r.kind == MemoryKind::Usable,
        usable_spans(regions)[k] == span(r),
{
    let usable = summary::usable_regions(regions);
    summary::lemma_kept(regions, |r: MemoryRegion| r.len > 0 && r.kind == MemoryKind::Usable);
    assert(usable.contains(usable[k]));
    usable[k]
}

proof fn lemma_usable_spans_ordered(regions: Seq<MemoryRegion>)
    ensures
        ordered(usable_spans(regions)),
{
    assert forall|k: int| 0 <= k < usable_spans(regions).len() implies (
    #[trigger] usable_spans(regions)[k]).0 <= usable_spans(regions)[k].1 by {
        let r = lemma_span_from(regions, k);
    }
}

/// How often a run is among those that carving leaves.
proof fn lemma_compacted_often(spans: Seq<(u64, u64)>, x: (u64, u64))
    requires
        x.0 < x.1,
        ordered(spans),
    ensures
        sequences::often(compacted(spans), as_run(x)) == total(spans, Seq::empty(), x),
    decreases spans.len(),
{
    if spans.len() > 0 {
        let rest = spans.drop_last();
        let s = spans.last();
        assert(ordered(rest)) by {
            assert forall|i: int| 0 <= i < rest.len() implies (#[trigger] rest[i]).0
                <= rest[i].1 by {
                assert(rest[i] == spans[i]);
            }
        }
        lemma_compacted_often(rest, x);
        assert(spans[spans.len() - 1].0 <= spans[spans.len() - 1].1);
        if s.0 < s.1 {
            sequences::lemma_often_push(compacted(rest), as_run(s), as_run(x));
        }
    }
}

/// A piece of some usable region is among the runs that exist, as often as it is
/// a piece.
proof fn lemma_all_often(regions: Seq<MemoryRegion>, exclusions: Seq<(u64, u64)>, x: (u64, u64))
    requires
        x.0 < x.1,
    ensures
        total(usable_spans(regions), exclusions, x) <= sequences::often(
            runs::all_runs(regions, exclusions),
            as_run(x),
        ),
    decreases regions.len(),
{
    if regions.len() > 0 {
        let rest = regions.drop_last();
        let r = regions.last();
        let own = runs::region_runs(r, exclusions);
        lemma_all_often(rest, exclusions, x);
        sequences::lemma_often_add(runs::all_runs(rest, exclusions), own, as_run(x));
        if runs::is_usable(r) {
            let s = span(r);
            assert(usable_spans(regions) =~= usable_spans(rest).push(s));
            lemma_total_push(usable_spans(rest), s, exclusions, x);
            lemma_hits(s, exclusions, x);
            if hits(s, exclusions, x) > 0 {
                let list = runs::starts(s, exclusions, exclusions.len());
                runs::lemma_is_run(s, exclusions, x);
                runs::lemma_starts(s, exclusions);
                assert(list.contains(x.0));
                let j = choose|j: int| 0 <= j < list.len() && list[j] == x.0;
                assert(own[j] == as_run(x));
                sequences::lemma_often_contains(own, as_run(x));
            }
        } else {
            assert(usable_spans(regions) =~= usable_spans(rest));
        }
    }
}

/// The first of some spans have no more pieces than all of them.
proof fn lemma_total_prefix(
    spans: Seq<(u64, u64)>,
    n: int,
    exclusions: Seq<(u64, u64)>,
    x: (u64, u64),
)
    requires
        0 <= n <= spans.len(),
    ensures
        total(spans.take(n), exclusions, x) <= total(spans, exclusions, x),
    decreases spans.len(),
{
    if n < spans.len() {
        assert(spans.drop_last().take(n) =~= spans.take(n));
        lemma_total_prefix(spans.drop_last(), n, exclusions, x);
    } else {
        assert(spans.take(n) =~= spans);
    }
}

/// Every run that carving leaves exists, as often as carving leaves it.
proof fn lemma_kept_often(
    regions: Seq<MemoryRegion>,
    exclusions: Seq<(u64, u64)>,
    room: nat,
    run: (u64, u64),
)
    ensures
        sequences::often(runs_of(regions, exclusions, room), run) <= sequences::often(
            runs::all_runs(regions, exclusions),
            run,
        ),
{
    let kept = runs_of(regions, exclusions, room);
    let spans = usable_spans(regions);
    let first = fitting_spans(regions, room);
    let state = carved(regions, exclusions, room);
    sequences::lemma_often_contains(kept, run);
    if kept.contains(run) {
        let i = choose|i: int| 0 <= i < kept.len() && kept[i] == run;
        let j = lemma_compacted_from(state, i);
        let x = state[j];
        lemma_usable_spans_ordered(regions);
        lemma_carve_all_ordered(first, exclusions, room);
        lemma_compacted_often(state, x);
        assert(exclusions.take(exclusions.len() as int) =~= exclusions);
        assert(exclusions.skip(exclusions.len() as int) =~= Seq::empty());
        lemma_carve_all_total(first, exclusions, exclusions.len() as int, room, x);
        lemma_total_prefix(spans, first.len() as int, exclusions, x);
        lemma_all_often(regions, exclusions, x);
    }
}

/// What topping up with the first of `all` brings in.
proof fn lemma_topped_up(
    kept: Seq<(u64, u64)>,
    n: int,
    all: Seq<(u64, u64)>,
    room: nat,
    run: (u64, u64),
)
    requires
        kept.len() <= room,
        0 <= n <= all.len(),
        sequences::often(kept, run) <= sequences::often(all, run),
    ensures
        kept.len() <= topped_up(kept, all.take(n), all, room).len() <= room,
        sequences::often(topped_up(kept, all.take(n), all, room), run) <= sequences::often(
            all,
            run,
        ),
        topped_up(kept, all.take(n), all, room).len() < room ==> sequences::often(
            topped_up(kept, all.take(n), all, room),
            run,
        ) >= sequences::often(all.take(n), run),
    decreases n,
{
    if n > 0 {
        let before = topped_up(kept, all.take(n - 1), all, room);
        assert(all.take(n).drop_last() =~= all.take(n - 1));
        lemma_topped_up(kept, n - 1, all, room, run);
        sequences::lemma_often_push(before, all[n - 1], run);
        sequences::lemma_often_prefix(all, n, run);
    }
}

/// No run is handed back more often than it exists, and where there is room left
/// none less often.
proof fn lemma_handed_back(
    regions: Seq<MemoryRegion>,
    exclusions: Seq<(u64, u64)>,
    room: nat,
    run: (u64, u64),
)
    ensures
        handed_back(regions, exclusions, room).len() <= room,
        sequences::often(handed_back(regions, exclusions, room), run) <= sequences::often(
            runs::all_runs(regions, exclusions),
            run,
        ),
        handed_back(regions, exclusions, room).len() < room ==> sequences::often(
            handed_back(regions, exclusions, room),
            run,
        ) == sequences::often(runs::all_runs(regions, exclusions), run),
{
    let all = runs::all_runs(regions, exclusions);
    lemma_kept_often(regions, exclusions, room, run);
    lemma_carve_all_len(fitting_spans(regions, room), exclusions, room);
    lemma_compacted_len(carved(regions, exclusions, room));
    assert(all.take(all.len() as int) =~= all);
    lemma_topped_up(runs_of(regions, exclusions, room), all.len() as int, all, room, run);
}

proof fn lemma_compacted_len(spans: Seq<(u64, u64)>)
    ensures
        compacted(spans).len() <= spans.len(),
    decreases spans.len(),
{
    if spans.len() > 0 {
        lemma_compacted_len(spans.drop_last());
    }
}

/// Every run that exists is free and whole: it is not empty, it lies inside one
/// region the firmware called usable, it shares no address with anything excluded,
/// and what lies before and behind it is excluded or no part of the region.
pub proof fn law_every_run_is_free_and_whole(
    regions: Seq<MemoryRegion>,
    exclusions: Seq<(u64, u64)>,
    i: int,
)
    requires
        0 <= i < runs::all_runs(regions, exclusions).len(),
    ensures
        ({
            let (start, len) = runs::all_runs(regions, exclusions)[i];
            &&& len > 0
            &&& exists|r: MemoryRegion| #[trigger]
                regions.contains(r) && r.kind == MemoryKind::Usable && r.start <= start && start
                    + len <= r.limit() && (start == r.start || is_excluded(exclusions, start - 1))
                    && (start + len == r.limit() || is_excluded(exclusions, start + len))
            &&& forall|e: int|
                0 <= e < exclusions.len() && (#[trigger] exclusions[e]).1 > 0 ==> start + len
                    <= exclusions[e].0 || exclusions[e].0 + exclusions[e].1 <= start
        }),
{
    let k = runs::lemma_all_runs_from(regions, exclusions, i);
    let (start, len) = runs::all_runs(regions, exclusions)[i];
    let r = regions[k];
    let s = span(r);
    runs::lemma_run_is_free(s, exclusions, start);
    runs::lemma_ends(s, exclusions, start);
    assert forall|e: int| 0 <= e < exclusions.len() && (#[trigger] exclusions[e]).1 > 0 implies (
    start + len <= exclusions[e].0 || exclusions[e].0 + exclusions[e].1 <= start) by {
        if holds_something(exclusions[e]) {
            assert(!overlap((start, (start + len) as u64), excluded_span(exclusions[e])));
        }
    }
    if start != r.start {
        let e = choose|e: int|
            0 <= e < exclusions.len() && holds(#[trigger] exclusions[e], (start - 1) as u64);
        assert(is_excluded(exclusions, start - 1));
    }
    if start + len != r.limit() {
        let e = choose|e: int|
            0 <= e < exclusions.len() && holds_something(#[trigger] exclusions[e])
                && excluded_span(exclusions[e]).0 == start + len;
        assert(is_excluded(exclusions, start + len));
    }
    assert(regions.contains(r));
}

/// Whether something excluded holds an address.
pub open spec fn is_excluded(exclusions: Seq<(u64, u64)>, a: int) -> bool {
    exists|e: int|
        0 <= e < exclusions.len() && (#[trigger] exclusions[e]).0 <= a < exclusions[e].0
            + exclusions[e].1
}

/// Every run handed back is one of those that exist, and so genuinely free. This
/// holds however little room there was.
pub proof fn law_every_run_handed_back_is_free(
    regions: Seq<MemoryRegion>,
    exclusions: Seq<(u64, u64)>,
    room: nat,
    i: int,
)
    requires
        0 <= i < handed_back(regions, exclusions, room).len(),
    ensures
        ({
            let (start, len) = handed_back(regions, exclusions, room)[i];
            &&& runs::all_runs(regions, exclusions).contains((start, len))
            &&& len > 0
            &&& exists|r: MemoryRegion| #[trigger]
                regions.contains(r) && r.kind == MemoryKind::Usable && r.start <= start && start
                    + len <= r.limit()
            &&& forall|e: int|
                0 <= e < exclusions.len() && (#[trigger] exclusions[e]).1 > 0 ==> start + len
                    <= exclusions[e].0 || exclusions[e].0 + exclusions[e].1 <= start
        }),
{
    let all = runs::all_runs(regions, exclusions);
    let written = handed_back(regions, exclusions, room);
    let run = written[i];
    lemma_handed_back(regions, exclusions, room, run);
    sequences::lemma_often_contains(written, run);
    sequences::lemma_often_contains(all, run);
    assert(all.contains(run));
    let j = choose|j: int| 0 <= j < all.len() && all[j] == run;
    law_every_run_is_free_and_whole(regions, exclusions, j);
}

/// The address at which the run begins that holds a free one.
proof fn lemma_begin_below(s: (u64, u64), exclusions: Seq<(u64, u64)>, a: u64) -> (x: u64)
    requires
        s.0 <= a < s.1,
        runs::is_clear(exclusions, a),
    ensures
        runs::begins(s, exclusions, x),
        x <= a < runs::ends(s, exclusions, x),
    decreases a,
{
    let x = lemma_first_clear(s, exclusions, a);
    runs::lemma_ends(s, exclusions, x);
    let end = runs::ends(s, exclusions, x);
    if end <= a {
        let e = choose|e: int|
            0 <= e < exclusions.len() && holds_something(#[trigger] exclusions[e])
                && excluded_span(exclusions[e]).0 == end;
        assert(runs::is_clear(exclusions, end));
        assert(holds(exclusions[e], end));
    }
    x
}

/// The lowest address from which on everything up to a free one is free.
proof fn lemma_first_clear(s: (u64, u64), exclusions: Seq<(u64, u64)>, a: u64) -> (x: u64)
    requires
        s.0 <= a < s.1,
        runs::is_clear(exclusions, a),
    ensures
        runs::begins(s, exclusions, x),
        x <= a,
        forall|b: u64| x <= b <= a ==> #[trigger] runs::is_clear(exclusions, b),
    decreases a,
{
    if a == s.0 || !runs::is_clear(exclusions, (a - 1) as u64) {
        a
    } else {
        lemma_first_clear(s, exclusions, (a - 1) as u64)
    }
}

/// The count is the truth: an address is in one of the runs that are counted
/// exactly when the firmware called it usable and nothing excluded holds it.
pub proof fn law_the_count_is_the_truth(
    regions: Seq<MemoryRegion>,
    exclusions: Seq<(u64, u64)>,
    a: u64,
)
    ensures
        in_runs(runs::all_runs(regions, exclusions), a) <==> {
            &&& exists|r: MemoryRegion| #[trigger]
                regions.contains(r) && r.kind == MemoryKind::Usable && r.start <= a < r.limit()
            &&& !is_excluded(exclusions, a as int)
        },
{
    let all = runs::all_runs(regions, exclusions);
    if in_runs(all, a) {
        let i = choose|i: int|
            0 <= i < all.len() && (#[trigger] all[i]).0 <= a < all[i].0 + all[i].1;
        law_every_run_is_free_and_whole(regions, exclusions, i);
    }
    if (exists|r: MemoryRegion| #[trigger]
        regions.contains(r) && r.kind == MemoryKind::Usable && r.start <= a < r.limit())
        && !is_excluded(exclusions, a as int) {
        let r = choose|r: MemoryRegion| #[trigger]
            regions.contains(r) && r.kind == MemoryKind::Usable && r.start <= a < r.limit();
        let k = choose|k: int| 0 <= k < regions.len() && regions[k] == r;
        assert(runs::is_clear(exclusions, a)) by {
            assert forall|e: int| 0 <= e < exclusions.len() implies !holds(
                #[trigger] exclusions[e],
                a,
            ) by {}
        }
        let x = lemma_begin_below(span(r), exclusions, a);
        let i = runs::lemma_all_runs_to(regions, exclusions, k, x);
        assert(all[i].0 <= a < all[i].0 + all[i].1);
    }
}

/// With nothing excluded the count is the number of usable regions. A region that
/// starts at the last address of all holds nothing that can be handed back, so
/// there must be none.
pub proof fn law_with_nothing_excluded_every_usable_region_is_counted(regions: Seq<MemoryRegion>)
    requires
        forall|r: MemoryRegion| #[trigger] regions.contains(r) ==> r.start < u64::MAX,
    ensures
        runs::all_runs(regions, Seq::empty()).len() == summary::usable_regions(regions).len(),
    decreases regions.len(),
{
    if regions.len() > 0 {
        let rest = regions.drop_last();
        sequences::lemma_last_contains(regions);
        assert forall|r: MemoryRegion| #[trigger] rest.contains(r) implies r.start < u64::MAX by {
            assert(regions.contains(r));
        }
        law_with_nothing_excluded_every_usable_region_is_counted(rest);
        assert(regions.contains(regions.last()));
    }
}

/// Whether no two usable regions share an address.
pub open spec fn separate(regions: Seq<MemoryRegion>) -> bool {
    forall|i: int, j: int|
        0 <= i < j < regions.len() && runs::is_usable(#[trigger] regions[i]) && runs::is_usable(
            #[trigger] regions[j],
        ) ==> !overlap(span(regions[i]), span(regions[j]))
}

/// Whether two runs, given as start and length, share no address.
pub open spec fn disjoint(a: (u64, u64), b: (u64, u64)) -> bool {
    a.0 + a.1 <= b.0 || b.0 + b.1 <= a.0
}

/// Two runs of one span that begin at different addresses share none.
proof fn lemma_runs_of_a_span(s: (u64, u64), exclusions: Seq<(u64, u64)>, x: u64, y: u64)
    requires
        runs::begins(s, exclusions, x),
        runs::begins(s, exclusions, y),
        x < y,
    ensures
        runs::ends(s, exclusions, x) <= y,
{
    runs::lemma_run_is_free(s, exclusions, x);
    let end = runs::ends(s, exclusions, x);
    if y < end {
        let e = choose|e: int|
            0 <= e < exclusions.len() && holds(#[trigger] exclusions[e], (y - 1) as u64);
        assert(!overlap((x, end), excluded_span(exclusions[e])));
    }
}

/// No two of the runs that exist share an address, where no two usable regions do.
pub proof fn law_no_two_runs_overlap(
    regions: Seq<MemoryRegion>,
    exclusions: Seq<(u64, u64)>,
    i: int,
    j: int,
)
    requires
        separate(regions),
        0 <= i < j < runs::all_runs(regions, exclusions).len(),
    ensures
        disjoint(runs::all_runs(regions, exclusions)[i], runs::all_runs(regions, exclusions)[j]),
    decreases regions.len(),
{
    let rest = regions.drop_last();
    let last = regions.len() - 1;
    let before = runs::all_runs(rest, exclusions);
    let s = span(regions.last());
    if j < before.len() {
        assert forall|a: int, b: int|
            0 <= a < b < rest.len() && runs::is_usable(#[trigger] rest[a]) && runs::is_usable(
                #[trigger] rest[b],
            ) implies !overlap(span(rest[a]), span(rest[b])) by {
            assert(rest[a] == regions[a] && rest[b] == regions[b]);
        }
        law_no_two_runs_overlap(rest, exclusions, i, j);
    } else {
        let list = runs::starts(s, exclusions, exclusions.len());
        runs::lemma_starts(s, exclusions);
        let y = list[j - before.len()];
        assert(list.contains(y));
        runs::lemma_run_is_free(s, exclusions, y);
        if i < before.len() {
            let k = runs::lemma_all_runs_from(rest, exclusions, i);
            let (x, _) = before[i];
            assert(rest[k] == regions[k]);
            runs::lemma_run_is_free(span(regions[k]), exclusions, x);
            assert(!overlap(span(regions[k]), span(regions[last])));
        } else {
            let x = list[i - before.len()];
            assert(list.contains(x));
            runs::lemma_run_is_free(s, exclusions, x);
            if x < y {
                lemma_runs_of_a_span(s, exclusions, x, y);
            } else {
                lemma_runs_of_a_span(s, exclusions, y, x);
            }
        }
    }
}

/// As many runs as there is room for are handed back, none of them more often than
/// it exists: all of them where they fit.
pub proof fn law_as_many_runs_as_fit_are_handed_back(
    regions: Seq<MemoryRegion>,
    exclusions: Seq<(u64, u64)>,
    room: nat,
    run: (u64, u64),
)
    ensures
        ({
            let all = runs::all_runs(regions, exclusions);
            let written = handed_back(regions, exclusions, room);
            &&& written.len() == (if all.len() <= room {
                all.len()
            } else {
                room
            })
            &&& sequences::often(written, run) <= sequences::often(all, run)
            &&& all.len() <= room ==> sequences::often(written, run) == sequences::often(all, run)
        }),
{
    let all = runs::all_runs(regions, exclusions);
    let written = handed_back(regions, exclusions, room);
    assert forall|y: (u64, u64)| #[trigger]
        sequences::often(written, y) <= sequences::often(all, y) by {
        lemma_handed_back(regions, exclusions, room, y);
    }
    lemma_handed_back(regions, exclusions, room, run);
    sequences::lemma_often_len(written, all);
    if written.len() < room {
        assert forall|y: (u64, u64)| #[trigger]
            sequences::often(all, y) <= sequences::often(written, y) by {
            lemma_handed_back(regions, exclusions, room, y);
        }
        sequences::lemma_often_len(all, written);
    }
}

/// No memory is handed back twice, where no two usable regions share an address.
pub proof fn law_no_memory_is_handed_back_twice(
    regions: Seq<MemoryRegion>,
    exclusions: Seq<(u64, u64)>,
    room: nat,
    i: int,
    j: int,
)
    requires
        separate(regions),
        0 <= i < j < handed_back(regions, exclusions, room).len(),
    ensures
        disjoint(
            handed_back(regions, exclusions, room)[i],
            handed_back(regions, exclusions, room)[j],
        ),
{
    let all = runs::all_runs(regions, exclusions);
    let written = handed_back(regions, exclusions, room);
    if written[i] == written[j] {
        sequences::lemma_often_twice(written, i, j);
        lemma_handed_back(regions, exclusions, room, written[i]);
        let (a, b) = sequences::lemma_twice_often(all, written[i]);
        law_no_two_runs_overlap(regions, exclusions, a, b);
    } else {
        law_every_run_handed_back_is_free(regions, exclusions, room, i);
        law_every_run_handed_back_is_free(regions, exclusions, room, j);
        let a = choose|a: int| 0 <= a < all.len() && all[a] == written[i];
        let b = choose|b: int| 0 <= b < all.len() && all[b] == written[j];
        if a < b {
            law_no_two_runs_overlap(regions, exclusions, a, b);
        } else {
            law_no_two_runs_overlap(regions, exclusions, b, a);
        }
    }
}

proof fn lemma_longest(runs: Seq<(u64, u64)>)
    ensures
        longest(runs) is None <==> runs.len() == 0,
        longest(runs) matches Some(best) ==> runs.contains(best) && forall|i: int|
            0 <= i < runs.len() ==> (#[trigger] runs[i]).1 <= best.1,
    decreases runs.len(),
{
    if runs.len() > 0 {
        sequences::lemma_last_contains(runs);
        lemma_longest(runs.drop_last());
        let (_, most) = longest(runs)->0;
        assert forall|i: int| 0 <= i < runs.len() implies (#[trigger] runs[i]).1 <= most by {
            if i < runs.len() - 1 {
                assert(runs.drop_last()[i] == runs[i]);
            }
        }
    }
}

/// The largest free run is one of those that exist, and none of them is longer; it
/// is absent exactly when there are none.
pub proof fn law_the_largest_run_is_a_run_and_largest(
    regions: Seq<MemoryRegion>,
    exclusions: Seq<(u64, u64)>,
)
    ensures
        ({
            let all = runs::all_runs(regions, exclusions);
            &&& largest(regions, exclusions) is None <==> all.len() == 0
            &&& largest(regions, exclusions) matches Some(best) ==> all.contains(best) && forall|
                i: int,
            |
                0 <= i < all.len() ==> (#[trigger] all[i]).1 <= best.1
        }),
{
    let all = runs::all_runs(regions, exclusions);
    let kept = runs_of(regions, exclusions, MAX_FREE_RUNS as nat);
    lemma_longest(kept + all);
    if kept.len() > 0 {
        lemma_kept_often(regions, exclusions, MAX_FREE_RUNS as nat, kept[0]);
        sequences::lemma_often_contains(kept, kept[0]);
        sequences::lemma_often_contains(all, kept[0]);
    }
    if let Some(best) = largest(regions, exclusions) {
        let j = choose|j: int| 0 <= j < (kept + all).len() && (kept + all)[j] == best;
        if j < kept.len() {
            assert(kept[j] == best);
            lemma_kept_often(regions, exclusions, MAX_FREE_RUNS as nat, best);
            sequences::lemma_often_contains(kept, best);
            sequences::lemma_often_contains(all, best);
        } else {
            assert(all[j - kept.len()] == best);
        }
        assert forall|i: int| 0 <= i < all.len() implies (#[trigger] all[i]).1 <= best.1 by {
            assert((kept + all)[kept.len() + i] == all[i]);
        }
    }
}

/// One region more adds exactly its own free runs, each once: the stretches of it
/// that hold nothing excluded and cannot be made longer on either side. A region
/// that is not usable adds none.
pub proof fn law_a_region_adds_its_own_runs(
    regions: Seq<MemoryRegion>,
    exclusions: Seq<(u64, u64)>,
    r: MemoryRegion,
    run: (u64, u64),
)
    ensures
        runs::all_runs(Seq::empty(), exclusions).len() == 0,
        ({
            let (start, len) = run;
            let limit = if r.start + r.len <= u64::MAX {
                r.start + r.len
            } else {
                u64::MAX as int
            };
            let own = r.kind == MemoryKind::Usable && len > 0 && r.start <= start && start + len
                <= limit && (forall|a: int|
                start <= a < start + len ==> !#[trigger] is_excluded(exclusions, a)) && (start
                == r.start || is_excluded(exclusions, start - 1)) && (start + len == limit
                || is_excluded(exclusions, start + len));
            sequences::often(runs::all_runs(regions.push(r), exclusions), run) == sequences::often(
                runs::all_runs(regions, exclusions),
                run,
            ) + (if own {
                1nat
            } else {
                0
            })
        }),
{
    let all = runs::all_runs(regions, exclusions);
    let more = runs::region_runs(r, exclusions);
    let (start, len) = run;
    let s = span(r);
    assert(regions.push(r).drop_last() =~= regions);
    assert(runs::all_runs(regions.push(r), exclusions) == all + more);
    sequences::lemma_often_add(all, more, run);
    let list = runs::starts(s, exclusions, exclusions.len());
    runs::lemma_starts(s, exclusions);
    assert forall|i: int, j: int| 0 <= i < j < more.len() implies more[i] != more[j] by {
        assert(list[i] != list[j]);
    }
    lemma_at_most_once(more, run);
    sequences::lemma_often_contains(more, run);
    let is_run = runs::is_usable(r) && runs::begins(s, exclusions, start) && run == runs::run_at(
        s,
        exclusions,
        start,
    );
    assert(more.contains(run) <==> is_run) by {
        if more.contains(run) {
            let i = choose|i: int| 0 <= i < more.len() && more[i] == run;
            assert(more[i] == runs::run_at(s, exclusions, list[i]));
            assert(list.contains(list[i]));
        }
        if is_run {
            assert(list.contains(start));
            let i = choose|i: int| 0 <= i < list.len() && list[i] == start;
            assert(more[i] == run);
        }
    }
    lemma_holds_is_excluded(exclusions);
    if is_run {
        runs::lemma_run_is_free(s, exclusions, start);
        runs::lemma_ends(s, exclusions, start);
        assert forall|a: int| start <= a < start + len implies !#[trigger] is_excluded(
            exclusions,
            a,
        ) by {
            if is_excluded(exclusions, a) {
                let e = choose|e: int|
                    0 <= e < exclusions.len() && (#[trigger] exclusions[e]).0 <= a < exclusions[e].0
                        + exclusions[e].1;
                assert(holds_something(exclusions[e]));
                assert(!overlap((start, (start + len) as u64), excluded_span(exclusions[e])));
            }
        }
        if start + len != r.limit() {
            let e = choose|e: int|
                0 <= e < exclusions.len() && holds_something(#[trigger] exclusions[e])
                    && excluded_span(exclusions[e]).0 == start + len;
            assert(is_excluded(exclusions, start + len));
        }
        if start != r.start {
            assert(!runs::is_clear(exclusions, (start - 1) as u64));
            let e = choose|e: int|
                0 <= e < exclusions.len() && holds(#[trigger] exclusions[e], (start - 1) as u64);
            assert(is_excluded(exclusions, start - 1));
        }
    }
    if runs::is_usable(r) && len > 0 && r.start <= start && start + len <= r.limit() && (forall|
        a: int,
    |
        start <= a < start + len ==> !#[trigger] is_excluded(exclusions, a)) && (start == r.start
        || is_excluded(exclusions, start - 1)) && (start + len == r.limit() || is_excluded(
        exclusions,
        start + len,
    )) {
        lemma_whole_is_run(s, exclusions, (start, (start + len) as u64));
    }
}

/// What no two elements of a sequence share occurs in it once at most.
proof fn lemma_at_most_once(s: Seq<(u64, u64)>, x: (u64, u64))
    requires
        forall|i: int, j: int| 0 <= i < j < s.len() ==> s[i] != s[j],
    ensures
        sequences::often(s, x) <= 1,
{
    if sequences::often(s, x) >= 2 {
        let at = sequences::lemma_twice_often(s, x);
        assert(s[at.0] != s[at.1]);
    }
}

/// What an exclusion holds is excluded.
proof fn lemma_holds_is_excluded(exclusions: Seq<(u64, u64)>)
    ensures
        forall|e: int, a: u64|
            0 <= e < exclusions.len() && #[trigger] holds(exclusions[e], a) ==> is_excluded(
                exclusions,
                a as int,
            ),
        forall|a: u64|
            a < u64::MAX && #[trigger] is_excluded(exclusions, a as int) ==> exists|e: int|
                0 <= e < exclusions.len() && holds(#[trigger] exclusions[e], a),
{
    assert forall|a: u64|
        a < u64::MAX && #[trigger] is_excluded(exclusions, a as int) implies exists|e: int|
        0 <= e < exclusions.len() && holds(#[trigger] exclusions[e], a) by {
        let e = choose|e: int|
            0 <= e < exclusions.len() && (#[trigger] exclusions[e]).0 <= a < exclusions[e].0
                + exclusions[e].1;
        assert(holds(exclusions[e], a));
    }
}

/// A free stretch of a span that cannot be made longer is one of its runs.
proof fn lemma_whole_is_run(s: (u64, u64), exclusions: Seq<(u64, u64)>, p: (u64, u64))
    requires
        s.0 <= p.0 < p.1 <= s.1,
        forall|a: int| p.0 <= a < p.1 ==> !#[trigger] is_excluded(exclusions, a),
        p.0 == s.0 || is_excluded(exclusions, p.0 - 1),
        p.1 == s.1 || is_excluded(exclusions, p.1 as int),
    ensures
        runs::begins(s, exclusions, p.0),
        runs::ends(s, exclusions, p.0) == p.1,
{
    lemma_holds_is_excluded(exclusions);
    assert forall|e: int|
        0 <= e < exclusions.len() && holds_something(#[trigger] exclusions[e]) implies !overlap(
        p,
        excluded_span(exclusions[e]),
    ) by {
        let ex = excluded_span(exclusions[e]);
        if overlap(p, ex) {
            let a = if p.0 < ex.0 {
                ex.0
            } else {
                p.0
            };
            assert(holds(exclusions[e], a));
            assert(is_excluded(exclusions, a as int));
        }
    }
    if p.0 != s.0 {
        let a = (p.0 - 1) as u64;
        assert(is_excluded(exclusions, a as int));
        let e = choose|e: int| 0 <= e < exclusions.len() && holds(#[trigger] exclusions[e], a);
        assert(holds_something(exclusions[e]));
        assert(!overlap(p, excluded_span(exclusions[e])));
        assert(excluded_span(exclusions[e]).1 == p.0);
    }
    if p.1 != s.1 {
        assert(is_excluded(exclusions, p.1 as int));
        let e = choose|e: int| 0 <= e < exclusions.len() && holds(#[trigger] exclusions[e], p.1);
        assert(holds_something(exclusions[e]));
        assert(!overlap(p, excluded_span(exclusions[e])));
        assert(excluded_span(exclusions[e]).0 == p.1);
    }
    runs::lemma_is_run(s, exclusions, p);
}

/// Of runs of the same length the first counts as the longest.
pub proof fn law_the_first_of_the_longest_is_taken(runs: Seq<(u64, u64)>, i: int)
    requires
        0 <= i < runs.len(),
        forall|j: int| 0 <= j < i ==> (#[trigger] runs[j]).1 < runs[i].1,
        forall|j: int| i <= j < runs.len() ==> (#[trigger] runs[j]).1 <= runs[i].1,
    ensures
        longest(runs) == Some(runs[i]),
    decreases runs.len(),
{
    let rest = runs.drop_last();
    lemma_longest(rest);
    if i < runs.len() - 1 {
        law_the_first_of_the_longest_is_taken(rest, i);
        assert(runs.last() == runs[runs.len() - 1]);
    } else {
        if let Some(best) = longest(rest) {
            let j = choose|j: int| 0 <= j < rest.len() && rest[j] == best;
            assert(runs[j] == best);
        }
    }
}

/// With room for one run only, an exclusion in the middle of a region leaves the
/// larger of the two pieces, and the lower one if they are equal.
pub proof fn law_the_larger_piece_is_kept(r: MemoryRegion, exclusion: (u64, u64))
    requires
        r.kind == MemoryKind::Usable,
        r.start < exclusion.0,
        exclusion.1 > 0,
        r.start + r.len <= u64::MAX,
        exclusion.0 + exclusion.1 < r.start + r.len,
    ensures
        ({
            let below = exclusion.0 - r.start;
            let above = r.start + r.len - (exclusion.0 + exclusion.1);
            handed_back(seq![r], seq![exclusion], 1) == seq![
                if below >= above {
                    (r.start, below as u64)
                } else {
                    ((exclusion.0 + exclusion.1) as u64, above as u64)
                },
            ]
        }),
{
    let regions = seq![r];
    let exclusions = seq![exclusion];
    let ex = excluded_span(exclusion);
    let s = span(r);
    assert(regions.drop_last() =~= Seq::empty());
    let usable = |r: MemoryRegion| r.len > 0 && r.kind == MemoryKind::Usable;
    assert(summary::kept(regions.drop_last(), usable) =~= Seq::empty());
    assert(summary::usable_regions(regions) =~= seq![r]);
    assert(fitting_spans(regions, 1) =~= seq![s]);
    assert(exclusions.drop_last() =~= Seq::empty());
    assert(carve_all(seq![s], exclusions.drop_last(), 1) == seq![s]);
    assert(carve_first(seq![s], 0, ex, 1) == seq![s]);
    assert(carve_first(seq![s], 1, ex, 1) == carve_one(seq![s], 0, ex, 1));
    let piece = if ex.0 - s.0 >= s.1 - ex.1 {
        (s.0, ex.0)
    } else {
        (ex.1, s.1)
    };
    assert(carved(regions, exclusions, 1) =~= seq![piece]);
    assert(seq![piece].drop_last() =~= Seq::empty());
    assert(compacted(seq![piece].drop_last()) =~= Seq::empty());
    let run = (piece.0, (piece.1 - piece.0) as u64);
    assert(runs_of(regions, exclusions, 1) =~= seq![run]);
    lemma_full(seq![run], runs::all_runs(regions, exclusions), runs::all_runs(regions, exclusions), 1);
}

/// Nothing is added where there is no room.
proof fn lemma_full(
    kept: Seq<(u64, u64)>,
    first: Seq<(u64, u64)>,
    all: Seq<(u64, u64)>,
    room: nat,
)
    requires
        kept.len() >= room,
    ensures
        topped_up(kept, first, all, room) == kept,
    decreases first.len(),
{
    if first.len() > 0 {
        lemma_full(kept, first.drop_last(), all, room);
    }
}

/// With nothing excluded the usable regions themselves are handed back, in map
/// order, as many as there is room for. A region that starts at the last address of
/// all holds nothing, so there must be none.
pub proof fn law_with_nothing_excluded_the_regions_are_handed_back(
    regions: Seq<MemoryRegion>,
    room: nat,
    i: int,
)
    requires
        forall|r: MemoryRegion| #[trigger] regions.contains(r) ==> r.start < u64::MAX,
        0 <= i < room,
        i < summary::usable_regions(regions).len(),
    ensures
        i < handed_back(regions, Seq::empty(), room).len(),
        ({
            let r = summary::usable_regions(regions)[i];
            let (start, len) = handed_back(regions, Seq::empty(), room)[i];
            start == r.start && start + len == (if r.start + r.len <= u64::MAX {
                r.start + r.len
            } else {
                u64::MAX as int
            })
        }),
{
    let none = Seq::<(u64, u64)>::empty();
    let usable = summary::usable_regions(regions);
    let spans = fitting_spans(regions, room);
    let all = runs::all_runs(regions, none);
    let kept = runs_of(regions, none, room);
    summary::lemma_kept(regions, |r: MemoryRegion| r.len > 0 && r.kind == MemoryKind::Usable);
    assert(carved(regions, none, room) == spans);
    assert forall|k: int| 0 <= k < spans.len() implies (#[trigger] spans[k]).0 < spans[k].1
        && spans[k] == span(usable[k]) by {
        assert(usable.contains(usable[k]));
        assert(regions.contains(usable[k]));
    }
    lemma_compacted_whole(spans);
    lemma_topped_up_keeps(kept, all, all, room);
    assert(handed_back(regions, none, room)[i] == kept[i]);
}

/// Spans that are not empty are all kept, in order.
proof fn lemma_compacted_whole(spans: Seq<(u64, u64)>)
    requires
        forall|k: int| 0 <= k < spans.len() ==> (#[trigger] spans[k]).0 < spans[k].1,
    ensures
        compacted(spans).len() == spans.len(),
        forall|k: int|
            0 <= k < spans.len() ==> #[trigger] compacted(spans)[k] == (
                spans[k].0,
                (spans[k].1 - spans[k].0) as u64,
            ),
    decreases spans.len(),
{
    if spans.len() > 0 {
        let rest = spans.drop_last();
        assert forall|k: int| 0 <= k < rest.len() implies (#[trigger] rest[k]).0 < rest[k].1 by {
            assert(rest[k] == spans[k]);
        }
        lemma_compacted_whole(rest);
        assert(spans.last() == spans[spans.len() - 1]);
        assert forall|k: int| 0 <= k < spans.len() implies #[trigger] compacted(spans)[k] == (
            spans[k].0,
            (spans[k].1 - spans[k].0) as u64,
        ) by {
            if k < rest.len() {
                assert(rest[k] == spans[k]);
                assert(compacted(spans)[k] == compacted(rest)[k]);
            }
        }
    }
}

/// Topping up leaves what is there in its place.
proof fn lemma_topped_up_keeps(
    kept: Seq<(u64, u64)>,
    first: Seq<(u64, u64)>,
    all: Seq<(u64, u64)>,
    room: nat,
)
    ensures
        topped_up(kept, first, all, room).len() >= kept.len(),
        forall|k: int|
            0 <= k < kept.len() ==> #[trigger] topped_up(kept, first, all, room)[k] == kept[k],
    decreases first.len(),
{
    if first.len() > 0 {
        lemma_topped_up_keeps(kept, first.drop_last(), all, room);
    }
}

/// Cutting something out of one span leaves what lies below it and what lies above
/// it, the upper piece behind all others. With no room for a second piece the larger
/// one stays, the lower one if they are equal. Where nothing is left an empty span
/// stays, and no other span changes.
pub proof fn law_a_cut_leaves_both_sides(
    runs: Seq<(u64, u64)>,
    i: int,
    ex: (u64, u64),
    room: nat,
    j: int,
)
    requires
        0 <= i < runs.len(),
        0 <= j < runs.len(),
        runs[i].0 < runs[i].1,
        ex.0 < ex.1,
    ensures
        ({
            let (start, end) = runs[i];
            let after = carve_one(runs, i, ex, room);
            let inside = start < ex.0 && ex.1 < end;
            &&& after.len() == (if inside && runs.len() < room {
                runs.len() + 1
            } else {
                runs.len()
            })
            &&& j != i ==> after[j] == runs[j]
            &&& ex.1 <= start || end <= ex.0 ==> after[i] == runs[i]
            &&& inside && runs.len() < room ==> after[i] == (start, ex.0) && after.last() == (
                ex.1,
                end,
            )
            &&& inside && runs.len() >= room && ex.0 - start >= end - ex.1 ==> after[i] == (
                start,
                ex.0,
            )
            &&& inside && runs.len() >= room && ex.0 - start < end - ex.1 ==> after[i] == (
                ex.1,
                end,
            )
            &&& start < ex.0 < end <= ex.1 ==> after[i] == (start, ex.0)
            &&& ex.0 <= start < ex.1 < end ==> after[i] == (ex.1, end)
            &&& ex.0 <= start && end <= ex.1 ==> after[i].0 == after[i].1
        }),
{
}

/// Exclusions are cut out one after the other: cutting some and then others is
/// cutting all of them, in that order. One that is empty cuts nothing.
pub proof fn law_exclusions_are_cut_one_after_the_other(
    runs: Seq<(u64, u64)>,
    a: Seq<(u64, u64)>,
    b: Seq<(u64, u64)>,
    room: nat,
)
    ensures
        carve_all(runs, a + b, room) == carve_all(carve_all(runs, a, room), b, room),
        carve_all(runs, Seq::empty(), room) == runs,
        b.len() == 1 && b[0].1 == 0 ==> carve_all(runs, b, room) == runs,
        b.len() == 1 && b[0].1 > 0 && b[0].0 < u64::MAX && runs.len() == 1 ==> carve_all(
            runs,
            b,
            room,
        ) == carve_one(
            runs,
            0,
            (
                b[0].0,
                if b[0].0 + b[0].1 <= u64::MAX {
                    (b[0].0 + b[0].1) as u64
                } else {
                    u64::MAX
                },
            ),
            room,
        ),
    decreases b.len(),
{
    if b.len() == 0 {
        assert(a + b =~= a);
    } else {
        law_exclusions_are_cut_one_after_the_other(runs, a, b.drop_last(), room);
        assert((a + b).drop_last() =~= a + b.drop_last());
    }
    if b.len() == 1 {
        assert(b.drop_last() =~= Seq::empty());
        assert(carve_all(runs, b.drop_last(), room) == runs);
        if runs.len() == 1 {
            let ex = excluded_span(b[0]);
            assert(carve_first(runs, 0, ex, room) == runs);
            assert(carve_first(runs, 1, ex, room) == carve_one(runs, 0, ex, room));
        }
    }
}

/// What carving leaves is handed back first, in the order of the spans, and those it
/// dropped behind it.
pub proof fn law_what_carving_leaves_comes_first(
    regions: Seq<MemoryRegion>,
    exclusions: Seq<(u64, u64)>,
    room: nat,
    i: int,
)
    requires
        0 <= i < runs_of(regions, exclusions, room).len(),
    ensures
        i < handed_back(regions, exclusions, room).len(),
        handed_back(regions, exclusions, room)[i] == runs_of(regions, exclusions, room)[i],
{
    let all = runs::all_runs(regions, exclusions);
    lemma_topped_up_keeps(runs_of(regions, exclusions, room), all, all, room);
}

/// Empty spans are left out, and the others keep their order and become a start and a
/// length.
pub proof fn law_only_empty_spans_are_left_out(a: Seq<(u64, u64)>, b: Seq<(u64, u64)>)
    ensures
        compacted(a + b) == compacted(a) + compacted(b),
        b.len() == 1 && b[0].0 >= b[0].1 ==> compacted(b).len() == 0,
        b.len() == 1 && b[0].0 < b[0].1 ==> compacted(b) == seq![
            (b[0].0, (b[0].1 - b[0].0) as u64),
        ],
    decreases b.len(),
{
    if b.len() == 0 {
        assert(a + b =~= a);
        assert(compacted(a) + compacted(b) =~= compacted(a));
    } else {
        law_only_empty_spans_are_left_out(a, b.drop_last());
        assert((a + b).drop_last() =~= a + b.drop_last());
        assert(compacted(a + b) =~= compacted(a) + compacted(b));
    }
    if b.len() == 1 {
        assert(b.drop_last() =~= Seq::empty());
        assert(compacted(b.drop_last()) =~= Seq::empty());
        if b[0].0 < b[0].1 {
            assert(compacted(b) =~= seq![(b[0].0, (b[0].1 - b[0].0) as u64)]);
        }
    }
}

/// The spans that are carved are those of the first usable regions, as many as there
/// is room for.
pub proof fn law_the_first_regions_are_carved(regions: Seq<MemoryRegion>, room: nat, i: int)
    ensures
        fitting_spans(regions, room).len() == (if summary::usable_regions(regions).len() <= room {
            summary::usable_regions(regions).len()
        } else {
            room
        }),
        0 <= i < fitting_spans(regions, room).len() ==> {
            let r = summary::usable_regions(regions)[i];
            &&& fitting_spans(regions, room)[i].0 == r.start
            &&& fitting_spans(regions, room)[i].1 == (if r.start + r.len <= u64::MAX {
                r.start + r.len
            } else {
                u64::MAX as int
            })
        },
{
}

/// The count that is reported is that of all free runs, and as many of them as there
/// is room for are written, from the start.
pub proof fn law_all_free_runs_are_counted(
    regions: &[MemoryRegion],
    exclusions: &[(u64, u64)],
    out: &mut [(u64, u64)],
    count: usize,
    i: int,
)
    requires
        call_ensures(free_runs, (regions, exclusions, out), count),
        runs::all_runs(regions@, exclusions@).len() <= usize::MAX,
        0 <= i < old(out)@.len(),
        i < count,
    ensures
        count == runs::all_runs(regions@, exclusions@).len(),
        i < final(out)@.len(),
        final(out)@[i] == handed_back(regions@, exclusions@, old(out)@.len())[i],
        final(out)@[i].1 > 0,
        forall|e: int|
            0 <= e < exclusions@.len() && (#[trigger] exclusions@[e]).1 > 0 ==> final(out)@[i].0
                + final(out)@[i].1 <= exclusions@[e].0 || exclusions@[e].0 + exclusions@[e].1
                <= final(out)@[i].0,
{
    let room = old(out)@.len();
    law_as_many_runs_as_fit_are_handed_back(regions@, exclusions@, room, (0, 0));
    law_every_run_handed_back_is_free(regions@, exclusions@, room, i);
}

} // verus!
