//! Every free run that a memory map has once some ranges are excluded, one after
//! the other, without room to keep them in.
use crate::bootinfo::free;
use crate::bootinfo::{MemoryKind, MemoryRegion};
use crate::sequences;
use vstd::prelude::*;

verus! {

/// Whether no exclusion holds an address.
pub open spec fn is_clear(exclusions: Seq<(u64, u64)>, a: u64) -> bool {
    forall|e: int| 0 <= e < exclusions.len() ==> !free::holds(#[trigger] exclusions[e], a)
}

/// Whether a free run of the span `s` begins at `x`: it is free, and what lies
/// before it is not or is no part of the span.
pub open spec fn begins(s: (u64, u64), exclusions: Seq<(u64, u64)>, x: u64) -> bool {
    &&& s.0 <= x < s.1
    &&& is_clear(exclusions, x)
    &&& x == s.0 || !is_clear(exclusions, (x - 1) as u64)
}

/// Where the first of some exclusions above `x` begins, or else the span ends.
pub open spec fn ends(s: (u64, u64), exclusions: Seq<(u64, u64)>, x: u64) -> u64
    decreases exclusions.len(),
{
    if exclusions.len() == 0 {
        s.1
    } else {
        let before = ends(s, exclusions.drop_last(), x);
        let ex = free::excluded_span(exclusions.last());
        if x < ex.0 < before && ex.0 < ex.1 {
            ex.0
        } else {
            before
        }
    }
}

/// The free run of a span that begins at `x`, as start and length.
pub open spec fn run_at(s: (u64, u64), exclusions: Seq<(u64, u64)>, x: u64) -> (u64, u64) {
    (x, (ends(s, exclusions, x) - x) as u64)
}

/// Where the free runs of a span begin: at its own start, or else where an
/// exclusion ends. Only the first `n` exclusions are looked at for their ends.
pub open spec fn starts(s: (u64, u64), exclusions: Seq<(u64, u64)>, n: nat) -> Seq<u64>
    decreases n,
{
    if n == 0 {
        if begins(s, exclusions, s.0) {
            seq![s.0]
        } else {
            Seq::empty()
        }
    } else {
        let before = starts(s, exclusions, (n - 1) as nat);
        let x = free::excluded_span(exclusions[n - 1]).1;
        if begins(s, exclusions, x) && !before.contains(x) {
            before.push(x)
        } else {
            before
        }
    }
}

/// The free runs of a span that begin at its start or at the end of one of the
/// first `n` exclusions, as start and length.
pub open spec fn runs_in(s: (u64, u64), exclusions: Seq<(u64, u64)>, n: nat) -> Seq<(u64, u64)> {
    starts(s, exclusions, n).map_values(|x: u64| run_at(s, exclusions, x))
}

/// The free runs of a region, which has none unless it is usable.
pub open spec fn region_runs(r: MemoryRegion, exclusions: Seq<(u64, u64)>) -> Seq<(u64, u64)> {
    if is_usable(r) {
        runs_in(free::span(r), exclusions, exclusions.len())
    } else {
        Seq::empty()
    }
}

/// Whether a region is one the frame allocator may take at boot.
pub open spec fn is_usable(r: MemoryRegion) -> bool {
    r.len > 0 && r.kind == MemoryKind::Usable
}

/// Every free run that there is, as start and length.
pub open spec fn all_runs(regions: Seq<MemoryRegion>, exclusions: Seq<(u64, u64)>) -> Seq<
    (u64, u64),
>
    decreases regions.len(),
{
    if regions.len() == 0 {
        Seq::empty()
    } else {
        all_runs(regions.drop_last(), exclusions) + region_runs(regions.last(), exclusions)
    }
}

/// What is in the list of starts, and that nothing is in it twice.
proof fn lemma_starts_among(s: (u64, u64), exclusions: Seq<(u64, u64)>, n: nat)
    requires
        n <= exclusions.len(),
    ensures
        starts(s, exclusions, n).no_duplicates(),
        forall|x: u64| #[trigger]
            starts(s, exclusions, n).contains(x) <==> begins(s, exclusions, x) && (x == s.0
                || exists|e: int|
                0 <= e < n && free::excluded_span(#[trigger] exclusions[e]).1 == x),
    decreases n,
{
    let now = starts(s, exclusions, n);
    if n == 0 {
        assert forall|x: u64| #[trigger] now.contains(x) <==> begins(s, exclusions, x) && x
            == s.0 by {
            if begins(s, exclusions, s.0) {
                assert(now[0] == s.0);
            }
        }
    } else {
        let before = starts(s, exclusions, (n - 1) as nat);
        let y = free::excluded_span(exclusions[n - 1]).1;
        lemma_starts_among(s, exclusions, (n - 1) as nat);
        sequences::lemma_push_contains(before, y);
        assert forall|x: u64| #[trigger] now.contains(x) <==> begins(s, exclusions, x) && (x == s.0
            || exists|e: int|
            0 <= e < n && free::excluded_span(#[trigger] exclusions[e]).1 == x) by {
            assert(before.contains(x) || !before.contains(x));
            if now.contains(x) && !before.contains(x) {
                assert(x == y);
                assert(free::excluded_span(exclusions[n - 1]).1 == x);
            }
        }
    }
}

/// The list of starts is the list of all addresses at which a run begins, each
/// once.
pub proof fn lemma_starts(s: (u64, u64), exclusions: Seq<(u64, u64)>)
    ensures
        starts(s, exclusions, exclusions.len()).no_duplicates(),
        forall|x: u64| #[trigger]
            starts(s, exclusions, exclusions.len()).contains(x) <==> begins(s, exclusions, x),
{
    lemma_starts_among(s, exclusions, exclusions.len());
    assert forall|x: u64| #[trigger]
        starts(s, exclusions, exclusions.len()).contains(x) <==> begins(s, exclusions, x) by {
        if begins(s, exclusions, x) && x != s.0 {
            let e = choose|e: int|
                0 <= e < exclusions.len() && free::holds(#[trigger] exclusions[e], (x - 1) as u64);
            assert(!free::holds(exclusions[e], x));
            assert(free::excluded_span(exclusions[e]).1 == x);
        }
    }
}

/// Where a run ends: inside the span, not before an exclusion above it begins, and
/// not before the end of the span unless one does begin there.
pub proof fn lemma_ends(s: (u64, u64), exclusions: Seq<(u64, u64)>, x: u64)
    requires
        x < s.1,
    ensures
        x < ends(s, exclusions, x) <= s.1,
        forall|e: int|
            0 <= e < exclusions.len() && free::holds_something(#[trigger] exclusions[e]) && x
                < free::excluded_span(exclusions[e]).0 ==> ends(s, exclusions, x)
                <= free::excluded_span(exclusions[e]).0,
        ends(s, exclusions, x) == s.1 || exists|e: int|
            0 <= e < exclusions.len() && free::holds_something(#[trigger] exclusions[e])
                && free::excluded_span(exclusions[e]).0 == ends(s, exclusions, x),
    decreases exclusions.len(),
{
    if exclusions.len() > 0 {
        let rest = exclusions.drop_last();
        let last = exclusions.len() - 1;
        lemma_ends(s, rest, x);
        assert(exclusions.last() == exclusions[last]);
        assert forall|e: int|
            0 <= e < exclusions.len() && free::holds_something(#[trigger] exclusions[e]) && x
                < free::excluded_span(exclusions[e]).0 implies ends(s, exclusions, x)
            <= free::excluded_span(exclusions[e]).0 by {
            if e < last {
                assert(rest[e] == exclusions[e]);
            }
        }
        if ends(s, rest, x) != s.1 && ends(s, exclusions, x) == ends(s, rest, x) {
            let e = choose|e: int|
                0 <= e < rest.len() && free::holds_something(#[trigger] rest[e])
                    && free::excluded_span(rest[e]).0 == ends(s, rest, x);
            assert(exclusions[e] == rest[e]);
        }
    }
}

/// A run that begins is free from its start to its end.
pub proof fn lemma_run_is_free(s: (u64, u64), exclusions: Seq<(u64, u64)>, x: u64)
    requires
        begins(s, exclusions, x),
    ensures
        s.0 <= x < ends(s, exclusions, x) <= s.1,
        forall|e: int|
            0 <= e < exclusions.len() && free::holds_something(#[trigger] exclusions[e])
                ==> !free::overlap(
                (x, ends(s, exclusions, x)),
                free::excluded_span(exclusions[e]),
            ),
{
    lemma_ends(s, exclusions, x);
    assert forall|e: int|
        0 <= e < exclusions.len() && free::holds_something(
            #[trigger] exclusions[e],
        ) implies !free::overlap(
        (x, ends(s, exclusions, x)),
        free::excluded_span(exclusions[e]),
    ) by {
        assert(!free::holds(exclusions[e], x));
    }
}

/// Where a span's edges are the edges of the span it was cut from or of something
/// excluded, and nothing excluded touches it, it is one of the runs.
pub proof fn lemma_is_run(s: (u64, u64), exclusions: Seq<(u64, u64)>, p: (u64, u64))
    requires
        s.0 <= p.0 < p.1 <= s.1,
        p.0 == s.0 || exists|e: int|
            0 <= e < exclusions.len() && free::holds_something(#[trigger] exclusions[e])
                && free::excluded_span(exclusions[e]).1 == p.0,
        p.1 == s.1 || exists|e: int|
            0 <= e < exclusions.len() && free::holds_something(#[trigger] exclusions[e])
                && free::excluded_span(exclusions[e]).0 == p.1,
        forall|e: int|
            0 <= e < exclusions.len() && free::holds_something(#[trigger] exclusions[e])
                ==> !free::overlap(p, free::excluded_span(exclusions[e])),
    ensures
        begins(s, exclusions, p.0),
        ends(s, exclusions, p.0) == p.1,
{
    lemma_ends(s, exclusions, p.0);
    assert(is_clear(exclusions, p.0)) by {
        assert forall|e: int| 0 <= e < exclusions.len() implies !free::holds(
            #[trigger] exclusions[e],
            p.0,
        ) by {
            if free::holds_something(exclusions[e]) {
                assert(!free::overlap(p, free::excluded_span(exclusions[e])));
            }
        }
    }
    if p.0 != s.0 {
        let e = choose|e: int|
            0 <= e < exclusions.len() && free::holds_something(#[trigger] exclusions[e])
                && free::excluded_span(exclusions[e]).1 == p.0;
        assert(free::holds(exclusions[e], (p.0 - 1) as u64));
    }
    let end = ends(s, exclusions, p.0);
    if end < p.1 {
        let e = choose|e: int|
            0 <= e < exclusions.len() && free::holds_something(#[trigger] exclusions[e])
                && free::excluded_span(exclusions[e]).0 == end;
        assert(!free::overlap(p, free::excluded_span(exclusions[e])));
    }
    if p.1 < end {
        let e = choose|e: int|
            0 <= e < exclusions.len() && free::holds_something(#[trigger] exclusions[e])
                && free::excluded_span(exclusions[e]).0 == p.1;
        assert(p.0 < free::excluded_span(exclusions[e]).0);
    }
}

/// Which region and which start a run comes from.
pub proof fn lemma_all_runs_from(
    regions: Seq<MemoryRegion>,
    exclusions: Seq<(u64, u64)>,
    i: int,
) -> (k: int)
    requires
        0 <= i < all_runs(regions, exclusions).len(),
    ensures
        0 <= k < regions.len(),
        is_usable(regions[k]),
        ({
            let (start, _) = all_runs(regions, exclusions)[i];
            &&& begins(free::span(regions[k]), exclusions, start)
            &&& all_runs(regions, exclusions)[i] == run_at(
                free::span(regions[k]),
                exclusions,
                start,
            )
        }),
    decreases regions.len(),
{
    let before = all_runs(regions.drop_last(), exclusions);
    if i < before.len() {
        let k = lemma_all_runs_from(regions.drop_last(), exclusions, i);
        assert(regions.drop_last()[k] == regions[k]);
        k
    } else {
        let r = regions.last();
        let s = free::span(r);
        let list = starts(s, exclusions, exclusions.len());
        lemma_starts(s, exclusions);
        let x = list[i - before.len()];
        assert(list.contains(x));
        assert(all_runs(regions, exclusions)[i] == run_at(s, exclusions, x));
        regions.len() - 1
    }
}

/// Where a run that begins in a usable region goes.
pub proof fn lemma_all_runs_to(
    regions: Seq<MemoryRegion>,
    exclusions: Seq<(u64, u64)>,
    k: int,
    x: u64,
) -> (i: int)
    requires
        0 <= k < regions.len(),
        is_usable(regions[k]),
        begins(free::span(regions[k]), exclusions, x),
    ensures
        0 <= i < all_runs(regions, exclusions).len(),
        all_runs(regions, exclusions)[i] == run_at(free::span(regions[k]), exclusions, x),
    decreases regions.len(),
{
    let before = all_runs(regions.drop_last(), exclusions);
    if k < regions.len() - 1 {
        assert(regions.drop_last()[k] == regions[k]);
        lemma_all_runs_to(regions.drop_last(), exclusions, k, x)
    } else {
        let s = free::span(regions[k]);
        let list = starts(s, exclusions, exclusions.len());
        lemma_starts(s, exclusions);
        assert(list.contains(x));
        let j = choose|j: int| 0 <= j < list.len() && list[j] == x;
        assert(region_runs(regions.last(), exclusions)[j] == run_at(s, exclusions, x));
        before.len() + j
    }
}

/// How far a walk over every free run has come.
#[derive(Clone, Copy, Debug, PartialEq, Eq)]
pub struct Walk {
    /// The region it is in.
    pub region: usize,
    /// How many places in it have been looked at: its start, and the ends of the
    /// exclusions.
    pub place: usize,
}

/// The runs of the first regions come first.
proof fn lemma_earlier_regions(regions: Seq<MemoryRegion>, exclusions: Seq<(u64, u64)>, k: int)
    requires
        0 <= k <= regions.len(),
    ensures
        all_runs(regions.take(k), exclusions).is_prefix_of(all_runs(regions, exclusions)),
    decreases regions.len(),
{
    if k < regions.len() {
        assert(regions.drop_last().take(k) =~= regions.take(k));
        lemma_earlier_regions(regions.drop_last(), exclusions, k);
    } else {
        assert(regions.take(k) =~= regions);
    }
}

/// The runs at the first places come first.
proof fn lemma_earlier_places(s: (u64, u64), exclusions: Seq<(u64, u64)>, n: nat, m: nat)
    requires
        n <= m,
    ensures
        starts(s, exclusions, n).is_prefix_of(starts(s, exclusions, m)),
        runs_in(s, exclusions, n).is_prefix_of(runs_in(s, exclusions, m)),
    decreases m,
{
    if n < m {
        lemma_earlier_places(s, exclusions, n, (m - 1) as nat);
    }
}

/// One more region: its runs come after those of the regions before it.
proof fn lemma_one_more_region(regions: Seq<MemoryRegion>, exclusions: Seq<(u64, u64)>, k: int)
    requires
        0 <= k < regions.len(),
    ensures
        all_runs(regions.take(k + 1), exclusions) == all_runs(regions.take(k), exclusions)
            + region_runs(regions[k], exclusions),
{
    assert(regions.take(k + 1).drop_last() =~= regions.take(k));
}

/// What a walk has come by is where every run begins.
proof fn lemma_seen(walk: Walk, regions: Seq<MemoryRegion>, exclusions: Seq<(u64, u64)>)
    requires
        walk.wf(regions, exclusions),
    ensures
        walk.seen(regions, exclusions).is_prefix_of(all_runs(regions, exclusions)),
{
    let k = walk.region as int;
    lemma_earlier_regions(regions, exclusions, k);
    if walk.place > 0 {
        lemma_one_more_region(regions, exclusions, k);
        lemma_earlier_regions(regions, exclusions, k + 1);
        lemma_earlier_places(
            free::span(regions[k]),
            exclusions,
            (walk.place - 1) as nat,
            exclusions.len(),
        );
    }
}

/// What a walk has come by one place further on.
proof fn lemma_one_more_place(
    walk: Walk,
    next: Walk,
    regions: Seq<MemoryRegion>,
    exclusions: Seq<(u64, u64)>,
    x: u64,
)
    requires
        walk.wf(regions, exclusions),
        walk.region < regions.len(),
        is_usable(regions[walk.region as int]),
        x == place(free::span(regions[walk.region as int]), exclusions, walk.place as int),
        if walk.place == exclusions.len() {
            next.region == walk.region + 1 && next.place == 0
        } else {
            next.region == walk.region && next.place == walk.place + 1
        },
    ensures
        ({
            let s = free::span(regions[walk.region as int]);
            next.seen(regions, exclusions) == (if begins(s, exclusions, x) && !repeats(
                s,
                exclusions,
                x,
                walk.place as int,
            ) {
                walk.seen(regions, exclusions).push(run_at(s, exclusions, x))
            } else {
                walk.seen(regions, exclusions)
            })
        }),
{
    let k = walk.region as int;
    let s = free::span(regions[k]);
    lemma_one_more_region(regions, exclusions, k);
    let n = walk.place as nat;
    assert(next.seen(regions, exclusions) =~= all_runs(regions.take(k), exclusions) + runs_in(
        s,
        exclusions,
        n,
    ));
    if n > 0 {
        lemma_starts_among(s, exclusions, (n - 1) as nat);
        if begins(s, exclusions, x) {
            assert(starts(s, exclusions, (n - 1) as nat).contains(x) <==> repeats(
                s,
                exclusions,
                x,
                n as int,
            ));
        }
    }
    assert(next.seen(regions, exclusions) =~= (if begins(s, exclusions, x) && !repeats(
        s,
        exclusions,
        x,
        n as int,
    ) {
        walk.seen(regions, exclusions).push(run_at(s, exclusions, x))
    } else {
        walk.seen(regions, exclusions)
    }));
}

/// The places of a span at which a run may begin: its start, and the ends of the
/// exclusions.
pub open spec fn place(s: (u64, u64), exclusions: Seq<(u64, u64)>, n: int) -> u64 {
    if n == 0 {
        s.0
    } else {
        free::excluded_span(exclusions[n - 1]).1
    }
}

/// Whether an address is one of the first `n` places of a span.
pub open spec fn repeats(s: (u64, u64), exclusions: Seq<(u64, u64)>, x: u64, n: int) -> bool {
    n > 0 && (x == s.0 || exists|e: int|
        0 <= e < n - 1 && free::excluded_span(#[trigger] exclusions[e]).1 == x)
}

/// Whether no exclusion holds an address.
fn clear(exclusions: &[(u64, u64)], a: u64) -> (yes: bool)
    ensures
        yes == is_clear(exclusions@, a),
{
    let mut e: usize = 0;
    while e < exclusions.len()
        invariant
            e <= exclusions.len(),
            forall|i: int| 0 <= i < e ==> !free::holds(#[trigger] exclusions@[i], a),
        decreases exclusions.len() - e,
    {
        let (start, len) = exclusions[e];
        if start <= a && a < start.saturating_add(len) {
            assert(free::holds(exclusions@[e as int], a));
            return false;
        }
        e = e + 1;
    }
    true
}

/// Whether a free run of a span begins at an address.
fn is_start(s: (u64, u64), exclusions: &[(u64, u64)], x: u64) -> (yes: bool)
    ensures
        yes == begins(s, exclusions@, x),
{
    s.0 <= x && x < s.1 && clear(exclusions, x) && (x == s.0 || !clear(exclusions, x - 1))
}

/// Whether an address is one of the first `n` places of a span.
fn is_repeated(s: (u64, u64), exclusions: &[(u64, u64)], x: u64, n: usize) -> (yes: bool)
    requires
        n <= exclusions@.len(),
    ensures
        yes == repeats(s, exclusions@, x, n as int),
{
    if n == 0 {
        return false;
    }
    if x == s.0 {
        return true;
    }
    let mut e: usize = 0;
    while e < n - 1
        invariant
            e <= n - 1 < exclusions.len(),
            forall|i: int| 0 <= i < e ==> free::excluded_span(#[trigger] exclusions@[i]).1 != x,
        decreases n - e,
    {
        let (start, len) = exclusions[e];
        if start.saturating_add(len) == x {
            assert(free::excluded_span(exclusions@[e as int]).1 == x);
            return true;
        }
        e = e + 1;
    }
    false
}

/// Where the run of a span that begins at `x` ends.
fn end_of(s: (u64, u64), exclusions: &[(u64, u64)], x: u64) -> (end: u64)
    ensures
        end == ends(s, exclusions@, x),
{
    let mut end = s.1;
    let mut e: usize = 0;
    assert(exclusions@.take(0) =~= Seq::empty());
    while e < exclusions.len()
        invariant
            e <= exclusions.len(),
            end == ends(s, exclusions@.take(e as int), x),
        decreases exclusions.len() - e,
    {
        let (start, len) = exclusions[e];
        proof {
            assert(exclusions@.take(e + 1).drop_last() =~= exclusions@.take(e as int));
            assert(exclusions@.take(e + 1).last() == exclusions@[e as int]);
        }
        if x < start && start < end && start < start.saturating_add(len) {
            end = start;
        }
        e = e + 1;
    }
    assert(exclusions@.take(e as int) =~= exclusions@);
    end
}

impl Walk {
    /// Whether a walk is somewhere in a memory map.
    pub open spec fn wf(self, regions: Seq<MemoryRegion>, exclusions: Seq<(u64, u64)>) -> bool {
        &&& self.region <= regions.len()
        &&& self.region == regions.len() ==> self.place == 0
        &&& self.place <= exclusions.len()
        &&& self.place > 0 ==> is_usable(regions[self.region as int])
    }

    /// The runs it has come by.
    pub open spec fn seen(
        self,
        regions: Seq<MemoryRegion>,
        exclusions: Seq<(u64, u64)>,
    ) -> Seq<(u64, u64)> {
        all_runs(regions.take(self.region as int), exclusions) + if self.place == 0 {
            Seq::empty()
        } else {
            runs_in(
                free::span(regions[self.region as int]),
                exclusions,
                (self.place - 1) as nat,
            )
        }
    }

    /// How many runs it has come by.
    pub open spec fn count(self, regions: Seq<MemoryRegion>, exclusions: Seq<(u64, u64)>) -> nat {
        self.seen(regions, exclusions).len()
    }

    /// A walk at its beginning.
    pub fn new() -> (walk: Walk)
        ensures
            forall|regions: Seq<MemoryRegion>, exclusions: Seq<(u64, u64)>| #[trigger]
                walk.count(regions, exclusions) == 0 && walk.wf(regions, exclusions),
    {
        let walk = Walk { region: 0, place: 0 };
        assert forall|regions: Seq<MemoryRegion>, exclusions: Seq<(u64, u64)>| #[trigger]
            walk.count(regions, exclusions) == 0 && walk.wf(regions, exclusions) by {
            assert(regions.take(0) =~= Seq::empty());
        }
        walk
    }

    /// The next run, as start and length.
    pub fn next(&mut self, regions: &[MemoryRegion], exclusions: &[(u64, u64)]) -> (run: Option<
        (u64, u64),
    >)
        requires
            old(self).wf(regions@, exclusions@),
        ensures
            final(self).wf(regions@, exclusions@),
            ({
                let all = all_runs(regions@, exclusions@);
                let n = old(self).count(regions@, exclusions@);
                match run {
                    Some(run) => {
                        &&& n < all.len()
                        &&& run == all[n as int]
                        &&& final(self).count(regions@, exclusions@) == n + 1
                    },
                    None => n == all.len(),
                }
            }),
    {
        while self.region < regions.len()
            invariant
                self.wf(regions@, exclusions@),
                self.seen(regions@, exclusions@) == old(self).seen(regions@, exclusions@),
            decreases regions.len() - self.region, exclusions.len() - self.place,
        {
            let ghost before = *self;
            let r = regions[self.region];
            if r.kind.usable_at_boot() && r.len > 0 {
                let place = self.place;
                let s = (r.start, r.end());
                let x = if place == 0 {
                    s.0
                } else {
                    let (ex_start, ex_len) = exclusions[place - 1];
                    ex_start.saturating_add(ex_len)
                };
                if place == exclusions.len() {
                    self.region = self.region + 1;
                    self.place = 0;
                } else {
                    self.place = place + 1;
                }
                proof {
                    lemma_one_more_place(before, *self, regions@, exclusions@, x);
                }
                if is_start(s, exclusions, x) && !is_repeated(s, exclusions, x, place) {
                    proof {
                        lemma_seen(*self, regions@, exclusions@);
                        lemma_ends(s, exclusions@, x);
                        let n = before.count(regions@, exclusions@) as int;
                        assert(self.seen(regions@, exclusions@)[n] == run_at(s, exclusions@, x));
                    }
                    return Some((x, end_of(s, exclusions, x) - x));
                }
            } else {
                proof {
                    lemma_one_more_region(regions@, exclusions@, self.region as int);
                }
                self.region = self.region + 1;
                assert(self.seen(regions@, exclusions@) =~= before.seen(regions@, exclusions@));
            }
        }
        assert(regions@.take(self.region as int) =~= regions@);
        None
    }
}

/// How many free runs there are, as far as a machine word counts.
pub fn count_runs(regions: &[MemoryRegion], exclusions: &[(u64, u64)]) -> (count: usize)
    ensures
        count == (if all_runs(regions@, exclusions@).len() <= usize::MAX {
            all_runs(regions@, exclusions@).len() as int
        } else {
            usize::MAX as int
        }),
{
    let mut walk = Walk::new();
    let mut count: usize = 0;
    let ghost all = all_runs(regions@, exclusions@);
    assert(walk.count(regions@, exclusions@) == 0);
    loop
        invariant
            walk.wf(regions@, exclusions@),
            all == all_runs(regions@, exclusions@),
            walk.count(regions@, exclusions@) <= all.len(),
            count == (if walk.count(regions@, exclusions@) <= usize::MAX {
                walk.count(regions@, exclusions@) as int
            } else {
                usize::MAX as int
            }),
        decreases all.len() - walk.count(regions@, exclusions@),
    {
        match walk.next(regions, exclusions) {
            None => {
                return count;
            },
            Some(_) => {
                count = count.saturating_add(1);
            },
        }
    }
}

/// How often a run occurs among all of them, as far as a machine word counts.
pub fn times(regions: &[MemoryRegion], exclusions: &[(u64, u64)], run: (u64, u64)) -> (count:
    usize)
    ensures
        ({
            let all = sequences::often(all_runs(regions@, exclusions@), run);
            count == (if all <= usize::MAX {
                all as int
            } else {
                usize::MAX as int
            })
        }),
{
    let mut walk = Walk::new();
    let mut count: usize = 0;
    let ghost all = all_runs(regions@, exclusions@);
    assert(walk.count(regions@, exclusions@) == 0);
    assert(all.take(0) =~= Seq::empty());
    loop
        invariant
            walk.wf(regions@, exclusions@),
            all == all_runs(regions@, exclusions@),
            walk.count(regions@, exclusions@) <= all.len(),
            ({
                let seen = sequences::often(
                    all.take(walk.count(regions@, exclusions@) as int),
                    run,
                );
                count == (if seen <= usize::MAX {
                    seen as int
                } else {
                    usize::MAX as int
                })
            }),
        decreases all.len() - walk.count(regions@, exclusions@),
    {
        let ghost n = walk.count(regions@, exclusions@) as int;
        match walk.next(regions, exclusions) {
            None => {
                assert(all.take(n) =~= all);
                return count;
            },
            Some(next) => {
                proof {
                    assert(all.take(n + 1) =~= all.take(n).push(next));
                    sequences::lemma_often_push(all.take(n), next, run);
                }
                if next.0 == run.0 && next.1 == run.1 {
                    count = count.saturating_add(1);
                }
            },
        }
    }
}

} // verus!
