//! The page tables the kernel is entered on.
//!
//! Three mappings have to exist: physical memory at its own address, because the
//! loader runs there when the tables are switched; physical memory in the linear
//! map, through which the kernel reaches it; and the kernel image, one segment at
//! a time with that segment's rights. Large pages carry the first two.
//!
//! The tree is built here as values: for every table the frame it will occupy and
//! the 512 entries it will hold. Nothing is in use by a processor until the tables
//! have been copied to their frames.
use crate::loader::pages::PAGE_SIZE;
use vstd::prelude::*;

pub use crate::bootinfo::{KERNEL_VMA, PHYS_MAP_BASE};

verus! {

/// 2 MiB.
pub const SIZE_2M: u64 = 0x20_0000;

/// 1 GiB.
pub const SIZE_1G: u64 = 0x4000_0000;

/// Entries of one table.
pub const TABLE_ENTRIES: usize = 512;

/// Rights for one mapping, kept separate from the raw bits so callers state
/// intent and this module owns the encoding.
#[derive(Clone, Copy, Debug, PartialEq, Eq, Structural)]
pub struct Rights {
    /// Writable.
    pub write: bool,
    /// Executable.
    pub execute: bool,
}

impl Rights {
    /// Read-only, not executable: constant data, and the default for anything
    /// whose purpose is unclear.
    #[must_use]
    pub fn ro() -> (rights: Rights)
        ensures
            rights == (Rights { write: false, execute: false }),
    {
        Rights { write: false, execute: false }
    }

    /// Read and write, not executable: data and the linear map.
    #[must_use]
    pub fn rw() -> (rights: Rights)
        ensures
            rights == (Rights { write: true, execute: false }),
    {
        Rights { write: true, execute: false }
    }

    /// Read and execute: text.
    #[must_use]
    pub fn rx() -> (rights: Rights)
        ensures
            rights == (Rights { write: false, execute: true }),
    {
        Rights { write: false, execute: true }
    }
}

/// What the processor reads in one entry of a table.
pub open spec fn present(e: u64) -> bool {
    e % 2 == 1
}

/// The write bit.
pub open spec fn writable(e: u64) -> bool {
    (e / 2) % 2 == 1
}

/// The page size bit: this entry maps a large page rather than a table.
pub open spec fn huge(e: u64) -> bool {
    (e / 0x80) % 2 == 1
}

/// The no-execute bit.
pub open spec fn no_execute(e: u64) -> bool {
    e / 0x8000_0000_0000_0000 == 1
}

/// The physical address field.
pub open spec fn address(e: u64) -> u64 {
    ((e % 0x10_0000_0000_0000) / 0x1000 * 0x1000) as u64
}

/// The entry that maps a page at `phys`.
pub open spec fn leaf_entry(phys: int, rights: Rights, large: bool) -> int {
    phys + 1 + (if rights.write {
        2int
    } else {
        0
    }) + (if large {
        0x80int
    } else {
        0
    }) + (if rights.execute {
        0int
    } else {
        0x8000_0000_0000_0000
    })
}

/// Whether an entry of a table at `level` maps a page and says nothing else: it is
/// the one entry for where the page is and what may be done with it, so every bit
/// that has no part in that is clear.
pub open spec fn is_leaf(e: u64, level: int) -> bool {
    let rights = Rights { write: writable(e), execute: !no_execute(e) };
    &&& 0 <= level <= 2
    &&& address(e) as int % span(level as nat) == 0
    &&& e == leaf_entry(address(e) as int, rights, level > 0)
}

/// The entry that leads to the table in `frame`. It is permissive on purpose: the
/// processor takes the AND of the write bits and the OR of the no-execute bits
/// along the walk, so a restrictive entry here would override every page beneath
/// it.
pub open spec fn table_entry(frame: int) -> int {
    frame + 3
}

/// Bytes that one entry of a table at `level` spans. Level 0 is the lowest.
pub open spec fn span(level: nat) -> int {
    if level == 0 {
        0x1000
    } else if level == 1 {
        0x20_0000
    } else if level == 2 {
        0x4000_0000
    } else if level == 3 {
        0x80_0000_0000
    } else {
        0x1_0000_0000_0000
    }
}

/// Which entry of a table at `level` an address goes through.
pub open spec fn index(v: u64, level: nat) -> int {
    (v as int / span(level)) % 512
}

/// Which of the blocks that entries at `level` span an address lies in. The
/// processor translates only the low 48 bits of an address.
pub open spec fn block(v: u64, level: nat) -> int {
    (v as int % 0x1_0000_0000_0000) / span(level)
}

/// Where a table stands in the tree: its level and the block it translates.
pub struct Place {
    /// Level of the table; 3 for the root.
    pub level: int,
    /// Number of the block, counted in blocks of that size.
    pub block: int,
}

/// The place of the table at `level` that an address goes through.
pub open spec fn place(v: u64, level: nat) -> Place {
    Place { level: level as int, block: block(v, level + 1) }
}

/// What the processor makes of an address.
pub struct Translation {
    /// The physical address.
    pub phys: int,
    /// What may be done there.
    pub rights: Rights,
    /// Size of the page that maps it.
    pub size: int,
}

proof fn lemma_blocks_u64(v: u64)
    by (bit_vector)
    ensures
        (v % 0x1_0000_0000_0000) / 0x1000 == ((v % 0x1_0000_0000_0000) / 0x20_0000) * 512 + (v
            / 0x1000) % 512,
        (v % 0x1_0000_0000_0000) / 0x20_0000 == ((v % 0x1_0000_0000_0000) / 0x4000_0000) * 512 + (v
            / 0x20_0000) % 512,
        (v % 0x1_0000_0000_0000) / 0x4000_0000 == ((v % 0x1_0000_0000_0000) / 0x80_0000_0000) * 512
            + (v / 0x4000_0000) % 512,
        (v % 0x1_0000_0000_0000) / 0x80_0000_0000 == (v / 0x80_0000_0000) % 512,
{
}

/// A block is found from the block above it and the index.
proof fn lemma_block(v: u64, level: nat)
    requires
        level <= 3,
    ensures
        0 <= index(v, level) < 512,
        block(v, level) == block(v, level + 1) * 512 + index(v, level),
        0 <= block(v, level + 1),
        block(v, level) < 0x10_0000_0000,
        level == 3 ==> block(v, level + 1) == 0,
{
    lemma_blocks_u64(v);
}

/// A four-level tree of page tables under construction.
pub struct PageTables {
    /// Whether the processor supports 1 GiB pages.
    pub gib_pages: bool,
    /// The frame of every table; the root comes first.
    pub frames: Vec<u64>,
    /// The entries of every table, one table after the other.
    pub entries: Vec<u64>,
    /// Where every table stands in the tree.
    pub places: Ghost<Seq<Place>>,
}

impl PageTables {
    /// Entry `i` of table `t`.
    pub open spec fn entry_at(self, t: int, i: int) -> u64 {
        self.entries@[512 * t + i]
    }

    /// Whether table `c` is where entry `i` of table `t` must lead.
    pub open spec fn leads_to(self, t: int, i: int, c: int) -> bool {
        let at = self.places@[t];
        &&& 0 <= c < self.frames@.len()
        &&& self.entry_at(t, i) == table_entry(self.frames@[c] as int)
        &&& self.places@[c].level == at.level - 1
        &&& self.places@[c].block == at.block * 512 + i
    }

    /// Whether entry `i` of table `t` leads to the table below it.
    pub open spec fn is_linked(self, t: int, i: int) -> bool {
        exists|c: int| #[trigger] self.leads_to(t, i, c)
    }

    /// Whether table `c` hangs below an entry that is in use.
    pub open spec fn hangs(self, c: int) -> bool {
        exists|t: int| #[trigger] self.is_above(t, c)
    }

    /// Whether table `t` is above table `c`, with an entry that is in use.
    pub open spec fn is_above(self, t: int, c: int) -> bool {
        &&& 0 <= t < self.frames@.len()
        &&& self.places@[t].level == self.places@[c].level + 1
        &&& self.places@[t].block == self.places@[c].block / 512
        &&& present(self.entry_at(t, self.places@[c].block % 512))
    }

    /// Whether entry `i` of table `t` leads to a table.
    pub open spec fn is_pointer(self, t: int, i: int) -> bool {
        &&& self.places@[t].level > 0
        &&& present(self.entry_at(t, i))
        &&& !huge(self.entry_at(t, i))
    }

    /// Whether entry `i` of table `t` is empty, leads to a table, or maps a page and
    /// says nothing else.
    pub open spec fn is_plain(self, t: int, i: int) -> bool {
        ||| self.entry_at(t, i) == 0
        ||| self.is_pointer(t, i)
        ||| is_leaf(self.entry_at(t, i), self.places@[t].level)
    }

    /// Whether the tables form a tree: frames are whole pages of physical memory
    /// and all different, every table has a place of its own, every entry is empty,
    /// leads to the table below it, or maps a page and says nothing else, and every
    /// table but the root hangs below an entry that is in use.
    pub open spec fn wf(self) -> bool {
        let n = self.frames@.len();
        &&& n >= 1
        &&& self.places@.len() == n
        &&& self.entries@.len() == 512 * n
        &&& self.places@[0] == (Place { level: 3, block: 0 })
        &&& forall|t: int|
            0 <= t < n ==> is_frame(#[trigger] self.frames@[t])
        &&& forall|t: int| 0 <= t < n ==> 0 <= (#[trigger] self.places@[t]).level <= 3
        &&& forall|t: int, u: int|
            0 <= t < u < n ==> #[trigger] self.frames@[t] != #[trigger] self.frames@[u]
        &&& forall|t: int, u: int|
            0 <= t < u < n ==> #[trigger] self.places@[t] != #[trigger] self.places@[u]
        &&& forall|t: int, i: int|
            0 <= t < n && 0 <= i < 512 && #[trigger] self.is_pointer(t, i) ==> self.is_linked(
                t,
                i,
            )
        &&& forall|t: int, i: int|
            0 <= t < n && 0 <= i < 512 ==> #[trigger] self.is_plain(t, i)
        &&& forall|c: int| 1 <= c < n ==> #[trigger] self.hangs(c)
        &&& forall|i: int|
            0 <= i < 512 && present(#[trigger] self.entry_at(0, i)) ==> !huge(self.entry_at(0, i))
    }

    /// The table in a frame, if there is one.
    pub open spec fn table_in(self, frame: int) -> Option<int> {
        if exists|t: int| 0 <= t < self.frames@.len() && self.frames@[t] == frame {
            Some(choose|t: int| 0 <= t < self.frames@.len() && self.frames@[t] == frame)
        } else {
            None
        }
    }

    /// What the processor makes of `v` from the table in `frame` on, with the
    /// rights that the tables above leave.
    pub open spec fn walk(self, level: nat, frame: int, v: u64, above: Rights) -> Option<
        Translation,
    >
        decreases level,
    {
        match self.table_in(frame) {
            None => None,
            Some(t) => {
                let e = self.entry_at(t, index(v, level));
                let rights = Rights {
                    write: above.write && writable(e),
                    execute: above.execute && !no_execute(e),
                };
                if !present(e) {
                    None
                } else if level == 0 || huge(e) {
                    Some(
                        Translation {
                            phys: address(e) as int / span(level) * span(level) + v as int % span(
                                level,
                            ),
                            rights,
                            size: span(level),
                        },
                    )
                } else {
                    self.walk((level - 1) as nat, address(e) as int, v, rights)
                }
            },
        }
    }

    /// What the processor makes of `v` once these tables are in use.
    #[verifier::opaque]
    pub open spec fn translate(self, v: u64) -> Option<Translation> {
        self.walk(3, self.frames@[0] as int, v, Rights { write: true, execute: true })
    }
}

/// Whether an address is that of a frame: a whole page of physical memory.
pub open spec fn is_frame(frame: u64) -> bool {
    frame % 0x1000 == 0 && frame < 0x10_0000_0000_0000
}

proof fn lemma_table_entry(frame: u64)
    requires
        is_frame(frame),
    ensures
        present(table_entry(frame as int) as u64),
        writable(table_entry(frame as int) as u64),
        !huge(table_entry(frame as int) as u64),
        !no_execute(table_entry(frame as int) as u64),
        address(table_entry(frame as int) as u64) == frame,
{
}

proof fn lemma_leaf_bits(phys: u64, w: u64, l: u64, x: u64, e: u64)
    by (bit_vector)
    requires
        phys % 0x1000 == 0,
        phys < 0x10_0000_0000_0000,
        w < 2,
        l < 2,
        x < 2,
        e == phys | 1 | (w << 1) | (l << 7) | (x << 63),
    ensures
        e == phys + 1 + (w << 1) + (l << 7) + (x << 63),
        w << 1 == 2 * w,
        l << 7 == 0x80 * l,
        x << 63 == 0x8000_0000_0000_0000 * x,
        e % 2 == 1,
        (e / 2) % 2 == w,
        (e / 0x80) % 2 == l,
        e / 0x8000_0000_0000_0000 == x,
        (e % 0x10_0000_0000_0000) / 0x1000 * 0x1000 == phys,
{
}

/// The entry of a page says what was asked of it: where it is, how large it is and
/// what may be done with it.
pub proof fn law_an_entry_says_what_was_asked(phys: u64, rights: Rights, large: bool)
    requires
        is_frame(phys),
    ensures
        0 <= leaf_entry(phys as int, rights, large) <= u64::MAX,
        present(leaf_entry(phys as int, rights, large) as u64),
        writable(leaf_entry(phys as int, rights, large) as u64) == rights.write,
        huge(leaf_entry(phys as int, rights, large) as u64) == large,
        no_execute(leaf_entry(phys as int, rights, large) as u64) == !rights.execute,
        address(leaf_entry(phys as int, rights, large) as u64) == phys,
{
    let w: u64 = if rights.write { 1 } else { 0 };
    let l: u64 = if large { 1 } else { 0 };
    let x: u64 = if rights.execute { 0 } else { 1 };
    let e = phys | 1 | (w << 1) | (l << 7) | (x << 63);
    lemma_leaf_bits(phys, w, l, x, e);
    assert(e == leaf_entry(phys as int, rights, large));
}

/// All rights, which is what a walk starts with.
pub open spec fn all_rights() -> Rights {
    Rights { write: true, execute: true }
}

/// Whether two addresses go through the same entries down to `level`.
proof fn lemma_same_block(v: u64, w: u64, level: nat, k: nat)
    requires
        level <= k <= 3,
        block(v, level) == block(w, level),
    ensures
        block(v, k) == block(w, k),
        index(v, k) == index(w, k),
        place(v, k) == place(w, k),
    decreases k - level,
{
    if k > level {
        lemma_same_block(v, w, level, (k - 1) as nat);
    }
    lemma_block(v, k);
    lemma_block(w, k);
}

impl PageTables {
    /// The table at level `k` that a walk for `v` reaches, if it gets that far.
    pub open spec fn reached(self, v: u64, k: nat) -> Option<int>
        decreases 3 - k,
    {
        if k >= 3 {
            Some(0)
        } else {
            match self.reached(v, k + 1) {
                None => None,
                Some(t) => {
                    let e = self.entry_at(t, index(v, k + 1));
                    if present(e) && !huge(e) {
                        self.table_in(address(e) as int)
                    } else {
                        None
                    }
                },
            }
        }
    }

    proof fn lemma_table_in(self, t: int)
        requires
            self.wf(),
            0 <= t < self.frames@.len(),
        ensures
            self.table_in(self.frames@[t] as int) == Some(t),
    {
        let u = choose|u: int| 0 <= u < self.frames@.len() && self.frames@[u] == self.frames@[t];
        assert(self.frames@[u] == self.frames@[t]);
        if u < t {
            assert(self.frames@[u] != self.frames@[t]);
        } else if t < u {
            assert(self.frames@[t] != self.frames@[u]);
        }
    }

    /// The table that an entry on the way down leads to.
    proof fn lemma_child(self, v: u64, level: nat, t: int) -> (c: int)
        requires
            self.wf(),
            1 <= level <= 3,
            0 <= t < self.frames@.len(),
            self.places@[t] == place(v, level),
            present(self.entry_at(t, index(v, level))),
            !huge(self.entry_at(t, index(v, level))),
        ensures
            0 <= c < self.frames@.len(),
            self.places@[c] == place(v, (level - 1) as nat),
            self.entry_at(t, index(v, level)) == table_entry(self.frames@[c] as int),
            address(self.entry_at(t, index(v, level))) == self.frames@[c],
            writable(self.entry_at(t, index(v, level))),
            !no_execute(self.entry_at(t, index(v, level))),
            self.table_in(self.frames@[c] as int) == Some(c),
    {
        let i = index(v, level);
        lemma_block(v, level);
        assert(self.is_pointer(t, i));
        let c = choose|c: int| #[trigger] self.leads_to(t, i, c);
        assert(self.leads_to(t, i, c));
        lemma_table_entry(self.frames@[c]);
        self.lemma_table_in(c);
        c
    }

    /// Where a walk that reaches a table stands, and that the tables above it
    /// take no rights away.
    proof fn lemma_reached(self, v: u64, k: nat)
        requires
            self.wf(),
            k <= 3,
            self.reached(v, k) is Some,
        ensures
            ({
                let t = self.reached(v, k)->0;
                &&& 0 <= t < self.frames@.len()
                &&& self.places@[t] == place(v, k)
                &&& self.translate(v) == self.walk(k, self.frames@[t] as int, v, all_rights())
            }),
        decreases 3 - k,
    {
        reveal(PageTables::translate);
        if k == 3 {
            lemma_block(v, 3);
        } else {
            self.lemma_reached(v, k + 1);
            let t = self.reached(v, k + 1)->0;
            let c = self.lemma_child(v, k + 1, t);
            self.lemma_table_in(t);
        }
    }

    /// Whether `self` holds all that `before` held, except perhaps on other walks
    /// than that for `v`: the same tables, and the same entries where the walk
    /// for `v` can look.
    pub open spec fn agrees(self, before: PageTables, v: u64) -> bool {
        &&& before.frames@.len() <= self.frames@.len()
        &&& forall|u: int|
            0 <= u < before.frames@.len() ==> #[trigger] self.frames@[u] == before.frames@[u]
        &&& forall|u: int, k: nat|
            0 <= u < before.frames@.len() && k <= 3 && before.places@[u] == place(v, k)
                ==> #[trigger] self.entry_at(u, index(v, k)) == before.entry_at(u, index(v, k))
    }

    proof fn lemma_walk_agrees(
        self,
        before: PageTables,
        v: u64,
        level: nat,
        u: int,
        above: Rights,
    )
        requires
            self.wf(),
            before.wf(),
            self.agrees(before, v),
            level <= 3,
            0 <= u < before.frames@.len(),
            before.places@[u] == place(v, level),
        ensures
            self.walk(level, before.frames@[u] as int, v, above) == before.walk(
                level,
                before.frames@[u] as int,
                v,
                above,
            ),
        decreases level,
    {
        self.lemma_table_in(u);
        before.lemma_table_in(u);
        let e = before.entry_at(u, index(v, level));
        assert(self.entry_at(u, index(v, level)) == e);
        if present(e) && level > 0 && !huge(e) {
            let c = before.lemma_child(v, level, u);
            let rights = Rights {
                write: above.write && writable(e),
                execute: above.execute && !no_execute(e),
            };
            self.lemma_walk_agrees(before, v, (level - 1) as nat, c, rights);
        }
    }

    /// What a walk that agrees translates to.
    proof fn lemma_translate_agrees(self, before: PageTables, v: u64)
        requires
            self.wf(),
            before.wf(),
            self.agrees(before, v),
        ensures
            self.translate(v) == before.translate(v),
    {
        reveal(PageTables::translate);
        lemma_block(v, 3);
        assert(self.frames@[0] == before.frames@[0]);
        self.lemma_walk_agrees(before, v, 3, 0, all_rights());
    }

    /// Whether `self` is `before` with one entry replaced.
    pub open spec fn is_with_entry(self, before: PageTables, t: int, i: int, e: u64) -> bool {
        &&& self.gib_pages == before.gib_pages
        &&& self.frames@ == before.frames@
        &&& self.places@ == before.places@
        &&& self.entries@ == before.entries@.update(512 * t + i, e)
    }

    /// A walk through the block of `virt` reaches the same tables after an entry
    /// at `level` has been replaced.
    proof fn lemma_reached_after_leaf(
        self,
        before: PageTables,
        virt: u64,
        level: nat,
        e: u64,
        v: u64,
        k: nat,
    )
        requires
            before.wf(),
            level <= k <= 3,
            before.reached(virt, level) is Some,
            self.is_with_entry(before, before.reached(virt, level)->0, index(virt, level), e),
            block(v, level) == block(virt, level),
        ensures
            self.reached(v, k) == before.reached(virt, k),
            before.reached(virt, k) is Some,
        decreases 3 - k,
    {
        before.lemma_reached_from_above(virt, level, k);
        if k < 3 {
            let t = before.reached(virt, level)->0;
            before.lemma_reached(virt, level);
            self.lemma_reached_after_leaf(before, virt, level, e, v, k + 1);
            let u = before.reached(virt, k + 1)->0;
            before.lemma_reached(virt, k + 1);
            lemma_same_block(v, virt, level, k + 1);
            lemma_block(virt, k + 1);
            lemma_block(virt, level);
            assert(u != t);
            assert(self.entry_at(u, index(virt, k + 1)) == before.entry_at(
                u,
                index(virt, k + 1),
            ));
        }
    }

    /// A walk that gets down to a level has gone through all above it.
    proof fn lemma_reached_from_above(self, v: u64, level: nat, k: nat)
        requires
            level <= k <= 3,
            self.reached(v, level) is Some,
        ensures
            self.reached(v, k) is Some,
        decreases k - level,
    {
        if k > level {
            self.lemma_reached_from_above(v, level, (k - 1) as nat);
        }
    }

    /// Which entries differ when one has been replaced.
    proof fn lemma_with_entry(self, before: PageTables, t: int, i: int, e: u64)
        requires
            before.wf(),
            self.is_with_entry(before, t, i, e),
            0 <= t < before.frames@.len(),
            0 <= i < 512,
        ensures
            forall|u: int, j: int|
                0 <= u < before.frames@.len() && 0 <= j < 512 ==> #[trigger] self.entry_at(u, j)
                    == (if u == t && j == i {
                    e
                } else {
                    before.entry_at(u, j)
                }),
    {
    }

    /// Replacing the entry that a walk for `virt` comes to at `level` by a page
    /// keeps the tables a tree.
    proof fn lemma_leaf_wf(
        self,
        before: PageTables,
        virt: u64,
        level: nat,
        phys: u64,
        rights: Rights,
    )
        requires
            before.wf(),
            level <= 2,
            before.reached(virt, level) is Some,
            is_frame(phys),
            phys as int % span(level) == 0,
            self.is_with_entry(
                before,
                before.reached(virt, level)->0,
                index(virt, level),
                leaf_entry(phys as int, rights, level > 0) as u64,
            ),
        ensures
            self.wf(),
    {
        let t = before.reached(virt, level)->0;
        let i = index(virt, level);
        let e = leaf_entry(phys as int, rights, level > 0) as u64;
        before.lemma_reached(virt, level);
        lemma_block(virt, level);
        law_an_entry_says_what_was_asked(phys, rights, level > 0);
        self.lemma_with_entry(before, t, i, e);
        assert forall|u: int, j: int| 0 <= u < self.frames@.len() && 0 <= j < 512 implies
            #[trigger] self.is_plain(u, j) by {
            assert(before.is_plain(u, j));
            if u == t && j == i {
                assert(is_leaf(e, level as int));
            }
        }
        assert forall|u: int, j: int|
            0 <= u < self.frames@.len() && 0 <= j < 512 && #[trigger] self.is_pointer(
                u,
                j,
            ) implies self.is_linked(u, j) by {
            assert(before.is_pointer(u, j));
            let c = choose|c: int| #[trigger] before.leads_to(u, j, c);
            assert(self.leads_to(u, j, c));
        }
        assert forall|c: int| 1 <= c < self.frames@.len() implies #[trigger] self.hangs(c) by {
            assert(before.hangs(c));
            let u = choose|u: int| #[trigger] before.is_above(u, c);
            assert(self.is_above(u, c));
        }
        assert forall|j: int| 0 <= j < 512 && present(#[trigger] self.entry_at(0, j)) implies !huge(
            self.entry_at(0, j),
        ) by {
            assert(t != 0);
            assert(self.entry_at(0, j) == before.entry_at(0, j));
        }
    }

    /// The block of the replaced entry is mapped to the page.
    proof fn lemma_leaf_inside(
        self,
        before: PageTables,
        virt: u64,
        level: nat,
        phys: u64,
        rights: Rights,
        v: u64,
    )
        requires
            before.wf(),
            level <= 2,
            before.reached(virt, level) is Some,
            is_frame(phys),
            phys as int % span(level) == 0,
            self.is_with_entry(
                before,
                before.reached(virt, level)->0,
                index(virt, level),
                leaf_entry(phys as int, rights, level > 0) as u64,
            ),
            block(v, level) == block(virt, level),
        ensures
            self.translate(v) == Some(
                Translation { phys: phys + v as int % span(level), rights, size: span(level) },
            ),
    {
        let t = before.reached(virt, level)->0;
        let e = leaf_entry(phys as int, rights, level > 0) as u64;
        self.lemma_leaf_wf(before, virt, level, phys, rights);
        before.lemma_reached(virt, level);
        self.lemma_reached_after_leaf(before, virt, level, e, v, level);
        self.lemma_reached(v, level);
        self.lemma_table_in(t);
        lemma_same_block(v, virt, level, level);
        lemma_block(virt, level);
        law_an_entry_says_what_was_asked(phys, rights, level > 0);
        self.lemma_with_entry(before, t, index(virt, level), e);
        lemma_whole_blocks(phys as int, level);
    }

    /// Every other address is translated as before.
    proof fn lemma_leaf_outside(
        self,
        before: PageTables,
        virt: u64,
        level: nat,
        phys: u64,
        rights: Rights,
        v: u64,
    )
        requires
            before.wf(),
            level <= 2,
            before.reached(virt, level) is Some,
            is_frame(phys),
            phys as int % span(level) == 0,
            self.is_with_entry(
                before,
                before.reached(virt, level)->0,
                index(virt, level),
                leaf_entry(phys as int, rights, level > 0) as u64,
            ),
            block(v, level) != block(virt, level),
        ensures
            self.translate(v) == before.translate(v),
    {
        let t = before.reached(virt, level)->0;
        let e = leaf_entry(phys as int, rights, level > 0) as u64;
        self.lemma_leaf_wf(before, virt, level, phys, rights);
        before.lemma_reached(virt, level);
        lemma_block(virt, level);
        self.lemma_with_entry(before, t, index(virt, level), e);
        assert forall|u: int, k: nat|
            0 <= u < before.frames@.len() && k <= 3 && before.places@[u] == place(
                v,
                k,
            ) implies #[trigger] self.entry_at(u, index(v, k)) == before.entry_at(
            u,
            index(v, k),
        ) by {
            lemma_block(v, k);
        }
        self.lemma_translate_agrees(before, v);
    }
}

/// A multiple of a block is a whole number of blocks.
proof fn lemma_whole_blocks(n: int, level: nat)
    requires
        n % span(level) == 0,
    ensures
        n / span(level) * span(level) == n,
{
    vstd::arithmetic::div_mod::lemma_fundamental_div_mod(n, span(level));
    vstd::arithmetic::mul::lemma_mul_is_commutative(span(level), n / span(level));
}

impl PageTables {
    /// Whether `self` is `before` with an empty table in `frame`, to which entry
    /// `i` of table `t` leads.
    pub open spec fn is_with_table(
        self,
        before: PageTables,
        t: int,
        i: int,
        frame: u64,
    ) -> bool {
        let at = before.places@[t];
        &&& self.gib_pages == before.gib_pages
        &&& self.frames@ == before.frames@.push(frame)
        &&& self.places@ == before.places@.push(
            Place { level: at.level - 1, block: at.block * 512 + i },
        )
        &&& self.entries@ == before.entries@.update(512 * t + i, table_entry(frame as int) as u64)
            + Seq::new(512, |j: int| 0u64)
    }

    /// Whether a table can be added below entry `i` of table `t`.
    pub open spec fn lacks_table(self, t: int, i: int, frame: u64) -> bool {
        &&& 0 <= t < self.frames@.len()
        &&& 0 <= i < 512
        &&& self.places@[t].level > 0
        &&& !present(self.entry_at(t, i))
        &&& is_frame(frame)
        &&& !self.frames@.contains(frame)
    }

    proof fn lemma_with_table(self, before: PageTables, t: int, i: int, frame: u64)
        requires
            before.wf(),
            before.lacks_table(t, i, frame),
            self.is_with_table(before, t, i, frame),
        ensures
            forall|u: int, j: int|
                0 <= u < before.frames@.len() && 0 <= j < 512 ==> #[trigger] self.entry_at(u, j)
                    == (if u == t && j == i {
                    table_entry(frame as int) as u64
                } else {
                    before.entry_at(u, j)
                }),
            forall|j: int|
                0 <= j < 512 ==> #[trigger] self.entry_at(before.frames@.len() as int, j) == 0,
    {
    }

    /// No table stands where an entry that is not in use would lead.
    proof fn lemma_place_is_free(self, t: int, i: int, c: int)
        requires
            self.wf(),
            0 <= t < self.frames@.len(),
            0 <= i < 512,
            self.places@[t].level > 0,
            !present(self.entry_at(t, i)),
            0 <= c < self.frames@.len(),
        ensures
            self.places@[c] != (Place {
                level: self.places@[t].level - 1,
                block: self.places@[t].block * 512 + i,
            }),
    {
        if self.places@[c].level == self.places@[t].level - 1 && self.places@[c].block
            == self.places@[t].block * 512 + i {
            assert(c != 0);
            assert(self.hangs(c));
            let u = choose|u: int| #[trigger] self.is_above(u, c);
            assert(self.places@[u].level == self.places@[t].level);
            assert(self.places@[u].block == self.places@[t].block);
            assert(self.places@[u] == self.places@[t]);
            if u < t {
                assert(self.places@[u] != self.places@[t]);
            } else if t < u {
                assert(self.places@[t] != self.places@[u]);
            }
        }
    }

    proof fn lemma_table_wf(self, before: PageTables, t: int, i: int, frame: u64)
        requires
            before.wf(),
            before.lacks_table(t, i, frame),
            self.is_with_table(before, t, i, frame),
        ensures
            self.wf(),
    {
        let n = before.frames@.len() as int;
        self.lemma_with_table(before, t, i, frame);
        lemma_table_entry(frame);
        assert forall|u: int, j: int| 0 <= u < self.frames@.len() && 0 <= j < 512 implies
            #[trigger] self.is_plain(u, j) by {
            if u < n {
                assert(before.is_plain(u, j));
                assert(self.places@[u] == before.places@[u]);
            } else {
                assert(self.entry_at(n, j) == 0);
            }
        }
        assert forall|u: int, w: int|
            0 <= u < w < self.frames@.len() implies #[trigger] self.frames@[u]
            != #[trigger] self.frames@[w] by {
            assert(self.frames@[u] == before.frames@[u]);
            if w < n {
                assert(self.frames@[w] == before.frames@[w]);
            } else {
                assert(before.frames@.contains(before.frames@[u]));
            }
        }
        assert forall|u: int, w: int|
            0 <= u < w < self.frames@.len() implies #[trigger] self.places@[u]
            != #[trigger] self.places@[w] by {
            assert(self.places@[u] == before.places@[u]);
            if w < n {
                assert(self.places@[w] == before.places@[w]);
            } else {
                before.lemma_place_is_free(t, i, u);
            }
        }
        assert forall|u: int, j: int|
            0 <= u < self.frames@.len() && 0 <= j < 512 && #[trigger] self.is_pointer(
                u,
                j,
            ) implies self.is_linked(u, j) by {
            if u < n {
                if u == t && j == i {
                    assert(self.leads_to(u, j, n));
                } else {
                    assert(before.is_pointer(u, j));
                    let c = choose|c: int| #[trigger] before.leads_to(u, j, c);
                    assert(self.leads_to(u, j, c));
                }
            } else {
                assert(self.entry_at(n, j) == 0);
            }
        }
        assert forall|c: int| 1 <= c < self.frames@.len() implies #[trigger] self.hangs(c) by {
            if c < n {
                assert(before.hangs(c));
                let u = choose|u: int| #[trigger] before.is_above(u, c);
                assert(self.is_above(u, c));
            } else {
                assert(self.is_above(t, n));
            }
        }
        assert forall|j: int| 0 <= j < 512 && present(#[trigger] self.entry_at(0, j)) implies !huge(
            self.entry_at(0, j),
        ) by {
            if !(t == 0 && j == i) {
                assert(self.entry_at(0, j) == before.entry_at(0, j));
            }
        }
        assert forall|u: int| 0 <= u < self.frames@.len() implies is_frame(
            #[trigger] self.frames@[u],
        ) by {
            if u < n {
                assert(self.frames@[u] == before.frames@[u]);
            }
        }
        assert forall|u: int| 0 <= u < self.frames@.len() implies 0 <= (
        #[trigger] self.places@[u]).level <= 3 by {
            if u < n {
                assert(self.places@[u] == before.places@[u]);
            }
        }
    }

    proof fn lemma_walk_with_table(
        self,
        before: PageTables,
        t: int,
        i: int,
        frame: u64,
        v: u64,
        level: nat,
        u: int,
        above: Rights,
    )
        requires
            before.wf(),
            before.lacks_table(t, i, frame),
            self.is_with_table(before, t, i, frame),
            level <= 3,
            0 <= u < before.frames@.len(),
            before.places@[u] == place(v, level),
        ensures
            self.walk(level, before.frames@[u] as int, v, above) == before.walk(
                level,
                before.frames@[u] as int,
                v,
                above,
            ),
        decreases level,
    {
        let n = before.frames@.len() as int;
        self.lemma_table_wf(before, t, i, frame);
        self.lemma_with_table(before, t, i, frame);
        assert(self.frames@[u] == before.frames@[u]);
        assert(self.frames@[n] == frame);
        self.lemma_table_in(u);
        before.lemma_table_in(u);
        lemma_block(v, level);
        let e = before.entry_at(u, index(v, level));
        if u == t && index(v, level) == i {
            lemma_table_entry(frame);
            self.lemma_table_in(n);
            let below = (level - 1) as nat;
            lemma_block(v, below);
            let now = self.entry_at(u, index(v, level));
            let rights = Rights {
                write: above.write && writable(now),
                execute: above.execute && !no_execute(now),
            };
            assert(self.entry_at(n, index(v, below)) == 0);
            assert(self.walk(below, frame as int, v, rights) is None);
        } else if present(e) && level > 0 && !huge(e) {
            let c = before.lemma_child(v, level, u);
            let rights = Rights {
                write: above.write && writable(e),
                execute: above.execute && !no_execute(e),
            };
            self.lemma_walk_with_table(
                before,
                t,
                i,
                frame,
                v,
                (level - 1) as nat,
                c,
                rights,
            );
        }
    }

    /// Adding an empty table changes no translation.
    proof fn lemma_table_translates(
        self,
        before: PageTables,
        t: int,
        i: int,
        frame: u64,
        v: u64,
    )
        requires
            before.wf(),
            before.lacks_table(t, i, frame),
            self.is_with_table(before, t, i, frame),
        ensures
            self.translate(v) == before.translate(v),
    {
        reveal(PageTables::translate);
        lemma_block(v, 3);
        assert(self.frames@[0] == before.frames@[0]);
        self.lemma_walk_with_table(before, t, i, frame, v, 3, 0, all_rights());
    }

    /// A walk that came to an unused entry reaches the table added below it.
    proof fn lemma_reached_with_table(
        self,
        before: PageTables,
        virt: u64,
        level: nat,
        frame: u64,
        k: nat,
    )
        requires
            before.wf(),
            1 <= level <= k <= 3,
            before.reached(virt, level) is Some,
            before.lacks_table(before.reached(virt, level)->0, index(virt, level), frame),
            self.is_with_table(
                before,
                before.reached(virt, level)->0,
                index(virt, level),
                frame,
            ),
        ensures
            self.reached(virt, k) == before.reached(virt, k),
            before.reached(virt, k) is Some,
            k == level ==> self.reached(virt, (level - 1) as nat) == Some(
                before.frames@.len() as int,
            ),
        decreases 3 - k,
    {
        let t = before.reached(virt, level)->0;
        let i = index(virt, level);
        let n = before.frames@.len() as int;
        before.lemma_reached_from_above(virt, level, k);
        before.lemma_reached(virt, level);
        self.lemma_table_wf(before, t, i, frame);
        self.lemma_with_table(before, t, i, frame);
        if k < 3 {
            self.lemma_reached_with_table(before, virt, level, frame, k + 1);
            let u = before.reached(virt, k + 1)->0;
            before.lemma_reached(virt, k + 1);
            lemma_block(virt, k + 1);
            assert(u != t);
            let c = before.lemma_child(virt, k + 1, u);
            assert(self.frames@[c] == before.frames@[c]);
            self.lemma_table_in(c);
        }
        if k == level {
            assert(self.frames@[n] == frame);
            self.lemma_table_in(n);
            lemma_table_entry(frame);
            assert(self.entry_at(t, i) == table_entry(frame as int) as u64);
        }
    }
}

/// Why a mapping was refused.
#[derive(Clone, Copy, Debug, PartialEq, Eq, Structural)]
pub enum MapError {
    /// The request is not made of whole pages. Refused rather than rounded: a
    /// rounded mapping either exposes memory the caller did not ask for or omits
    /// memory it did.
    Misaligned,
    /// Part of the range is mapped by a page larger than the request asks for
    /// there.
    Collides,
    /// A table is needed and there is no spare frame for it.
    OutOfFrames,
}

impl MapError {
    /// The stage a refusal is reported as.
    #[must_use]
    pub fn stage(self) -> (text: &'static str)
        ensures
            text@ == (match self {
                MapError::Misaligned => "misaligned mapping request"@,
                MapError::Collides => "mapping collides with an existing large page"@,
                MapError::OutOfFrames => "allocate page table"@,
            }),
    {
        match self {
            MapError::Misaligned => "misaligned mapping request",
            MapError::Collides => "mapping collides with an existing large page",
            MapError::OutOfFrames => "allocate page table",
        }
    }
}

/// The places of the tables that a page at `level` for `v` hangs below, but for
/// the root.
pub open spec fn path(v: u64, level: nat) -> Set<Place> {
    if level == 0 {
        set![place(v, 0), place(v, 1), place(v, 2)]
    } else if level == 1 {
        set![place(v, 1), place(v, 2)]
    } else if level == 2 {
        set![place(v, 2)]
    } else {
        Set::empty()
    }
}

impl PageTables {
    /// The places at which there is a table.
    pub open spec fn taken(self) -> Set<Place> {
        self.places@.to_set()
    }

    /// The places at which there was no table before.
    pub open spec fn added(self, before: PageTables) -> Set<Place> {
        self.taken().difference(before.taken())
    }

    /// Whether some frames can become tables of this tree: whole pages of physical
    /// memory, all different, and none of them a table already.
    pub open spec fn can_take(self, spare: Seq<u64>) -> bool {
        &&& forall|k: int|
            0 <= k < spare.len() ==> is_frame(#[trigger] spare[k]) && !self.frames@.contains(
                spare[k],
            )
        &&& forall|j: int, k: int|
            0 <= j < k < spare.len() ==> #[trigger] spare[j] != #[trigger] spare[k]
    }

    /// Whether a page at `level` for `v` would fall inside a larger page.
    pub open spec fn blocked(self, v: u64, level: nat) -> bool {
        self.translate(v) matches Some(m) && m.size > span(level)
    }

    /// Whether `self` has the tables of `before` and `used` new ones.
    pub open spec fn gained(self, before: PageTables, used: int) -> bool {
        &&& self.gib_pages == before.gib_pages
        &&& before.taken().subset_of(self.taken())
        &&& self.added(before).finite()
        &&& self.added(before).len() == used
    }

    /// Whether every table of `before` is still in its frame and at its place, and
    /// the new ones are in the frames that have gone from `had`, the last of them
    /// first, which leaves `left`.
    pub open spec fn takes(self, before: PageTables, had: Seq<u64>, left: Seq<u64>) -> bool {
        &&& left.len() <= had.len()
        &&& left == had.take(left.len() as int)
        &&& self.frames@ == before.frames@ + had.skip(left.len() as int).reverse()
        &&& before.places@.is_prefix_of(self.places@)
    }

    /// Whether `self` is what `before` has become by making new tables, one in each
    /// of the spare frames that have gone from `had`, which leaves `left`.
    pub open spec fn grew(self, before: PageTables, had: Seq<u64>, left: Seq<u64>) -> bool {
        &&& self.takes(before, had, left)
        &&& self.gained(before, had.len() - left.len())
    }

    /// Whether `self` is what `before` has become by using up all of `had` spare
    /// frames for tables of those that are wanted, some of which are still missing.
    pub open spec fn ran_out(self, before: PageTables, wanted: Set<Place>, had: nat) -> bool {
        &&& wanted.difference(self.taken()).len() > 0
        &&& wanted.difference(self.taken()).len() + had == wanted.difference(
            before.taken(),
        ).len()
    }

    /// A page found from a table at `level` on is no larger than its entries span.
    proof fn lemma_walk_size(self, level: nat, frame: int, v: u64, above: Rights)
        requires
            level <= 3,
        ensures
            self.walk(level, frame, v, above) matches Some(m) ==> m.size <= span(level),
        decreases level,
    {
        if let Some(t) = self.table_in(frame) {
            let e = self.entry_at(t, index(v, level));
            if present(e) && level > 0 && !huge(e) {
                let rights = Rights {
                    write: above.write && writable(e),
                    execute: above.execute && !no_execute(e),
                };
                self.lemma_walk_size((level - 1) as nat, address(e) as int, v, rights);
            }
        }
    }

    /// An empty tree whose root is in `pml4`.
    #[must_use]
    pub fn new(pml4: u64, gib_pages: bool) -> (tables: PageTables)
        requires
            is_frame(pml4),
        ensures
            tables.wf(),
            tables.gib_pages == gib_pages,
            tables.frames@ == seq![pml4],
            tables.taken() == set![Place { level: 3, block: 0 }],
            forall|v: u64| #[trigger] tables.translate(v) is None,
    {
        let mut frames: Vec<u64> = Vec::new();
        frames.push(pml4);
        let mut entries: Vec<u64> = Vec::new();
        push_empty(&mut entries);
        let ghost root = seq![Place { level: 3, block: 0 }];
        let tables = PageTables { gib_pages, frames, entries, places: Ghost(root) };
        proof {
            assert(forall|i: int| 0 <= i < 512 ==> #[trigger] tables.entry_at(0, i) == 0);
            assert(tables.places@[0] == (Place { level: 3, block: 0 }));
            assert(tables.places@.to_set() =~= set![Place { level: 3, block: 0 }]);
            assert forall|v: u64| #[trigger] tables.translate(v) is None by {
                reveal(PageTables::translate);
                tables.lemma_table_in(0);
                lemma_block(v, 3);
            }
        }
        tables
    }

    /// The table in a frame that holds one.
    fn find(&self, frame: u64) -> (t: usize)
        requires
            self.wf(),
            self.table_in(frame as int) is Some,
        ensures
            self.table_in(frame as int) == Some(t as int),
            t < self.frames@.len(),
    {
        let mut t: usize = 0;
        let ghost at = self.table_in(frame as int)->0;
        while self.frames[t] != frame
            invariant
                self.wf(),
                0 <= t <= at < self.frames.len(),
                self.frames@[at] == frame,
                self.table_in(frame as int) == Some(at),
            decreases self.frames.len() - t,
        {
            t = t + 1;
        }
        proof {
            self.lemma_table_in(t as int);
        }
        t
    }

    /// Follow the entry that `virt` goes through in table `t` to the next level,
    /// adding that level if it is absent.
    fn next_table(&mut self, spare: &mut Vec<u64>, t: usize, virt: u64, level: usize) -> (result:
        Result<usize, MapError>)
        requires
            old(self).wf(),
            old(self).can_take(old(spare)@),
            1 <= level <= 3,
            old(self).reached(virt, level as nat) == Some(t as int),
        ensures
            final(self).wf(),
            final(self).can_take(final(spare)@),
            final(self).grew(*old(self), old(spare)@, final(spare)@),
            forall|v: u64| #[trigger] final(self).translate(v) == old(self).translate(v),
            match result {
                Ok(c) => {
                    &&& final(self).reached(virt, (level - 1) as nat) == Some(c as int)
                    &&& final(self).taken() == old(self).taken().insert(
                        place(virt, (level - 1) as nat),
                    )
                    &&& final(self).added(*old(self)).len() > 0 ==> old(self).translate(
                        virt,
                    ) is None
                },
                Err(MapError::Collides) => {
                    &&& *final(self) == *old(self)
                    &&& old(self).translate(virt) is Some
                    &&& old(self).translate(virt)->0.size == span(level as nat)
                },
                Err(MapError::OutOfFrames) => {
                    &&& *final(self) == *old(self)
                    &&& final(spare)@.len() == 0
                    &&& old(self).translate(virt) is None
                    &&& !old(self).taken().contains(place(virt, (level - 1) as nat))
                },
                Err(MapError::Misaligned) => false,
            },
    {
        let ghost before = *self;
        proof {
            self.lemma_reached(virt, level as nat);
            self.lemma_table_in(t as int);
            lemma_block(virt, level as nat);
            assert(self.added(before) =~= Set::empty());
            lemma_takes_nothing(before, spare@);
        }
        let i = index_of(virt, level);
        assert(512 * t + i < self.entries.len());
        let e = self.entries[512 * t + i];
        assert(e == self.entry_at(t as int, index(virt, level as nat)));
        if e % 2 == 1 {
            if (e / 0x80) % 2 == 1 {
                return Err(MapError::Collides);
            }
            let ghost child = before.lemma_child(virt, level as nat, t as int);
            let c = self.find(e % 0x10_0000_0000_0000 / 0x1000 * 0x1000);
            proof {
                assert(self.places@.contains(self.places@[c as int]));
                assert(self.taken() =~= before.taken().insert(place(virt, (level - 1) as nat)));
            }
            return Ok(c);
        }
        let ghost at = place(virt, (level - 1) as nat);
        proof {
            assert(!self.taken().contains(at)) by {
                if self.places@.contains(at) {
                    let c = choose|c: int| 0 <= c < self.places@.len() && self.places@[c] == at;
                    self.lemma_place_is_free(t as int, i as int, c);
                }
            }
        }
        match spare.pop() {
            None => Err(MapError::OutOfFrames),
            Some(frame) => {
                let c = self.frames.len();
                assert(old(spare)@[old(spare)@.len() - 1] == frame);
                assert(before.lacks_table(t as int, i as int, frame));
                self.entries.set(512 * t + i, frame + 3);
                push_empty(&mut self.entries);
                self.frames.push(frame);
                self.places = Ghost(self.places@.push(at));
                proof {
                    assert(self.is_with_table(before, t as int, i as int, frame));
                    self.lemma_table_wf(before, t as int, i as int, frame);
                    assert forall|v: u64| #[trigger] self.translate(v) == before.translate(v) by {
                        self.lemma_table_translates(before, t as int, i as int, frame, v);
                    }
                    self.lemma_reached_with_table(
                        before,
                        virt,
                        level as nat,
                        frame,
                        level as nat,
                    );
                    crate::sequences::lemma_push_contains(before.places@, at);
                    crate::sequences::lemma_push_contains(before.frames@, frame);
                    assert(self.taken() =~= before.taken().insert(at));
                    assert(self.added(before) =~= Set::empty().insert(at));
                    assert(spare@ =~= old(spare)@.take(spare@.len() as int));
                    assert(self.frames@ =~= before.frames@ + old(spare)@.skip(
                        spare@.len() as int,
                    ).reverse());
                }
                Ok(c)
            },
        }
    }
}

/// Which entry of a table at `level` an address goes through.
fn index_of(virt: u64, level: usize) -> (i: usize)
    requires
        level <= 3,
    ensures
        i == index(virt, level as nat),
        i < 512,
{
    let blocks = if level == 0 {
        virt / 0x1000
    } else if level == 1 {
        virt / SIZE_2M
    } else if level == 2 {
        virt / SIZE_1G
    } else {
        virt / 0x80_0000_0000
    };
    (blocks % 512) as usize
}

/// Append the entries of an empty table.
fn push_empty(entries: &mut Vec<u64>)
    ensures
        final(entries)@ == old(entries)@ + Seq::new(512, |j: int| 0u64),
{
    let mut k: usize = 0;
    while k < TABLE_ENTRIES
        invariant
            k <= 512,
            entries@ =~= old(entries)@ + Seq::new(k as nat, |j: int| 0u64),
        decreases 512 - k,
    {
        entries.push(0);
        k = k + 1;
    }
}

/// How far `v` lies above `virt`, in the 48 bits that the processor translates.
pub open spec fn offset(v: u64, virt: u64) -> int {
    (v - virt) % 0x1_0000_0000_0000
}

/// Numbers below a multiple of `s` that lie in one block of `s`, the second of
/// them at its start.
proof fn lemma_one_block(a: int, b: int, s: int, k: int)
    requires
        s > 0,
        0 <= a,
        0 <= b < k * s,
        b % s == 0,
    ensures
        a / s == b / s <==> 0 <= a - b < s,
        a / s == b / s ==> a % s == a - b,
        b + s <= k * s,
{
    let j = b / s;
    let i = a / s;
    vstd::arithmetic::div_mod::lemma_fundamental_div_mod(a, s);
    vstd::arithmetic::div_mod::lemma_fundamental_div_mod(b, s);
    vstd::arithmetic::div_mod::lemma_mod_bound(a, s);
    assert(a == s * i + a % s && b == s * j);
    assert(i != j ==> !(0 <= s * i + a % s - s * j < s)) by (nonlinear_arith)
        requires
            0 <= a % s < s,
    ;
    assert(s * j + s <= k * s) by (nonlinear_arith)
        requires
            s * j < k * s,
            s > 0,
    ;
}

/// Taking the 48 bits that are translated keeps the place in a block.
proof fn lemma_low_bits(n: int, level: nat)
    requires
        level <= 2,
        n >= 0,
    ensures
        (n % 0x1_0000_0000_0000) % span(level) == n % span(level),
        exists|k: int| 0x1_0000_0000_0000 == #[trigger] (k * span(level)),
{
    let m = 0x1_0000_0000_0000int;
    let q = n / m;
    assert(n == q * m + n % m);
    let s = span(level);
    let k: int = if level == 0 {
        0x10_0000_0000
    } else if level == 1 {
        0x800_0000
    } else {
        0x4_0000
    };
    assert(m == k * s);
    assert(q * m == (q * k) * s) by (nonlinear_arith)
        requires
            m == k * s,
    ;
    vstd::arithmetic::div_mod::lemma_mod_multiples_vanish(q * k, n % m, s);
    assert(s * (q * k) == (q * k) * s) by (nonlinear_arith);
}

/// A block that starts in a range is the same part of the range.
proof fn lemma_offset(v: u64, virt: u64, off: int, level: nat)
    requires
        level <= 2,
        0 <= off,
        virt + off <= u64::MAX,
        (virt + off) % span(level) == 0,
        off + span(level) <= 0x1_0000_0000_0000,
    ensures
        block(v, level) == block((virt + off) as u64, level) <==> off <= offset(v, virt) < off
            + span(level),
        block(v, level) == block((virt + off) as u64, level) ==> v as int % span(level) == offset(
            v,
            virt,
        ) - off,
{
    let m = 0x1_0000_0000_0000int;
    let w = virt + off;
    let a = v as int % m;
    let b = w % m;
    let s = span(level);
    lemma_low_bits(v as int, level);
    lemma_low_bits(w, level);
    let k = choose|k: int| 0x1_0000_0000_0000 == #[trigger] (k * span(level));
    lemma_one_block(a, b, s, k);
    let x = a - b + off;
    let c = v as int / m - w / m;
    assert(v - virt == c * m + x);
    assert((c * m + x) % m == x % m);
}

/// The level whose pages map the next part of a request: the largest page that
/// both alignments and what is left allow, and no larger than `largest`.
pub open spec fn page_level(largest: nat, v: int, p: int, left: int) -> nat {
    if largest >= 2 && v % 0x4000_0000 == 0 && p % 0x4000_0000 == 0 && left >= 0x4000_0000 {
        2
    } else if largest >= 1 && v % 0x20_0000 == 0 && p % 0x20_0000 == 0 && left >= 0x20_0000 {
        1
    } else {
        0
    }
}

/// The level of the page that maps the address `off` above the start of a
/// request.
pub open spec fn level_at(largest: nat, v: int, p: int, left: int, off: int) -> nat
    decreases left,
{
    let level = page_level(largest, v, p, left);
    let s = span(level);
    if left < 0x1000 || off < s {
        level
    } else {
        level_at(largest, v + s, p + s, left - s, off - s)
    }
}

/// Every page of a request that is mapped 4 KiB at a time is a small one.
pub proof fn lemma_small(v: int, p: int, left: int, off: int)
    ensures
        level_at(0, v, p, left, off) == 0,
    decreases left,
{
    if left >= 0x1000 && off >= 0x1000 {
        lemma_small(v + 0x1000, p + 0x1000, left - 0x1000, off - 0x1000);
    }
}

/// The places at which a request needs tables, if nothing is in its way.
pub open spec fn paths(largest: nat, v: int, p: int, left: int) -> Set<Place>
    decreases left,
{
    let level = page_level(largest, v, p, left);
    let s = span(level);
    if left < 0x1000 {
        Set::empty()
    } else {
        path(v as u64, level) + paths(largest, v + s, p + s, left - s)
    }
}

impl PageTables {
    /// How many bytes of a request are mapped before a page of it falls inside a
    /// larger one or lacks a table that there is no frame for, where there are
    /// tables at the places `have` and `spare` frames for more.
    pub open spec fn stops(self, largest: nat, have: Set<Place>, spare: int, v: int, p: int, left: int) -> int
        decreases left,
    {
        let level = page_level(largest, v, p, left);
        let s = span(level);
        let lack = path(v as u64, level).difference(have);
        if left < 0x1000 || self.blocked(v as u64, level) || lack.len() > spare {
            0
        } else {
            s + self.stops(
                largest,
                have + path(v as u64, level),
                spare - lack.len(),
                v + s,
                p + s,
                left - s,
            )
        }
    }

    /// How many bytes of a request are mapped with `spare` frames for new tables.
    pub open spec fn done(self, largest: nat, spare: nat, virt: u64, phys: u64, size: u64) -> int {
        self.stops(largest, self.taken(), spare as int, virt as int, phys as int, size as int)
    }

    /// The places at which a request needs tables, up to the first page of it
    /// that falls inside a larger one.
    pub open spec fn needed(self, largest: nat, v: int, p: int, left: int) -> Set<Place>
        decreases left,
    {
        let level = page_level(largest, v, p, left);
        let s = span(level);
        if left < 0x1000 || self.blocked(v as u64, level) {
            Set::empty()
        } else {
            path(v as u64, level) + self.needed(largest, v + s, p + s, left - s)
        }
    }

    /// Whether some page of a request falls inside a larger one.
    pub open spec fn collides(self, largest: nat, v: int, p: int, left: int) -> bool
        decreases left,
    {
        let level = page_level(largest, v, p, left);
        let s = span(level);
        left >= 0x1000 && (self.blocked(v as u64, level) || self.collides(largest, v + s, p + s, left - s))
    }

    /// Whether the first `done` bytes of a request are mapped as it asks and
    /// everything else is translated as before.
    pub open spec fn maps(
        self,
        largest: nat,
        before: PageTables,
        virt: u64,
        phys: u64,
        size: u64,
        rights: Rights,
        done: int,
    ) -> bool {
        forall|v: u64| #[trigger]
            self.translate(v) == (if offset(v, virt) < done {
                Some(
                    Translation {
                        phys: phys + offset(v, virt),
                        rights,
                        size: span(
                            level_at(
                                largest,
                                virt as int,
                                phys as int,
                                size as int,
                                offset(v, virt),
                            ),
                        ),
                    },
                )
            } else {
                before.translate(v)
            })
    }

    /// Install one page at `level` for `virt`.
    fn map_page(
        &mut self,
        spare: &mut Vec<u64>,
        virt: u64,
        phys: u64,
        rights: Rights,
        level: usize,
    ) -> (result: Result<(), MapError>)
        requires
            old(self).wf(),
            old(self).can_take(old(spare)@),
            level <= 2,
            is_frame(phys),
            phys as int % span(level as nat) == 0,
        ensures
            final(self).wf(),
            final(self).can_take(final(spare)@),
            final(self).grew(*old(self), old(spare)@, final(spare)@),
            final(self).added(*old(self)).subset_of(path(virt, level as nat)),
            match result {
                Ok(()) => {
                    &&& !old(self).blocked(virt, level as nat)
                    &&& path(virt, level as nat).subset_of(final(self).taken())
                    &&& forall|v: u64| #[trigger]
                        final(self).translate(v) == (if block(v, level as nat) == block(
                            virt,
                            level as nat,
                        ) {
                            Some(
                                Translation {
                                    phys: phys + v as int % span(level as nat),
                                    rights,
                                    size: span(level as nat),
                                },
                            )
                        } else {
                            old(self).translate(v)
                        })
                },
                Err(MapError::Collides) => {
                    &&& old(self).blocked(virt, level as nat)
                    &&& final(self).taken() == old(self).taken()
                    &&& forall|v: u64| #[trigger]
                        final(self).translate(v) == old(self).translate(v)
                },
                Err(MapError::OutOfFrames) => {
                    &&& !old(self).blocked(virt, level as nat)
                    &&& final(spare)@.len() == 0
                    &&& !path(virt, level as nat).subset_of(final(self).taken())
                    &&& forall|v: u64| #[trigger]
                        final(self).translate(v) == old(self).translate(v)
                },
                Err(MapError::Misaligned) => false,
            },
    {
        let ghost before = *self;
        let mut t: usize = 0;
        let mut k: usize = 3;
        proof {
            assert(self.added(before) =~= Set::empty());
            lemma_takes_nothing(before, spare@);
        }
        while k > level
            invariant
                level <= k <= 3,
                level <= 2,
                before == *old(self),
                before.wf(),
                self.wf(),
                self.can_take(spare@),
                self.grew(before, old(spare)@, spare@),
                self.reached(virt, k as nat) == Some(t as int),
                self.added(before).subset_of(path(virt, k as nat)),
                path(virt, k as nat).subset_of(self.taken()),
                self.added(before).len() > 0 ==> before.translate(virt) is None,
                forall|v: u64| #[trigger] self.translate(v) == before.translate(v),
            decreases k,
        {
            let ghost above = *self;
            let ghost had = spare@;
            let ghost down = (k - 1) as nat;
            proof {
                assert(path(virt, down) =~= path(virt, k as nat).insert(place(virt, down)));
                assert(path(virt, down).subset_of(path(virt, level as nat)));
            }
            match self.next_table(spare, t, virt, k) {
                Ok(c) => {
                    proof {
                        lemma_added(above, *self, before, place(virt, down));
                        lemma_takes(*self, above, before, old(spare)@, had, spare@);
                    }
                    t = c;
                },
                Err(e) => {
                    proof {
                        assert(self.translate(virt) == before.translate(virt));
                        assert(path(virt, level as nat).contains(place(virt, down)));
                        assert(self.added(above) =~= Set::empty());
                        lemma_takes(*self, above, before, old(spare)@, had, spare@);
                        if e == MapError::Collides {
                            assert(self.added(before).len() == 0);
                            self.added(before).lemma_len0_is_empty();
                            assert forall|p: Place| self.taken().contains(
                                p,
                            ) implies before.taken().contains(p) by {
                                assert(!self.added(before).contains(p));
                            }
                            assert(self.taken() =~= before.taken());
                        }
                    }
                    return Err(e);
                },
            }
            k = k - 1;
        }
        let ghost above = *self;
        proof {
            self.lemma_reached(virt, level as nat);
            lemma_block(virt, level as nat);
            self.lemma_walk_size(level as nat, self.frames@[t as int] as int, virt, all_rights());
            assert(self.translate(virt) == before.translate(virt));
            law_an_entry_says_what_was_asked(phys, rights, level > 0);
        }
        let i = index_of(virt, level);
        assert(512 * t + i < self.entries.len());
        self.entries.set(512 * t + i, leaf(phys, rights, level > 0));
        proof {
            self.lemma_leaf_wf(above, virt, level as nat, phys, rights);
            assert forall|v: u64| #[trigger]
                self.translate(v) == (if block(v, level as nat) == block(virt, level as nat) {
                    Some(
                        Translation {
                            phys: phys + v as int % span(level as nat),
                            rights,
                            size: span(level as nat),
                        },
                    )
                } else {
                    before.translate(v)
                }) by {
                if block(v, level as nat) == block(virt, level as nat) {
                    self.lemma_leaf_inside(above, virt, level as nat, phys, rights, v);
                } else {
                    self.lemma_leaf_outside(above, virt, level as nat, phys, rights, v);
                    assert(above.translate(v) == before.translate(v));
                }
            }
        }
        Ok(())
    }
}

/// A tree that has not changed has taken nothing.
pub proof fn lemma_takes_nothing(tables: PageTables, spare: Seq<u64>)
    ensures
        tables.takes(tables, spare, spare),
{
    assert(spare =~= spare.take(spare.len() as int));
    assert(tables.frames@ =~= tables.frames@ + spare.skip(spare.len() as int).reverse());
}

/// What has been taken step by step is what has been taken in all.
pub proof fn lemma_takes(
    now: PageTables,
    above: PageTables,
    before: PageTables,
    had: Seq<u64>,
    mid: Seq<u64>,
    left: Seq<u64>,
)
    requires
        above.takes(before, had, mid),
        now.takes(above, mid, left),
    ensures
        now.takes(before, had, left),
{
    assert(left =~= had.take(left.len() as int));
    assert(had.skip(left.len() as int).reverse() =~= had.skip(mid.len() as int).reverse()
        + mid.skip(left.len() as int).reverse());
    assert(now.frames@ =~= before.frames@ + had.skip(left.len() as int).reverse());
}

/// What has been added since `before` when one more place has been taken.
proof fn lemma_added(above: PageTables, now: PageTables, before: PageTables, at: Place)
    requires
        before.taken().subset_of(above.taken()),
        now.taken() == above.taken().insert(at),
        above.added(before).finite(),
    ensures
        now.added(before).finite(),
        now.added(before).subset_of(above.added(before).insert(at)),
        now.added(before).len() == above.added(before).len() + now.added(above).len(),
{
    if above.taken().contains(at) {
        assert(now.added(before) =~= above.added(before));
        assert(now.added(above) =~= Set::empty());
    } else {
        assert(now.added(before) =~= above.added(before).insert(at));
        assert(now.added(above) =~= Set::empty().insert(at));
    }
}

/// The entry that maps a page at `phys`.
fn leaf(phys: u64, rights: Rights, large: bool) -> (e: u64)
    requires
        is_frame(phys),
    ensures
        e == leaf_entry(phys as int, rights, large),
{
    let w: u64 = if rights.write {
        2
    } else {
        0
    };
    let l: u64 = if large {
        0x80
    } else {
        0
    };
    let x: u64 = if rights.execute {
        0
    } else {
        0x8000_0000_0000_0000
    };
    phys + 1 + w + l + x
}

/// The level of the largest page that can start a request.
fn largest_level(largest: usize, v: u64, p: u64, left: u64) -> (level: usize)
    ensures
        level == page_level(largest as nat, v as int, p as int, left as int),
{
    if largest >= 2 && v % SIZE_1G == 0 && p % SIZE_1G == 0 && left >= SIZE_1G {
        2
    } else if largest >= 1 && v % SIZE_2M == 0 && p % SIZE_2M == 0 && left >= SIZE_2M {
        1
    } else {
        0
    }
}

/// How many bytes a page of a level covers.
fn page_size(level: usize) -> (size: u64)
    requires
        level <= 2,
    ensures
        size == span(level as nat),
{
    if level == 2 {
        SIZE_1G
    } else if level == 1 {
        SIZE_2M
    } else {
        PAGE_SIZE
    }
}

/// Whether a request is made of whole pages.
pub open spec fn whole_pages(virt: u64, phys: u64, size: u64) -> bool {
    virt % PAGE_SIZE == 0 && phys % PAGE_SIZE == 0 && size % PAGE_SIZE == 0
}

/// What has been added step by step is what has been added in all.
pub proof fn lemma_gained(now: PageTables, above: PageTables, before: PageTables, u: int, w: int)
    requires
        above.gained(before, u),
        now.gained(above, w),
    ensures
        now.gained(before, u + w),
        now.added(before) == above.added(before) + now.added(above),
{
    assert(now.added(before) =~= above.added(before) + now.added(above));
    assert(above.added(before).disjoint(now.added(above)));
    vstd::set_lib::lemma_set_disjoint_lens(above.added(before), now.added(above));
}

/// A tree that has grown step by step has grown in all.
pub proof fn lemma_grew(
    now: PageTables,
    above: PageTables,
    before: PageTables,
    had: Seq<u64>,
    mid: Seq<u64>,
    left: Seq<u64>,
)
    requires
        above.grew(before, had, mid),
        now.grew(above, mid, left),
    ensures
        now.grew(before, had, left),
        now.added(before) == above.added(before) + now.added(above),
        now.taken() == before.taken() + now.added(before),
{
    lemma_takes(now, above, before, had, mid, left);
    lemma_gained(now, above, before, had.len() - mid.len(), mid.len() - left.len());
    assert(now.taken() =~= before.taken() + now.added(before));
}

/// The tables of a tree that has grown are those it had and those it gained.
pub proof fn lemma_grew_taken(now: PageTables, before: PageTables, had: Seq<u64>, left: Seq<u64>)
    requires
        now.grew(before, had, left),
    ensures
        now.taken() == before.taken() + now.added(before),
{
    assert(now.taken() =~= before.taken() + now.added(before));
}

/// One of some places, of which there are any.
pub proof fn lemma_lacks_one(places: Set<Place>) -> (x: Place)
    requires
        places.len() > 0,
    ensures
        places.contains(x),
{
    if places =~= Set::empty() {
        assert(places.len() == 0);
    }
    choose|x: Place| places.contains(x)
}

/// A request needs tables at finitely many places.
pub proof fn lemma_paths_finite(largest: nat, v: int, p: int, left: int)
    ensures
        paths(largest, v, p, left).finite(),
    decreases left,
{
    let level = page_level(largest, v, p, left);
    if left >= 0x1000 {
        lemma_paths_finite(largest, v + span(level), p + span(level), left - span(level));
    }
}

/// A tree that has used up its frames for tables that are wanted, and still lacks
/// one, has run out.
pub proof fn lemma_ran_out(
    now: PageTables,
    before: PageTables,
    wanted: Set<Place>,
    had: nat,
    x: Place,
)
    requires
        wanted.finite(),
        now.gained(before, had as int),
        now.added(before).subset_of(wanted),
        wanted.contains(x),
        !now.taken().contains(x),
    ensures
        now.ran_out(before, wanted, had),
{
    let lacked = wanted.difference(before.taken());
    let lacks = wanted.difference(now.taken());
    assert(lacked =~= lacks + now.added(before));
    assert(lacks.disjoint(now.added(before)));
    vstd::set_lib::lemma_set_disjoint_lens(lacks, now.added(before));
    assert(lacks.contains(x));
    if lacks.len() == 0 {
        lacks.lemma_len0_is_empty();
    }
}

/// What a request needs is what it needs with nothing in its way, up to what is in
/// its way.
pub proof fn lemma_needed_paths(largest: nat, tables: PageTables, v: int, p: int, left: int)
    ensures
        paths(largest, v, p, left).finite(),
        tables.needed(largest, v, p, left).subset_of(paths(largest, v, p, left)),
        !tables.collides(largest, v, p, left) ==> tables.needed(largest, v, p, left) == paths(
            largest,
            v,
            p,
            left,
        ),
    decreases left,
{
    let level = page_level(largest, v, p, left);
    if left >= 0x1000 {
        lemma_needed_paths(largest, tables, v + span(level), p + span(level), left - span(level));
    }
}

proof fn lemma_needed_finite(largest: nat, tables: PageTables, v: int, p: int, left: int)
    ensures
        tables.needed(largest, v, p, left).finite(),
    decreases left,
{
    let level = page_level(largest, v, p, left);
    if left >= 0x1000 {
        lemma_needed_finite(largest, tables, v + span(level), p + span(level), left - span(level));
    }
}

impl PageTables {
    /// The tables that a request still lacks.
    pub open spec fn missing(self, largest: nat, virt: u64, phys: u64, size: u64) -> Set<Place> {
        self.needed(largest, virt as int, phys as int, size as int).difference(self.taken())
    }

    /// What a request comes to: it is refused if it is not made of whole pages,
    /// if there are fewer spare frames than tables are missing, and if some page
    /// of it falls inside a larger one, in that order.
    pub open spec fn verdict(self, largest: nat, spare: nat, virt: u64, phys: u64, size: u64) -> Result<
        (),
        MapError,
    > {
        if !whole_pages(virt, phys, size) {
            Err(MapError::Misaligned)
        } else if self.missing(largest, virt, phys, size).len() > spare {
            Err(MapError::OutOfFrames)
        } else if self.collides(largest, virt as int, phys as int, size as int) {
            Err(MapError::Collides)
        } else {
            Ok(())
        }
    }

    /// Whether `self` is what `before` has become by a request that came to
    /// `result`, with pages of no more than the level `largest` and spare frames of
    /// which `had` became `left`.
    ///
    /// What is refused for a collision or for want of frames is mapped up to the
    /// page that was refused. Tables are made for what is mapped, and for as much
    /// of the refused page as there are frames for, and for nothing else.
    pub open spec fn outcome(
        self,
        largest: nat,
        before: PageTables,
        had: Seq<u64>,
        left: Seq<u64>,
        virt: u64,
        phys: u64,
        size: u64,
        rights: Rights,
        result: Result<(), MapError>,
    ) -> bool {
        &&& self.grew(before, had, left)
        &&& result == before.verdict(largest, had.len(), virt, phys, size)
        &&& match result {
            Ok(()) => {
                &&& self.maps(largest, before, virt, phys, size, rights, size as int)
                &&& self.added(before) == before.missing(largest, virt, phys, size)
            },
            Err(MapError::Misaligned) => self == before && left == had,
            Err(MapError::Collides) => {
                let done = before.done(largest, had.len(), virt, phys, size);
                &&& self.maps(largest, before, virt, phys, size, rights, done)
                &&& self.added(before) == before.missing(largest, virt, phys, size)
            },
            Err(MapError::OutOfFrames) => {
                let done = before.done(largest, had.len(), virt, phys, size);
                let wanted = paths(largest, virt as int, phys as int, size as int);
                &&& self.maps(largest, before, virt, phys, size, rights, done)
                &&& left.len() == 0
                &&& self.added(before).subset_of(before.missing(largest, virt, phys, size))
                &&& self.ran_out(before, wanted, had.len())
            },
        }
    }

    /// The level of the largest pages of this tree.
    pub open spec fn largest(self) -> nat {
        if self.gib_pages {
            2
        } else {
            1
        }
    }

    /// Map `size` bytes of physical memory at `phys` to virtual `virt`.
    ///
    /// Uses the largest page size that both alignments and `size` allow. Tables
    /// that are missing are made in the spare frames. What a refused request has
    /// mapped before it was refused stays mapped.
    ///
    /// # Errors
    /// See [`MapError`].
    pub fn map(
        &mut self,
        spare: &mut Vec<u64>,
        virt: u64,
        phys: u64,
        size: u64,
        rights: Rights,
    ) -> (result: Result<(), MapError>)
        requires
            old(self).wf(),
            old(self).can_take(old(spare)@),
            whole_pages(virt, phys, size) ==> request(virt, phys, size),
        ensures
            final(self).wf(),
            final(self).can_take(final(spare)@),
            final(self).outcome(
                old(self).largest(),
                *old(self),
                old(spare)@,
                final(spare)@,
                virt,
                phys,
                size,
                rights,
                result,
            ),
    {
        let largest: usize = if self.gib_pages {
            2
        } else {
            1
        };
        self.map_up_to(spare, virt, phys, size, rights, largest)
    }

    /// Map `size` bytes of physical memory at `phys` to virtual `virt`, 4 KiB at a
    /// time: the granularity that rights are aligned to. See [`PageTables::map`].
    ///
    /// # Errors
    /// See [`MapError`].
    pub fn map_small(
        &mut self,
        spare: &mut Vec<u64>,
        virt: u64,
        phys: u64,
        size: u64,
        rights: Rights,
    ) -> (result: Result<(), MapError>)
        requires
            old(self).wf(),
            old(self).can_take(old(spare)@),
            whole_pages(virt, phys, size) ==> request(virt, phys, size),
        ensures
            final(self).wf(),
            final(self).can_take(final(spare)@),
            final(self).outcome(
                0,
                *old(self),
                old(spare)@,
                final(spare)@,
                virt,
                phys,
                size,
                rights,
                result,
            ),
    {
        self.map_up_to(spare, virt, phys, size, rights, 0)
    }

    /// Map a request with pages of no more than the level `largest`.
    #[verifier::spinoff_prover]
    #[verifier::rlimit(30)]
    fn map_up_to(
        &mut self,
        spare: &mut Vec<u64>,
        virt: u64,
        phys: u64,
        size: u64,
        rights: Rights,
        largest: usize,
    ) -> (result: Result<(), MapError>)
        requires
            largest <= 2,
            old(self).wf(),
            old(self).can_take(old(spare)@),
            whole_pages(virt, phys, size) ==> request(virt, phys, size),
        ensures
            final(self).wf(),
            final(self).can_take(final(spare)@),
            final(self).outcome(
                largest as nat,
                *old(self),
                old(spare)@,
                final(spare)@,
                virt,
                phys,
                size,
                rights,
                result,
            ),
    {
        let ghost before = *self;
        proof {
            assert(self.added(before) =~= Set::empty());
            assert(self.maps(largest as nat, before, virt, phys, size, rights, 0));
            lemma_takes_nothing(before, spare@);
        }
        if virt % PAGE_SIZE != 0 || phys % PAGE_SIZE != 0 || size % PAGE_SIZE != 0 {
            return Err(MapError::Misaligned);
        }
        let mut off: u64 = 0;
        assert(self.has_mapped(largest as nat, before, 0, virt, phys, size, rights, 0)) by {
            reveal(PageTables::has_mapped);
        }
        while off < size
            invariant
                before == *old(self),
                self.wf(),
                self.can_take(spare@),
                request(virt, phys, size),
                off <= size,
                off % 0x1000 == 0,
                largest <= 2,
                self.takes(before, old(spare)@, spare@),
                before.done(largest as nat, old(spare)@.len(), virt, phys, size) == off + before.stops(
                    largest as nat,
                    self.taken(),
                    spare@.len() as int,
                    virt + off,
                    phys + off,
                    size - off,
                ),
                self.has_mapped(
                    largest as nat,
                    before,
                    old(spare)@.len() - spare@.len(),
                    virt,
                    phys,
                    size,
                    rights,
                    off as int,
                ),
            decreases size - off,
        {
            let v = virt + off;
            let p = phys + off;
            let left = size - off;
            let level: usize = largest_level(largest, v, p, left);
            let step: u64 = page_size(level);
            let ghost above = *self;
            let ghost used = old(spare)@.len() - spare@.len();
            let ghost held = spare@;
            let ghost had = spare@.len();
            match self.map_page(spare, v, p, rights, level) {
                Ok(()) => {
                    proof {
                        lemma_takes(*self, above, before, old(spare)@, held, spare@);
                        lemma_still_blocked(
                            largest as nat,
                            above,
                            before,
                            used,
                            virt,
                            phys,
                            size,
                            rights,
                            off as int,
                            level as nat,
                        );
                        lemma_stops_on(*self, above, v, level as nat, had - spare@.len());
                        lemma_page_done(
                            largest as nat,
                            *self,
                            above,
                            before,
                            used,
                            had - spare@.len(),
                            virt,
                            phys,
                            size,
                            rights,
                            off as int,
                        );
                    }
                },
                Err(e) => {
                    proof {
                        let more = had - spare@.len();
                        let at = off as int;
                        lemma_takes(*self, above, before, old(spare)@, held, spare@);
                        lemma_still_blocked(
                            largest as nat,
                            above,
                            before,
                            used,
                            virt,
                            phys,
                            size,
                            rights,
                            at,
                            level as nat,
                        );
                        if e == MapError::OutOfFrames {
                            lemma_stops_here(*self, above, v, level as nat, more);
                        }
                        lemma_page_refused(
                            largest as nat,
                            *self,
                            above,
                            before,
                            used,
                            more,
                            virt,
                            phys,
                            size,
                            rights,
                            at,
                        );
                        if e == MapError::Collides {
                            lemma_page_collides(
                                largest as nat,
                                *self,
                                above,
                                before,
                                used,
                                more,
                                virt,
                                phys,
                                size,
                                rights,
                                at,
                            );
                        } else {
                            lemma_out_of_frames(
                                largest as nat,
                                *self,
                                above,
                                before,
                                used,
                                more,
                                virt,
                                phys,
                                size,
                                rights,
                                at,
                            );
                        }
                    }
                    return Err(e);
                },
            }
            off = off + step;
        }
        proof {
            lemma_all_done(
                largest as nat,
                *self,
                before,
                old(spare)@.len() - spare@.len(),
                virt,
                phys,
                size,
                rights,
            );
        }
        Ok(())
    }

    /// Where a request stands once its first `off` bytes have been mapped, with
    /// `used` new tables: what is still to come is what the rest of the request
    /// needs.
    #[verifier::opaque]
    pub open spec fn has_mapped(
        self,
        largest: nat,
        before: PageTables,
        used: int,
        virt: u64,
        phys: u64,
        size: u64,
        rights: Rights,
        off: int,
    ) -> bool {
        let all = before.needed(largest, virt as int, phys as int, size as int);
        let rest = before.needed(largest, virt + off, phys + off, size - off);
        &&& self.gained(before, used)
        &&& self.maps(largest, before, virt, phys, size, rights, off)
        &&& self.added(before).subset_of(all)
        &&& rest.subset_of(all)
        &&& all.subset_of(self.taken() + rest)
        &&& before.collides(largest, virt as int, phys as int, size as int) == before.collides(
            largest,
            virt + off,
            phys + off,
            size - off,
        )
        &&& forall|x: int|
            x >= 0 ==> #[trigger] level_at(
                largest,
                virt as int,
                phys as int,
                size as int,
                off + x,
            ) == level_at(largest, virt + off, phys + off, size - off, x)
    }
}

/// Whether a request is made of whole pages of addresses that exist.
pub open spec fn request(virt: u64, phys: u64, size: u64) -> bool {
    &&& whole_pages(virt, phys, size)
    &&& virt + size <= 0x1_0000_0000_0000_0000
    &&& phys + size <= 0x10_0000_0000_0000
    &&& size <= 0x1_0000_0000_0000
}

/// Whether a page of a request falls inside a larger one is the same now as
/// before anything was mapped.
proof fn lemma_still_blocked(
    largest: nat,
    above: PageTables,
    before: PageTables,
    used: int,
    virt: u64,
    phys: u64,
    size: u64,
    rights: Rights,
    off: int,
    level: nat,
)
    requires
        request(virt, phys, size),
        0 <= off < size,
        above.has_mapped(largest, before, used, virt, phys, size, rights, off),
    ensures
        above.blocked((virt + off) as u64, level) == before.blocked((virt + off) as u64, level),
{
    reveal(PageTables::has_mapped);
    let v = (virt + off) as u64;
    assert(offset(v, virt) == off);
    assert(above.translate(v) == before.translate(v));
}

/// A page whose tables have all been made: as many as were lacking.
proof fn lemma_stops_on(now: PageTables, above: PageTables, v: u64, level: nat, more: int)
    requires
        now.gained(above, more),
        now.added(above).subset_of(path(v, level)),
        path(v, level).subset_of(now.taken()),
    ensures
        path(v, level).difference(above.taken()).len() == more,
        now.taken() == above.taken() + path(v, level),
{
    assert(path(v, level).difference(above.taken()) =~= now.added(above));
    assert(now.taken() =~= above.taken() + path(v, level));
}

/// A page whose tables have not all been made: more were lacking.
proof fn lemma_stops_here(now: PageTables, above: PageTables, v: u64, level: nat, more: int)
    requires
        now.gained(above, more),
        now.added(above).subset_of(path(v, level)),
        !path(v, level).subset_of(now.taken()),
    ensures
        path(v, level).difference(above.taken()).len() > more,
{
    let lack = path(v, level).difference(above.taken());
    let x = choose|x: Place| path(v, level).contains(x) && !now.taken().contains(x);
    assert(now.added(above).insert(x).subset_of(lack));
    vstd::set_lib::lemma_len_subset(now.added(above).insert(x), lack);
}

/// One more page of a request mapped: where the request then stands.
proof fn lemma_page_done(
    largest: nat,
    now: PageTables,
    above: PageTables,
    before: PageTables,
    used: int,
    more: int,
    virt: u64,
    phys: u64,
    size: u64,
    rights: Rights,
    off: int,
)
    requires
        request(virt, phys, size),
        0 <= off < size,
        off % 0x1000 == 0,
        above.has_mapped(largest, before, used, virt, phys, size, rights, off),
        now.gained(above, more),
        ({
            let level = page_level(largest, virt + off, phys + off, size - off);
            let v = (virt + off) as u64;
            &&& !above.blocked(v, level)
            &&& now.added(above).subset_of(path(v, level))
            &&& path(v, level).subset_of(now.taken())
            &&& forall|v: u64| #[trigger]
                now.translate(v) == (if block(v, level) == block((virt + off) as u64, level) {
                    Some(
                        Translation {
                            phys: phys + off + v as int % span(level),
                            rights,
                            size: span(level),
                        },
                    )
                } else {
                    above.translate(v)
                })
        }),
    ensures
        ({
            let level = page_level(largest, virt + off, phys + off, size - off);
            now.has_mapped(largest, before, used + more, virt, phys, size, rights, off + span(level))
        }),
{
    reveal(PageTables::has_mapped);
    let g = largest;
    let v = (virt + off) as u64;
    let level = page_level(g, virt + off, phys + off, size - off);
    let step = span(level);
    lemma_still_blocked(largest, above, before, used, virt, phys, size, rights, off, level);
    lemma_gained(now, above, before, used, more);
    lemma_page_mapped(largest, now, above, before, virt, phys, size, rights, off);
    let all = before.needed(largest, virt as int, phys as int, size as int);
    let rest = before.needed(largest, virt + off, phys + off, size - off);
    let later = before.needed(largest, virt + off + step, phys + off + step, size - off - step);
    assert(rest == path(v, level) + later);
    assert(all.subset_of(now.taken() + later)) by {
        assert forall|p: Place| all.contains(p) implies (now.taken() + later).contains(p) by {
            assert((above.taken() + rest).contains(p));
        }
    }
    assert forall|x: int| x >= 0 implies #[trigger] level_at(
        g,
        virt as int,
        phys as int,
        size as int,
        off + step + x,
    ) == level_at(g, virt + off + step, phys + off + step, size - off - step, x) by {
        assert(level_at(g, virt as int, phys as int, size as int, off + (step + x)) == level_at(
            g,
            virt + off,
            phys + off,
            size - off,
            step + x,
        ));
    }
}

/// A page of a request refused: how far the request got.
proof fn lemma_page_refused(
    largest: nat,
    now: PageTables,
    above: PageTables,
    before: PageTables,
    used: int,
    more: int,
    virt: u64,
    phys: u64,
    size: u64,
    rights: Rights,
    off: int,
)
    requires
        above.has_mapped(largest, before, used, virt, phys, size, rights, off),
        now.gained(above, more),
        forall|v: u64| #[trigger] now.translate(v) == above.translate(v),
    ensures
        now.gained(before, used + more),
        now.maps(largest, before, virt, phys, size, rights, off),
{
    reveal(PageTables::has_mapped);
    lemma_gained(now, above, before, used, more);
    assert(above.maps(largest, before, virt, phys, size, rights, off));
    assert forall|v: u64| #[trigger]
        now.translate(v) == (if offset(v, virt) < off {
            Some(
                Translation {
                    phys: phys + offset(v, virt),
                    rights,
                    size: span(
                        level_at(
                            largest,
                            virt as int,
                            phys as int,
                            size as int,
                            offset(v, virt),
                        ),
                    ),
                },
            )
        } else {
            before.translate(v)
        }) by {
        assert(now.translate(v) == above.translate(v));
    }
}

/// A page of a request falls inside a larger one: every table before it is there.
proof fn lemma_page_collides(
    largest: nat,
    now: PageTables,
    above: PageTables,
    before: PageTables,
    used: int,
    more: int,
    virt: u64,
    phys: u64,
    size: u64,
    rights: Rights,
    off: int,
)
    requires
        request(virt, phys, size),
        0 <= off < size,
        above.has_mapped(largest, before, used, virt, phys, size, rights, off),
        now.gained(above, more),
        now.taken() == above.taken(),
        above.blocked(
            (virt + off) as u64,
            page_level(largest, virt + off, phys + off, size - off),
        ),
        off % 0x1000 == 0,
    ensures
        before.collides(largest, virt as int, phys as int, size as int),
        before.missing(largest, virt, phys, size).len() == used + more,
        now.added(before) == before.missing(largest, virt, phys, size),
{
    let level = page_level(largest, virt + off, phys + off, size - off);
    lemma_still_blocked(largest, above, before, used, virt, phys, size, rights, off, level);
    reveal(PageTables::has_mapped);
    lemma_gained(now, above, before, used, more);
    assert(now.added(above) =~= Set::empty());
    assert(now.added(before) =~= before.missing(largest, virt, phys, size));
}

/// There is no frame for a table: more are missing than there were frames.
proof fn lemma_out_of_frames(
    largest: nat,
    now: PageTables,
    above: PageTables,
    before: PageTables,
    used: int,
    more: int,
    virt: u64,
    phys: u64,
    size: u64,
    rights: Rights,
    off: int,
)
    requires
        request(virt, phys, size),
        0 <= off < size,
        off % 0x1000 == 0,
        above.has_mapped(largest, before, used, virt, phys, size, rights, off),
        now.gained(above, more),
        ({
            let level = page_level(largest, virt + off, phys + off, size - off);
            let v = (virt + off) as u64;
            &&& now.added(above).subset_of(path(v, level))
            &&& !above.blocked(v, level)
            &&& !path(v, level).subset_of(now.taken())
        }),
    ensures
        before.missing(largest, virt, phys, size).len() > used + more,
        now.added(before).subset_of(before.missing(largest, virt, phys, size)),
        now.ran_out(
            before,
            paths(largest, virt as int, phys as int, size as int),
            (used + more) as nat,
        ),
{
    let v = (virt + off) as u64;
    let level = page_level(largest, virt + off, phys + off, size - off);
    let missing = before.missing(largest, virt, phys, size);
    lemma_still_blocked(largest, above, before, used, virt, phys, size, rights, off, level);
    reveal(PageTables::has_mapped);
    lemma_gained(now, above, before, used, more);
    lemma_needed_finite(largest, before, virt as int, phys as int, size as int);
    let x = choose|x: Place| path(v, level).contains(x) && !now.taken().contains(x);
    let rest = before.needed(largest, virt + off, phys + off, size - off);
    assert(path(v, level).subset_of(rest));
    assert(missing.contains(x));
    assert(now.added(before).insert(x).subset_of(missing));
    vstd::set_lib::lemma_len_subset(now.added(before).insert(x), missing);
    let wanted = paths(largest, virt as int, phys as int, size as int);
    lemma_needed_paths(largest, before, virt as int, phys as int, size as int);
    lemma_ran_out(now, before, wanted, (used + more) as nat, x);
}

/// A whole request mapped: what it comes to.
proof fn lemma_all_done(
    largest: nat,
    now: PageTables,
    before: PageTables,
    used: int,
    virt: u64,
    phys: u64,
    size: u64,
    rights: Rights,
)
    requires
        now.has_mapped(largest, before, used, virt, phys, size, rights, size as int),
    ensures
        before.missing(largest, virt, phys, size).len() == used,
        now.added(before) == before.missing(largest, virt, phys, size),
        !before.collides(largest, virt as int, phys as int, size as int),
        now.gained(before, used),
        now.maps(largest, before, virt, phys, size, rights, size as int),
{
    reveal(PageTables::has_mapped);
    assert(now.added(before) =~= before.missing(largest, virt, phys, size));
}

/// One more page of a request mapped.
proof fn lemma_page_mapped(
    largest: nat,
    now: PageTables,
    above: PageTables,
    before: PageTables,
    virt: u64,
    phys: u64,
    size: u64,
    rights: Rights,
    off: int,
)
    requires
        0 <= off < size,
        virt + size <= 0x1_0000_0000_0000_0000,
        size <= 0x1_0000_0000_0000,
        size % PAGE_SIZE == 0,
        off % 0x1000 == 0,
        virt % PAGE_SIZE == 0,
        above.maps(largest, before, virt, phys, size, rights, off),
        forall|x: int|
            x >= 0 ==> #[trigger] level_at(
                largest,
                virt as int,
                phys as int,
                size as int,
                off + x,
            ) == level_at(largest, virt + off, phys + off, size - off, x),
        ({
            let level = page_level(largest, virt + off, phys + off, size - off);
            forall|v: u64| #[trigger]
                now.translate(v) == (if block(v, level) == block((virt + off) as u64, level) {
                    Some(
                        Translation {
                            phys: phys + off + v as int % span(level),
                            rights,
                            size: span(level),
                        },
                    )
                } else {
                    above.translate(v)
                })
        }),
    ensures
        ({
            let level = page_level(largest, virt + off, phys + off, size - off);
            now.maps(largest, before, virt, phys, size, rights, off + span(level))
        }),
{
    let level = page_level(largest, virt + off, phys + off, size - off);
    assert forall|v: u64| #[trigger]
        now.translate(v) == (if offset(v, virt) < off + span(level) {
            Some(
                Translation {
                    phys: phys + offset(v, virt),
                    rights,
                    size: span(
                        level_at(
                            largest,
                            virt as int,
                            phys as int,
                            size as int,
                            offset(v, virt),
                        ),
                    ),
                },
            )
        } else {
            before.translate(v)
        }) by {
        lemma_offset(v, virt, off, level);
        assert(above.translate(v) == above.translate(v));
        if offset(v, virt) >= off {
            let x = offset(v, virt) - off;
            assert(level_at(
                largest,
                virt as int,
                phys as int,
                size as int,
                off + x,
            ) == level_at(largest, virt + off, phys + off, size - off, x));
        }
    }
}

impl PageTables {
    /// The value to load into the page table register: the frame of the root.
    #[must_use]
    pub fn cr3(&self) -> (root: u64)
        requires
            self.wf(),
        ensures
            root == self.frames@[0],
    {
        self.frames[0]
    }

    /// Whether 1 GiB pages will be used for the large maps.
    #[must_use]
    pub fn uses_gib_pages(&self) -> (gib: bool)
        ensures
            gib == self.gib_pages,
    {
        self.gib_pages
    }

    /// Number of tables of the tree.
    #[must_use]
    pub fn table_count(&self) -> (n: usize)
        ensures
            n == self.frames@.len(),
    {
        self.frames.len()
    }

    /// The frame of a table, if there is that table.
    #[must_use]
    pub fn frame(&self, table: usize) -> (frame: Option<u64>)
        ensures
            frame == (if table < self.frames@.len() {
                Some(self.frames@[table as int])
            } else {
                None
            }),
    {
        if table < self.frames.len() {
            Some(self.frames[table])
        } else {
            None
        }
    }

    /// Entry `i` of a table, if there is that entry.
    #[must_use]
    pub fn entry(&self, table: usize, i: usize) -> (entry: Option<u64>)
        requires
            self.wf(),
        ensures
            entry == (if table < self.frames@.len() && i < TABLE_ENTRIES {
                Some(self.entry_at(table as int, i as int))
            } else {
                None
            }),
    {
        if table < self.frames.len() && i < TABLE_ENTRIES {
            assert(512 * table + i < self.entries.len());
            Some(self.entries[512 * table + i])
        } else {
            None
        }
    }
}

/// A second mapping leaves the first as it was wherever it does not overlap it.
pub proof fn law_a_second_mapping_keeps_the_first(
    largest: nat,
    largest2: nat,
    empty: PageTables,
    first: PageTables,
    second: PageTables,
    virt: u64,
    phys: u64,
    size: u64,
    rights: Rights,
    virt2: u64,
    phys2: u64,
    size2: u64,
    rights2: Rights,
    v: u64,
)
    requires
        first.maps(largest, empty, virt, phys, size, rights, size as int),
        second.maps(largest2, first, virt2, phys2, size2, rights2, size2 as int),
        offset(v, virt) < size,
        offset(v, virt2) >= size2,
    ensures
        second.translate(v) is Some,
        second.translate(v)->0.phys == phys + offset(v, virt),
        second.translate(v)->0.rights == rights,
{
    assert(second.translate(v) == first.translate(v));
}

/// What two trees need for a request is the same where they translate alike.
proof fn lemma_alike(largest: nat, a: PageTables, b: PageTables, v: int, p: int, left: int)
    requires
        forall|v: u64| #[trigger] a.translate(v) == b.translate(v),
    ensures
        a.needed(largest, v, p, left) == b.needed(largest, v, p, left),
        a.collides(largest, v, p, left) == b.collides(largest, v, p, left),
        forall|have: Set<Place>, spare: int| #[trigger]
            a.stops(largest, have, spare, v, p, left) == b.stops(largest, have, spare, v, p, left),
    decreases left,
{
    let level = page_level(largest, v, p, left);
    let s = span(level);
    assert(a.translate(v as u64) == b.translate(v as u64));
    if left >= 0x1000 {
        lemma_alike(largest, a, b, v + s, p + s, left - s);
        assert forall|have: Set<Place>, spare: int| #[trigger]
            a.stops(largest, have, spare, v, p, left) == b.stops(largest, have, spare, v, p, left) by {
            let lack = path(v as u64, level).difference(have);
            let more = have + path(v as u64, level);
            assert(a.stops(largest, more, spare - lack.len(), v + s, p + s, left - s) == b.stops(
                largest,
                more,
                spare - lack.len(),
                v + s,
                p + s,
                left - s,
            ));
        }
    }
}

/// What a request comes to, and how far it gets, depends on where there are tables
/// and on what every address leads to, and on nothing else about a tree.
pub proof fn law_a_verdict_depends_on_places_and_translations(
    largest: nat,
    a: PageTables,
    b: PageTables,
    spare: nat,
    virt: u64,
    phys: u64,
    size: u64,
)
    requires
        a.taken() == b.taken(),
        forall|v: u64| #[trigger] a.translate(v) == b.translate(v),
    ensures
        a.verdict(largest, spare, virt, phys, size) == b.verdict(largest, spare, virt, phys, size),
        a.missing(largest, virt, phys, size) == b.missing(largest, virt, phys, size),
        a.done(largest, spare, virt, phys, size) == b.done(largest, spare, virt, phys, size),
{
    lemma_alike(largest, a, b, virt as int, phys as int, size as int);
    assert(a.stops(largest, a.taken(), spare as int, virt as int, phys as int, size as int) == b.stops(
        largest,
        a.taken(),
        spare as int,
        virt as int,
        phys as int,
        size as int,
    ));
}

/// Nothing is in the way of a request where nothing is mapped.
pub proof fn lemma_unmapped(largest: nat, tables: PageTables, v: int, p: int, left: int)
    requires
        v >= 0,
        v + left <= 0x1_0000_0000_0000_0000,
        forall|x: u64| v <= x < v + left ==> #[trigger] tables.translate(x) is None,
    ensures
        !tables.collides(largest, v, p, left),
    decreases left,
{
    let level = page_level(largest, v, p, left);
    let s = span(level);
    if left >= 0x1000 {
        assert(tables.translate(v as u64) is None);
        lemma_unmapped(largest, tables, v + s, p + s, left - s);
    }
}

/// A request of whole pages is granted where nothing is mapped yet and there are as
/// many spare frames as tables that it lacks.
pub proof fn law_a_request_with_frames_is_granted(
    largest: nat,
    tables: PageTables,
    spare: nat,
    virt: u64,
    phys: u64,
    size: u64,
)
    requires
        request(virt, phys, size),
        forall|x: u64| virt <= x < virt + size ==> #[trigger] tables.translate(x) is None,
        paths(largest, virt as int, phys as int, size as int).difference(
            tables.taken(),
        ).len() <= spare,
    ensures
        tables.verdict(largest, spare, virt, phys, size) is Ok,
{
    lemma_unmapped(largest, tables, virt as int, phys as int, size as int);
    lemma_needed_paths(largest, tables, virt as int, phys as int, size as int);
}

/// Something that is repeated, each time with another frame, is refused for want of
/// frames no more often than it lacks tables at first: every frame it is given
/// becomes one of them.
pub proof fn law_refusals_for_want_of_frames_are_bounded(
    trees: Seq<PageTables>,
    wanted: Set<Place>,
    given: Seq<nat>,
)
    requires
        trees.len() == given.len() + 1,
        forall|i: int|
            0 <= i < given.len() ==> (#[trigger] trees[i + 1]).ran_out(
                trees[i],
                wanted,
                given[i],
            ),
        forall|i: int| 1 <= i < given.len() ==> #[trigger] given[i] >= 1,
    ensures
        given.len() <= wanted.difference(trees[0].taken()).len(),
        given.len() > 0 ==> wanted.difference(trees.last().taken()).len() + given.len()
            <= wanted.difference(trees[0].taken()).len() + 1,
    decreases given.len(),
{
    if given.len() > 0 {
        let n = given.len() - 1;
        let before = trees.drop_last();
        let some = given.drop_last();
        assert forall|i: int| 0 <= i < some.len() implies (#[trigger] before[i + 1]).ran_out(
            before[i],
            wanted,
            some[i],
        ) by {
            assert(trees[i + 1].ran_out(trees[i], wanted, given[i]));
        }
        assert forall|i: int| 1 <= i < some.len() implies #[trigger] some[i] >= 1 by {
            assert(given[i] >= 1);
        }
        law_refusals_for_want_of_frames_are_bounded(before, wanted, some);
        assert(trees[n + 1].ran_out(trees[n], wanted, given[n]));
        assert(trees.last() == trees[n + 1]);
        assert(before.last() == trees[n]);
        if n > 0 {
            assert(given[n] >= 1);
        }
    }
}

/// A request that was refused can be repeated, once there are frames for it: what
/// it had mapped before it was refused does not matter.
pub proof fn law_a_refused_request_can_be_repeated(
    largest: nat,
    before: PageTables,
    refused: PageTables,
    now: PageTables,
    virt: u64,
    phys: u64,
    size: u64,
    rights: Rights,
    done: int,
)
    requires
        0 <= done <= size,
        refused.maps(largest, before, virt, phys, size, rights, done),
        now.maps(largest, refused, virt, phys, size, rights, size as int),
    ensures
        now.maps(largest, before, virt, phys, size, rights, size as int),
{
    assert forall|v: u64| offset(v, virt) >= size implies #[trigger] now.translate(v)
        == before.translate(v) by {
        assert(refused.translate(v) == before.translate(v));
    }
}

/// Whether a processor has 1 GiB pages, from its highest extended leaf and the
/// feature bits of the one that says so. A processor without that leaf answers
/// with an unrelated one, so the bits count only where the leaf exists.
#[must_use]
pub fn gib_pages_supported(highest_extended: u32, extended_features: u32) -> (supported: bool)
    ensures
        supported == (highest_extended >= 0x8000_0001 && (extended_features / 0x400_0000) % 2
            == 1),
{
    highest_extended >= 0x8000_0001 && (extended_features / 0x400_0000) % 2 == 1
}

/// The extended feature register, which says among other things whether the
/// no-execute bit means anything.
pub const IA32_EFER: u32 = 0xC000_0080;

/// The bit of that register that gives the no-execute bit its meaning. With it
/// clear, every entry that carries the bit is a reserved-bit violation.
pub const EFER_NXE: u64 = 0x800;

/// The value of the extended feature register with the no-execute bit enabled and
/// everything else as it was.
#[must_use]
pub fn with_no_execute(efer: u64) -> (value: u64)
    ensures
        (value / EFER_NXE) % 2 == 1,
        value == efer || value == efer + EFER_NXE,
        (efer / EFER_NXE) % 2 == 1 ==> value == efer,
{
    if (efer / EFER_NXE) % 2 == 1 {
        efer
    } else {
        efer + EFER_NXE
    }
}

/// The processor reads an entry bit by bit: bit 0 says that it is in use, bit 1
/// that it may be written, bit 7 that it maps a large page, bit 63 that it may not
/// be executed, and bits 12 to 51 are an address.
pub proof fn law_an_entry_is_read_bit_by_bit(e: u64)
    ensures
        present(e) <==> e & 1 != 0,
        writable(e) <==> e & 2 != 0,
        huge(e) <==> e & 0x80 != 0,
        no_execute(e) <==> e >> 63 != 0,
        address(e) == e & 0x000F_FFFF_FFFF_F000,
{
    assert((e % 2 == 1 <==> e & 1 != 0) && ((e / 2) % 2 == 1 <==> e & 2 != 0) && ((e / 0x80) % 2
        == 1 <==> e & 0x80 != 0) && (e / 0x8000_0000_0000_0000 == 1 <==> e >> 63 != 0) && (e
        % 0x10_0000_0000_0000) / 0x1000 * 0x1000 == e & 0x000F_FFFF_FFFF_F000) by (bit_vector);
}

/// An entry that is written has those bits and no others: one for a page is present
/// and has the rights that were asked, and one for a table leaves all rights to what
/// lies below it.
pub proof fn law_an_entry_has_no_other_bits(phys: u64, rights: Rights, large: bool)
    requires
        phys & 0xFFF0_0000_0000_0FFF == 0,
    ensures
        ({
            let e = leaf_entry(phys as int, rights, large);
            &&& 0 <= e <= u64::MAX
            &&& e as u64 & 0x000F_FFFF_FFFF_F000 == phys
            &&& e as u64 & 0x7FF0_0000_0000_0F7D == 1
            &&& e as u64 & 2 != 0 <==> rights.write
            &&& e as u64 & 0x80 != 0 <==> large
            &&& e as u64 >> 63 == 0 <==> rights.execute
        }),
        table_entry(phys as int) == phys | 3,
{
    let w: u64 = if rights.write { 1 } else { 0 };
    let l: u64 = if large { 1 } else { 0 };
    let x: u64 = if rights.execute { 0 } else { 1 };
    let e = phys | 1 | (w << 1) | (l << 7) | (x << 63);
    assert(phys % 0x1000 == 0 && phys < 0x10_0000_0000_0000 && phys | 3 == phys + 3
        && phys & 0x000F_FFFF_FFFF_F000 == phys) by (bit_vector)
        requires
            phys & 0xFFF0_0000_0000_0FFF == 0,
    ;
    lemma_leaf_bits(phys, w, l, x, e);
    assert(e & 0x7FF0_0000_0000_0F7D == 1) by (bit_vector)
        requires
            phys & 0xFFF0_0000_0000_0FFF == 0,
            w < 2,
            l < 2,
            x < 2,
            e == phys | 1 | (w << 1) | (l << 7) | (x << 63),
    ;
    law_an_entry_is_read_bit_by_bit(e);
    law_an_entry_says_what_was_asked(phys, rights, large);
    assert(e == leaf_entry(phys as int, rights, large));
}

/// An address goes through nine of its bits at every level: from bit 12 on at the
/// lowest, and from nine bits higher at each next one.
pub proof fn law_each_level_takes_nine_bits(v: u64)
    ensures
        index(v, 0) == (v >> 12) & 511,
        index(v, 1) == (v >> 21) & 511,
        index(v, 2) == (v >> 30) & 511,
        index(v, 3) == (v >> 39) & 511,
{
    assert((v / 0x1000) % 512 == (v >> 12) & 511 && (v / 0x20_0000) % 512 == (v >> 21) & 511 && (v
        / 0x4000_0000) % 512 == (v >> 30) & 511 && (v / 0x80_0000_0000) % 512 == (v >> 39) & 511)
        by (bit_vector);
}

/// An entry spans 4 KiB at the lowest level, and 512 times as much at each next one.
pub proof fn law_each_level_spans_512_of_the_one_below(level: nat)
    requires
        level <= 3,
    ensures
        span(0) == 4096,
        span(level + 1) == 512 * span(level),
{
}

/// The largest pages are 1 GiB where the processor has them, and 2 MiB elsewhere.
pub proof fn law_gib_pages_are_used_where_there_are_any(tables: PageTables)
    ensures
        tables.gib_pages ==> span(tables.largest()) == 0x4000_0000,
        !tables.gib_pages ==> span(tables.largest()) == 0x20_0000,
{
}

/// Every byte of a request is mapped by a page that lies in the request and is
/// aligned to its size at both addresses. Its start is returned, as a distance from
/// that of the request: the next larger page would not fit there, because it is not
/// allowed, not aligned, or more than is left.
pub proof fn law_pages_are_as_large_as_they_can_be(
    largest: nat,
    v: int,
    p: int,
    left: int,
    off: int,
) -> (start: int)
    requires
        largest <= 2,
        0 <= off < left,
        v % 0x1000 == 0,
        p % 0x1000 == 0,
        left % 0x1000 == 0,
    ensures
        ({
            let level = level_at(largest, v, p, left, off);
            let size = span(level);
            let larger = 512 * size;
            &&& level <= largest
            &&& 0 <= start <= off < start + size <= left
            &&& (v + start) % size == 0
            &&& (p + start) % size == 0
            &&& level == largest || (v + start) % larger != 0 || (p + start) % larger != 0 || left
                - start < larger
        }),
    decreases left,
{
    let level = page_level(largest, v, p, left);
    let s = span(level);
    if left < 0x1000 || off < s {
        0
    } else {
        assert((v + s) % 0x1000 == 0 && (p + s) % 0x1000 == 0 && (left - s) % 0x1000 == 0);
        let start = law_pages_are_as_large_as_they_can_be(
            largest,
            v + s,
            p + s,
            left - s,
            off - s,
        );
        start + s
    }
}

/// A granted request maps every byte of its range to the byte as far from the
/// physical start, with the rights that were asked, and nothing else changes.
pub proof fn law_a_granted_request_maps_its_range(
    largest: nat,
    before: PageTables,
    now: PageTables,
    had: Seq<u64>,
    left: Seq<u64>,
    virt: u64,
    phys: u64,
    size: u64,
    rights: Rights,
    v: u64,
)
    requires
        now.outcome(largest, before, had, left, virt, phys, size, rights, Ok(())),
        size <= 0x1_0000_0000_0000,
    ensures
        virt % 4096 == 0 && phys % 4096 == 0 && size % 4096 == 0,
        virt <= v < virt + size ==> {
            &&& now.translate(v) is Some
            &&& now.translate(v)->0.phys == phys + (v - virt)
            &&& now.translate(v)->0.rights == rights
            &&& now.translate(v)->0.size <= (if largest >= 2 {
                0x4000_0000int
            } else if largest == 1 {
                0x20_0000
            } else {
                0x1000
            })
        },
        (v - virt) % 0x1_0000_0000_0000 >= size ==> now.translate(v) == before.translate(v),
{
    lemma_level_bound(largest, virt as int, phys as int, size as int, offset(v, virt));
    if virt <= v < virt + size {
        assert(offset(v, virt) == v - virt);
        assert(now.translate(v) is Some);
    }
}

proof fn lemma_level_bound(largest: nat, v: int, p: int, left: int, off: int)
    ensures
        level_at(largest, v, p, left, off) <= 2,
        level_at(largest, v, p, left, off) <= largest,
    decreases left,
{
    let s = span(page_level(largest, v, p, left));
    if !(left < 0x1000 || off < s) {
        lemma_level_bound(largest, v + s, p + s, left - s, off - s);
    }
}

/// A request is refused as misaligned exactly when one of its three numbers is not
/// a multiple of 4 KiB, and then nothing changes.
pub proof fn law_a_misaligned_request_changes_nothing(
    largest: nat,
    before: PageTables,
    now: PageTables,
    had: Seq<u64>,
    left: Seq<u64>,
    virt: u64,
    phys: u64,
    size: u64,
    rights: Rights,
    result: Result<(), MapError>,
)
    requires
        now.outcome(largest, before, had, left, virt, phys, size, rights, result),
    ensures
        result == Err::<(), MapError>(MapError::Misaligned) <==> !(virt % 4096 == 0 && phys % 4096
            == 0 && size % 4096 == 0),
        result == Err::<(), MapError>(MapError::Misaligned) ==> now == before && left == had,
{
}

/// A request collides only with a page larger than 4 KiB that is mapped somewhere in
/// its range.
pub proof fn law_only_a_larger_page_is_in_the_way(
    largest: nat,
    tables: PageTables,
    spare: nat,
    virt: u64,
    phys: u64,
    size: u64,
) -> (x: u64)
    requires
        virt + size <= 0x1_0000_0000_0000_0000,
        tables.verdict(largest, spare, virt, phys, size) == Err::<(), MapError>(MapError::Collides),
    ensures
        virt <= x < virt + size,
        tables.translate(x) is Some,
        tables.translate(x)->0.size > 0x1000,
{
    lemma_in_the_way(largest, tables, virt as int, phys as int, size as int)
}

proof fn lemma_in_the_way(largest: nat, tables: PageTables, v: int, p: int, left: int) -> (x: u64)
    requires
        v >= 0,
        v + left <= 0x1_0000_0000_0000_0000,
        tables.collides(largest, v, p, left),
    ensures
        v <= x < v + left,
        tables.translate(x) is Some,
        tables.translate(x)->0.size > 0x1000,
    decreases left,
{
    let level = page_level(largest, v, p, left);
    let s = span(level);
    if tables.blocked(v as u64, level) {
        v as u64
    } else {
        lemma_in_the_way(largest, tables, v + s, p + s, left - s)
    }
}

/// A request that is mapped 4 KiB at a time is not granted where any of its pages
/// starts inside a larger one.
pub proof fn law_a_larger_page_is_never_split(
    tables: PageTables,
    spare: nat,
    virt: u64,
    phys: u64,
    size: u64,
    x: u64,
)
    requires
        virt <= x < virt + size,
        (x - virt) % 4096 == 0,
        tables.translate(x) is Some,
        tables.translate(x)->0.size > 4096,
    ensures
        tables.verdict(0, spare, virt, phys, size) is Err,
{
    if whole_pages(virt, phys, size) {
        lemma_meets(tables, virt as int, phys as int, size as int, x);
    }
}

proof fn lemma_meets(tables: PageTables, v: int, p: int, left: int, x: u64)
    requires
        0 <= v <= x < v + left,
        (x - v) % 4096 == 0,
        left % 4096 == 0,
        tables.translate(x) is Some,
        tables.translate(x)->0.size > 4096,
    ensures
        tables.collides(0, v, p, left),
    decreases left,
{
    if v == x {
        assert(v as u64 == x);
        assert(tables.blocked(v as u64, 0));
    } else {
        assert((x - (v + 4096)) % 4096 == 0);
        lemma_meets(tables, v + 4096, p + 4096, left - 4096, x);
    }
}

/// The tables that a page hangs below are those its address goes through above the
/// page's own level, the root left out.
pub proof fn law_a_page_hangs_below_the_tables_of_its_address(v: u64, level: nat, l: int, b: int)
    requires
        level <= 2,
    ensures
        path(v, level).contains(Place { level: l, block: b }) <==> level <= l <= 2 && b == (v as int
            % 0x1_0000_0000_0000) / (512 * span(l as nat)),
{
}

/// A processor has 1 GiB pages exactly when it has the leaf that says so and bit 26
/// of it is set.
pub proof fn law_gib_pages_are_a_bit_of_a_leaf_that_exists(
    highest: u32,
    features: u32,
    supported: bool,
)
    requires
        call_ensures(gib_pages_supported, (highest, features), supported),
    ensures
        supported <==> highest > 0x8000_0000 && features & 0x400_0000 != 0,
{
    assert((features / 0x400_0000) % 2 == 1 <==> features & 0x400_0000 != 0) by (bit_vector);
}

/// Enabling the no-execute bit sets bit 11 of the register and keeps all others.
pub proof fn law_no_execute_is_enabled_by_one_bit(efer: u64, value: u64)
    requires
        call_ensures(with_no_execute, (efer,), value),
    ensures
        value == efer | 0x800,
{
    assert(((efer / 0x800) % 2 == 1 ==> efer | 0x800 == efer) && ((efer / 0x800) % 2 == 0 ==> efer
        | 0x800 == efer + 0x800)) by (bit_vector);
}

/// A request that is granted is found by the processor: every byte of it at its place,
/// with the rights that were asked. What lies outside it is found where it was.
pub proof fn law_what_is_mapped_is_found(
    tables: &mut PageTables,
    spare: &mut Vec<u64>,
    virt: u64,
    phys: u64,
    size: u64,
    rights: Rights,
    v: u64,
)
    requires
        old(tables).wf(),
        old(tables).can_take(old(spare)@),
        request(virt, phys, size),
        call_ensures(PageTables::map, (tables, spare, virt, phys, size, rights), Ok(())),
    ensures
        virt <= v < virt + size ==> {
            &&& final(tables).translate(v) is Some
            &&& final(tables).translate(v)->0.phys == phys + (v - virt)
            &&& final(tables).translate(v)->0.rights == rights
        },
        (v - virt) % 0x1_0000_0000_0000 >= size ==> final(tables).translate(v) == old(
            tables,
        ).translate(v),
{
    let largest = old(tables).largest();
    assert(final(tables).outcome(
        largest,
        *old(tables),
        old(spare)@,
        final(spare)@,
        virt,
        phys,
        size,
        rights,
        Ok(()),
    ));
    law_a_granted_request_maps_its_range(
        largest,
        *old(tables),
        *final(tables),
        old(spare)@,
        final(spare)@,
        virt,
        phys,
        size,
        rights,
        v,
    );
}

/// A request that is mapped 4 KiB at a time is found the same way, in small pages.
pub proof fn law_what_is_mapped_small_is_found_in_small_pages(
    tables: &mut PageTables,
    spare: &mut Vec<u64>,
    virt: u64,
    phys: u64,
    size: u64,
    rights: Rights,
    v: u64,
)
    requires
        old(tables).wf(),
        old(tables).can_take(old(spare)@),
        request(virt, phys, size),
        call_ensures(PageTables::map_small, (tables, spare, virt, phys, size, rights), Ok(())),
    ensures
        virt <= v < virt + size ==> {
            &&& final(tables).translate(v) is Some
            &&& final(tables).translate(v)->0.phys == phys + (v - virt)
            &&& final(tables).translate(v)->0.rights == rights
            &&& final(tables).translate(v)->0.size <= 4096
        },
        (v - virt) % 0x1_0000_0000_0000 >= size ==> final(tables).translate(v) == old(
            tables,
        ).translate(v),
{
    assert(final(tables).outcome(
        0,
        *old(tables),
        old(spare)@,
        final(spare)@,
        virt,
        phys,
        size,
        rights,
        Ok(()),
    ));
    law_a_granted_request_maps_its_range(
        0,
        *old(tables),
        *final(tables),
        old(spare)@,
        final(spare)@,
        virt,
        phys,
        size,
        rights,
        v,
    );
}

} // verus!
