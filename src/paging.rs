use vstd::prelude::*;

use std::collections::HashMap;

use crate::memory::{lemma_frames_distinct, memory_map_wf, BootInfoFrameAllocator, PhysFrame};

verus! {

broadcast use vstd::std_specs::hash::group_hash_axioms;

/// Number of entries in one page table.
pub const ENTRY_COUNT: usize = 512;

/// One entry of a page table.
#[derive(Clone, Copy, PartialEq, Eq, Structural, Debug)]
pub enum PageTableEntry {
    /// Nothing is mapped through this entry.
    Unused,
    /// A present entry pointing at the frame of the next-level table, or at
    /// the mapped frame itself in a level-1 table.
    Frame { addr: u64, writable: bool },
    /// A present entry that maps a huge page; not supported by this kernel.
    HugePage { addr: u64 },
}

/// Why a mapping could not be installed.
#[derive(Clone, Copy, PartialEq, Eq, Structural, Debug)]
pub enum MapToError {
    /// The frame allocator ran out of frames for an intermediate table.
    FrameAllocationFailed,
    /// An entry on the way to the page maps a huge page.
    ParentEntryHugePage,
    /// The page is mapped already; holds the frame that was to be mapped.
    PageAlreadyMapped(PhysFrame),
    /// The frame allocator handed out a frame that already holds a page
    /// table.
    FrameInUse,
}

/// The result of walking the page tables for a virtual address.
#[derive(Clone, Copy, PartialEq, Eq, Structural, Debug)]
pub enum Walk {
    /// The address is mapped to this physical address.
    Mapped(u64),
    /// Some entry on the way is unused.
    NotMapped,
    /// Some entry on the way maps a huge page.
    HugePage,
}

/// `2^(12 + 9 * (level - 1))`: the size of the region one entry of a
/// level-`level` table covers.
pub open spec fn level_span(level: nat) -> nat {
    if level == 4 {
        0x80_0000_0000
    } else if level == 3 {
        0x4000_0000
    } else if level == 2 {
        0x20_0000
    } else {
        0x1000
    }
}

/// The index into the level-`level` table that `addr` selects.
pub open spec fn table_index(addr: u64, level: nat) -> nat {
    ((addr as nat / level_span(level)) % 512) as nat
}

/// Entry `i` of the table in frame `t`; a frame that holds no table reads
/// as all unused.
pub open spec fn entry_at(tables: Map<u64, Seq<PageTableEntry>>, t: u64, i: nat) -> PageTableEntry {
    if tables.contains_key(t) && i < tables[t].len() {
        tables[t][i as int]
    } else {
        PageTableEntry::Unused
    }
}

/// Walks `level` levels of tables for `addr`, starting at the table in
/// frame `t`.
pub open spec fn walk(tables: Map<u64, Seq<PageTableEntry>>, t: u64, addr: u64, level: nat) -> Walk
    decreases level,
{
    if level == 0 {
        Walk::Mapped((t + addr % 4096) as u64)
    } else {
        match entry_at(tables, t, table_index(addr, level)) {
            PageTableEntry::Unused => Walk::NotMapped,
            PageTableEntry::HugePage { .. } => Walk::HugePage,
            PageTableEntry::Frame { addr: next, .. } => walk(tables, next, addr, (level - 1) as nat),
        }
    }
}

/// The entry maps no huge page, and the frame it points at, if any, is
/// frame aligned.
pub open spec fn entry_ok(e: PageTableEntry) -> bool {
    match e {
        PageTableEntry::Frame { addr, .. } => addr % 4096 == 0,
        PageTableEntry::HugePage { .. } => false,
        PageTableEntry::Unused => true,
    }
}

/// Whether `e` points at the frame `f`.
pub open spec fn points_to(e: PageTableEntry, f: u64) -> bool {
    match e {
        PageTableEntry::Frame { addr, .. } => addr == f,
        PageTableEntry::HugePage { addr } => addr == f,
        PageTableEntry::Unused => false,
    }
}

/// The frame `f` holds no table and no entry points at it.
pub open spec fn frame_free(tables: Map<u64, Seq<PageTableEntry>>, f: u64) -> bool {
    &&& !tables.contains_key(f)
    &&& forall|t: u64, i: nat| !points_to(#[trigger] entry_at(tables, t, i), f)
}

/// How many more frames `a` can hand out.
pub open spec fn available(a: BootInfoFrameAllocator) -> int {
    (if a.frames().len() < usize::MAX { a.frames().len() as int } else { usize::MAX as int }) - a.cursor()
}

/// The allocator's map is well formed and every frame it has yet to hand
/// out is free in `tables`.
pub open spec fn frames_fresh(a: BootInfoFrameAllocator, tables: Map<u64, Seq<PageTableEntry>>) -> bool {
    &&& memory_map_wf(a.map())
    &&& forall|k: int| a.cursor() <= k < a.frames().len() ==> frame_free(tables, #[trigger] a.frames()[k] as u64)
}

/// Abstract state of a page table hierarchy: the frame of the level-4
/// table and the tables held in physical frames.
pub struct MapperState {
    pub level_4_frame: u64,
    pub tables: Map<u64, Seq<PageTableEntry>>,
}

impl MapperState {
    /// The level-4 table exists, every table has `ENTRY_COUNT` entries, no
    /// entry maps a huge page (this kernel does not support them), and every
    /// address in an entry is frame aligned.
    pub open spec fn wf(self) -> bool {
        &&& self.level_4_frame % 4096 == 0
        &&& self.tables.contains_key(self.level_4_frame)
        &&& forall|t: u64| #[trigger] self.tables.contains_key(t) ==> self.tables[t].len() == ENTRY_COUNT
        &&& forall|t: u64, i: int|
            #![trigger self.tables[t][i]]
            self.tables.contains_key(t) && 0 <= i < self.tables[t].len() ==> entry_ok(
                self.tables[t][i],
            )
    }

    /// What a four-level walk gives for `addr`.
    pub open spec fn translate(self, addr: u64) -> Walk {
        walk(self.tables, self.level_4_frame, addr, 4)
    }
}

impl MapperState {
    /// The entries for `page` in the level-4, level-3 and level-2 tables
    /// are all present, so mapping it needs no new table.
    pub open spec fn parents_present(self, page: u64) -> bool {
        &&& entry_at(self.tables, self.level_4_frame, table_index(page, 4)) is Frame
        &&& entry_at(self.tables, self.l3_table(page), table_index(page, 3)) is Frame
        &&& entry_at(self.tables, self.l2_table(page), table_index(page, 2)) is Frame
    }

    /// The frame the level-4 entry for `page` points at.
    pub open spec fn l3_table(self, page: u64) -> u64 {
        entry_at(self.tables, self.level_4_frame, table_index(page, 4))->Frame_addr
    }

    /// The frame the level-3 entry for `page` points at.
    pub open spec fn l2_table(self, page: u64) -> u64 {
        entry_at(self.tables, self.l3_table(page), table_index(page, 3))->Frame_addr
    }

    /// The frame the level-2 entry for `page` points at.
    pub open spec fn l1_table(self, page: u64) -> u64 {
        entry_at(self.tables, self.l2_table(page), table_index(page, 2))->Frame_addr
    }

    /// The level-1 entry for `page`.
    pub open spec fn leaf_entry(self, page: u64) -> PageTableEntry {
        entry_at(self.tables, self.l1_table(page), table_index(page, 1))
    }
}

/// `new` only adds to `old`: no table disappears, and every entry is
/// unchanged, was unused, or still points at the same frame and is no
/// less writable.
pub open spec fn extends(old: Map<u64, Seq<PageTableEntry>>, new: Map<u64, Seq<PageTableEntry>>) -> bool {
    forall|t: u64, i: nat|
        #![trigger entry_at(new, t, i)]
        entry_grows(entry_at(old, t, i), entry_at(new, t, i))
}

/// `n` is `o`, or fills an unused entry, or points at the same frame as
/// `o` and is writable if `o` was.
pub open spec fn entry_grows(o: PageTableEntry, n: PageTableEntry) -> bool {
    o is Unused || n == o || (o matches PageTableEntry::Frame { addr: a, writable: w1 }
        && n matches PageTableEntry::Frame { addr: b, writable: w2 } && a == b && (w1 ==> w2))
}

/// A walk that found a mapping or a huge page finds the same in any
/// extension of the tables.
pub proof fn lemma_walk_extends(
    old: Map<u64, Seq<PageTableEntry>>,
    new: Map<u64, Seq<PageTableEntry>>,
    t: u64,
    addr: u64,
    level: nat,
)
    requires
        extends(old, new),
        !(walk(old, t, addr, level) is NotMapped),
    ensures
        walk(new, t, addr, level) == walk(old, t, addr, level),
    decreases level,
{
    if level > 0 {
        let i = table_index(addr, level);
        assert(entry_at(new, t, i) == entry_at(new, t, i));
        match entry_at(old, t, i) {
            PageTableEntry::Frame { addr: next, .. } => {
                lemma_walk_extends(old, new, next, addr, (level - 1) as nat);
            },
            _ => {},
        }
    }
}

proof fn lemma_extends_refl(m: Map<u64, Seq<PageTableEntry>>)
    ensures
        extends(m, m),
{
    assert forall|t: u64, i: nat| #![trigger entry_at(m, t, i)] entry_at(m, t, i) == entry_at(m, t, i) by {}
}

/// Extending an extension of `a` extends `a`.
pub proof fn lemma_extends_trans(
    a: Map<u64, Seq<PageTableEntry>>,
    b: Map<u64, Seq<PageTableEntry>>,
    c: Map<u64, Seq<PageTableEntry>>,
)
    requires
        extends(a, b),
        extends(b, c),
    ensures
        extends(a, c),
{
    assert forall|t: u64, i: nat| #![trigger entry_at(c, t, i)]
        entry_grows(entry_at(a, t, i), entry_at(c, t, i)) by {
        assert(entry_at(b, t, i) == entry_at(b, t, i));
    }
}

/// Two addresses in the same page select the same entry at every level.
proof fn lemma_same_page_same_index(a: u64, b: u64, level: nat)
    requires
        a / 4096 == b / 4096,
        1 <= level <= 4,
    ensures
        table_index(a, level) == table_index(b, level),
{
    let d = level_span(level) as int / 4096;
    vstd::arithmetic::div_mod::lemma_div_denominator(a as int, 4096, d);
    vstd::arithmetic::div_mod::lemma_div_denominator(b as int, 4096, d);
}

/// Two addresses in the same page are both mapped or both not.
pub proof fn lemma_same_page_same_walk(
    tables: Map<u64, Seq<PageTableEntry>>,
    t: u64,
    a: u64,
    b: u64,
    level: nat,
)
    requires
        a / 4096 == b / 4096,
        level <= 4,
    ensures
        (walk(tables, t, a, level) is NotMapped) == (walk(tables, t, b, level) is NotMapped),
    decreases level,
{
    if level > 0 {
        lemma_same_page_same_index(a, b, level);
        match entry_at(tables, t, table_index(a, level)) {
            PageTableEntry::Frame { addr: next, .. } => {
                lemma_same_page_same_walk(tables, next, a, b, (level - 1) as nat);
            },
            _ => {},
        }
    }
}

/// `b` differs from `a` at most in the flags of present entries.
pub open spec fn same_shape(a: Map<u64, Seq<PageTableEntry>>, b: Map<u64, Seq<PageTableEntry>>) -> bool {
    forall|t: u64, i: nat|
        #![trigger entry_at(b, t, i)]
        entry_at(b, t, i) == entry_at(a, t, i) || (entry_at(a, t, i) matches PageTableEntry::Frame {
            addr: x,
            ..
        } && entry_at(b, t, i) matches PageTableEntry::Frame { addr: y, .. } && x == y)
}

proof fn lemma_walk_same_shape(
    a: Map<u64, Seq<PageTableEntry>>,
    b: Map<u64, Seq<PageTableEntry>>,
    t: u64,
    addr: u64,
    level: nat,
)
    requires
        same_shape(a, b),
    ensures
        walk(b, t, addr, level) == walk(a, t, addr, level),
    decreases level,
{
    if level > 0 {
        let i = table_index(addr, level);
        assert(entry_at(b, t, i) == entry_at(b, t, i));
        match entry_at(a, t, i) {
            PageTableEntry::Frame { addr: next, .. } => {
                lemma_walk_same_shape(a, b, next, addr, (level - 1) as nat);
            },
            _ => {},
        }
    }
}

proof fn lemma_same_shape_trans(
    a: Map<u64, Seq<PageTableEntry>>,
    b: Map<u64, Seq<PageTableEntry>>,
    c: Map<u64, Seq<PageTableEntry>>,
)
    requires
        same_shape(a, b),
        same_shape(b, c),
    ensures
        same_shape(a, c),
{
    assert forall|t: u64, i: nat| #![trigger entry_at(c, t, i)]
        entry_at(c, t, i) == entry_at(a, t, i) || (entry_at(a, t, i) matches PageTableEntry::Frame {
            addr: x,
            ..
        } && entry_at(c, t, i) matches PageTableEntry::Frame { addr: y, .. } && x == y) by {
        assert(entry_at(b, t, i) == entry_at(b, t, i));
    }
}

/// No frame the allocator has yet to hand out is a table or the target of
/// an entry.
proof fn lemma_fresh_excludes(a: BootInfoFrameAllocator, tables: Map<u64, Seq<PageTableEntry>>, x: u64)
    requires
        frames_fresh(a, tables),
        tables.contains_key(x) || exists|t: u64, i: nat| points_to(#[trigger] entry_at(tables, t, i), x),
    ensures
        forall|k: int| a.cursor() <= k < a.frames().len() ==> #[trigger] a.frames()[k] as u64 != x,
{
    assert forall|k: int| a.cursor() <= k < a.frames().len() implies #[trigger] a.frames()[k] as u64 != x by {
        assert(frame_free(tables, a.frames()[k] as u64));
    }
}

proof fn lemma_no_huge(s: MapperState, t: u64, i: nat)
    requires
        s.wf(),
    ensures
        !(entry_at(s.tables, t, i) is HugePage),
{
    if s.tables.contains_key(t) && i < s.tables[t].len() {
        assert(entry_ok(s.tables[t][i as int]));
    }
}

/// Two addresses in the same 2 MiB region select the same entries in the
/// level-4, level-3 and level-2 tables, and different level-1 entries when
/// they lie in different pages.
proof fn lemma_same_region(a: u64, b: u64)
    requires
        a / 0x20_0000 == b / 0x20_0000,
    ensures
        table_index(a, 4) == table_index(b, 4),
        table_index(a, 3) == table_index(b, 3),
        table_index(a, 2) == table_index(b, 2),
        a / 4096 != b / 4096 ==> table_index(a, 1) != table_index(b, 1),
{
    vstd::arithmetic::div_mod::lemma_div_denominator(a as int, 0x20_0000, 0x200);
    vstd::arithmetic::div_mod::lemma_div_denominator(b as int, 0x20_0000, 0x200);
    vstd::arithmetic::div_mod::lemma_div_denominator(a as int, 0x20_0000, 0x4_0000);
    vstd::arithmetic::div_mod::lemma_div_denominator(b as int, 0x20_0000, 0x4_0000);
    vstd::arithmetic::div_mod::lemma_div_denominator(a as int, 4096, 512);
    vstd::arithmetic::div_mod::lemma_div_denominator(b as int, 4096, 512);
    let qa = a as int / 4096;
    let qb = b as int / 4096;
    assert(qa == 512 * (qa / 512) + qa % 512) by (nonlinear_arith);
    assert(qb == 512 * (qb / 512) + qb % 512) by (nonlinear_arith);
}

/// After the tables on the way to `page` were found or created, the
/// level-1 entry of every address of the same 2 MiB region that was
/// unmapped is unused: either the level-1 table is new, or every entry on
/// the way was present before.
proof fn lemma_leaf_unused(
    t0: Map<u64, Seq<PageTableEntry>>,
    s3: MapperState,
    p3: u64,
    p2: u64,
    p1: u64,
    page: u64,
)
    requires
        s3.wf(),
        entry_at(s3.tables, s3.level_4_frame, table_index(page, 4)) matches PageTableEntry::Frame { addr, .. } && addr == p3,
        entry_at(s3.tables, p3, table_index(page, 3)) matches PageTableEntry::Frame { addr, .. } && addr == p2,
        entry_at(s3.tables, p2, table_index(page, 2)) matches PageTableEntry::Frame { addr, .. } && addr == p1,
        (forall|j: nat| #[trigger] entry_at(s3.tables, p1, j) is Unused) || same_shape(t0, s3.tables),
    ensures
        forall|a: u64|
            a / 0x20_0000 == page / 0x20_0000 && walk(t0, s3.level_4_frame, a, 4) is NotMapped ==> #[trigger] entry_at(
                s3.tables,
                p1,
                table_index(a, 1),
            ) is Unused,
{
    let t3 = s3.tables;
    let root = s3.level_4_frame;
    assert forall|a: u64|
        a / 0x20_0000 == page / 0x20_0000 && walk(t0, root, a, 4) is NotMapped implies #[trigger] entry_at(
            t3,
            p1,
            table_index(a, 1),
        ) is Unused by {
        lemma_same_region(a, page);
        lemma_no_huge(s3, p1, table_index(a, 1));
        if !(forall|j: nat| #[trigger] entry_at(t3, p1, j) is Unused) {
            lemma_walk_same_shape(t0, t3, root, a, 4);
            assert(walk(t3, root, a, 4) == walk(t3, p3, a, 3));
            assert(walk(t3, p3, a, 3) == walk(t3, p2, a, 2));
            assert(walk(t3, p2, a, 2) == walk(t3, p1, a, 1));
            if entry_at(t3, p1, table_index(a, 1)) is Frame {
                let x = entry_at(t3, p1, table_index(a, 1))->Frame_addr;
                assert(walk(t3, p1, a, 1) == walk(t3, x, a, 0));
            }
        }
    }
}

/// Addresses of one 2 MiB region share their level-4, level-3 and level-2
/// entries.
pub proof fn lemma_region_parents(s: MapperState, a: u64, b: u64)
    requires
        a / 0x20_0000 == b / 0x20_0000,
    ensures
        s.parents_present(a) == s.parents_present(b),
        s.l1_table(a) == s.l1_table(b),
{
    lemma_same_region(a, b);
}

/// An address whose tables are all present and whose level-1 entry is
/// unused is not mapped.
pub proof fn lemma_walk_leaf(s: MapperState, a: u64)
    requires
        s.parents_present(a),
        s.leaf_entry(a) is Unused,
    ensures
        s.translate(a) is NotMapped,
{
    assert(walk(s.tables, s.level_4_frame, a, 4) == walk(s.tables, s.l3_table(a), a, 3));
    assert(walk(s.tables, s.l3_table(a), a, 3) == walk(s.tables, s.l2_table(a), a, 2));
    assert(walk(s.tables, s.l2_table(a), a, 2) == walk(s.tables, s.l1_table(a), a, 1));
}

/// For a hierarchy that holds only an empty level-4 table, every frame of
/// the allocator other than that table's is fresh.
pub proof fn lemma_fresh_for_new_mapper(s: MapperState, a: BootInfoFrameAllocator)
    requires
        s.tables.dom() == set![s.level_4_frame],
        s.tables[s.level_4_frame] == Seq::new(ENTRY_COUNT as nat, |j: int| PageTableEntry::Unused),
        memory_map_wf(a.map()),
        forall|k: int| a.cursor() <= k < a.frames().len() ==> #[trigger] a.frames()[k] as u64 != s.level_4_frame,
    ensures
        frames_fresh(a, s.tables),
{
    assert forall|k: int| a.cursor() <= k < a.frames().len() implies frame_free(s.tables, #[trigger] a.frames()[k] as u64) by {
        assert forall|t: u64, i: nat| !points_to(#[trigger] entry_at(s.tables, t, i), a.frames()[k] as u64) by {
            if s.tables.contains_key(t) && i < s.tables[t].len() {
                assert(t == s.level_4_frame);
            }
        }
    }
}

/// Addresses of one page share their tables and their level-1 entry.
pub proof fn lemma_same_page_leaf(s: MapperState, a: u64, b: u64)
    requires
        a / 4096 == b / 4096,
    ensures
        s.parents_present(a) == s.parents_present(b),
        s.leaf_entry(a) == s.leaf_entry(b),
{
    lemma_same_page_same_index(a, b, 4);
    lemma_same_page_same_index(a, b, 3);
    lemma_same_page_same_index(a, b, 2);
    lemma_same_page_same_index(a, b, 1);
}

/// A writable mapping stays as it is in any extension of the tables.
pub proof fn lemma_leaf_persists(a: MapperState, b: MapperState, x: u64)
    requires
        extends(a.tables, b.tables),
        a.level_4_frame == b.level_4_frame,
        a.parents_present(x),
        a.leaf_entry(x) matches PageTableEntry::Frame { writable, .. } && writable,
    ensures
        b.parents_present(x),
        b.leaf_entry(x) == a.leaf_entry(x),
{
    assert(entry_at(b.tables, b.level_4_frame, table_index(x, 4)) == entry_at(b.tables, b.level_4_frame, table_index(x, 4)));
    assert(b.l3_table(x) == a.l3_table(x));
    assert(entry_at(b.tables, b.l3_table(x), table_index(x, 3)) == entry_at(b.tables, b.l3_table(x), table_index(x, 3)));
    assert(b.l2_table(x) == a.l2_table(x));
    assert(entry_at(b.tables, b.l2_table(x), table_index(x, 2)) == entry_at(b.tables, b.l2_table(x), table_index(x, 2)));
    assert(b.l1_table(x) == a.l1_table(x));
    assert(entry_at(b.tables, b.l1_table(x), table_index(x, 1)) == entry_at(b.tables, b.l1_table(x), table_index(x, 1)));
}

/// A page table hierarchy, with the tables held in a map from frame
/// address to table.
pub struct PageMapper {
    level_4_frame: u64,
    tables: HashMap<u64, Vec<PageTableEntry>>,
}

impl View for PageMapper {
    type V = MapperState;

    closed spec fn view(&self) -> MapperState {
        MapperState { level_4_frame: self.level_4_frame, tables: self.tables@.map_values(|v: Vec<PageTableEntry>| v@) }
    }
}

/// A table with every entry unused.
fn empty_table() -> (r: Vec<PageTableEntry>)
    ensures
        r@.len() == ENTRY_COUNT,
        forall|i: int| 0 <= i < ENTRY_COUNT ==> #[trigger] r@[i] == PageTableEntry::Unused,
{
    let mut v: Vec<PageTableEntry> = Vec::new();
    while v.len() < ENTRY_COUNT
        invariant
            v@.len() <= ENTRY_COUNT,
            forall|i: int| 0 <= i < v@.len() ==> #[trigger] v@[i] == PageTableEntry::Unused,
        decreases ENTRY_COUNT - v@.len(),
    {
        v.push(PageTableEntry::Unused);
    }
    v
}

/// The index into the level-`level` table that `addr` selects.
fn index_of(addr: u64, level: u64) -> (r: usize)
    requires
        1 <= level <= 4,
    ensures
        r == table_index(addr, level as nat),
        r < ENTRY_COUNT,
{
    let span: u64 = if level == 4 {
        0x80_0000_0000
    } else if level == 3 {
        0x4000_0000
    } else if level == 2 {
        0x20_0000
    } else {
        0x1000
    };
    ((addr / span) % 512) as usize
}

impl PageMapper {
    /// A hierarchy whose level-4 table sits in `level_4_frame` and maps
    /// nothing yet.
    pub fn new(level_4_frame: PhysFrame) -> (r: Self)
        ensures
            r@.wf(),
            r@.level_4_frame == level_4_frame@,
            forall|addr: u64| #[trigger] r@.translate(addr) == Walk::NotMapped,
            r@.tables.dom() == set![level_4_frame@],
            r@.tables[level_4_frame@] == Seq::new(ENTRY_COUNT as nat, |j: int| PageTableEntry::Unused),
    {
        let root = level_4_frame.start_address();
        let mut tables: HashMap<u64, Vec<PageTableEntry>> = HashMap::new();
        let empty = empty_table();
        let ghost empty_view = empty@;
        tables.insert(root, empty);
        let r = PageMapper { level_4_frame: root, tables };
        proof {
            assert(r@.tables.dom() =~= set![root]);
            assert(r@.tables[root] == empty_view);
            assert(empty_view =~= Seq::new(ENTRY_COUNT as nat, |j: int| PageTableEntry::Unused));
            assert forall|addr: u64| #[trigger] r@.translate(addr) == Walk::NotMapped by {
                assert(r@.tables[root][table_index(addr, 4) as int] == PageTableEntry::Unused);
            }
        }
        r
    }

    /// Entry `i` of the table in frame `t`.
    fn read_entry(&self, t: u64, i: usize) -> (r: PageTableEntry)
        ensures
            r == entry_at(self@.tables, t, i as nat),
    {
        match self.tables.get(&t) {
            Some(table) => if i < table.len() {
                table[i]
            } else {
                PageTableEntry::Unused
            },
            None => PageTableEntry::Unused,
        }
    }

    /// Sets entry `i` of the table in frame `t` (an empty table if there is
    /// none yet) to `e`.
    fn write_entry(&mut self, t: u64, i: usize, e: PageTableEntry)
        requires
            old(self)@.wf(),
            i < ENTRY_COUNT,
            entry_ok(e),
        ensures
            final(self)@.wf(),
            final(self)@.level_4_frame == old(self)@.level_4_frame,
            final(self)@.tables.dom() == old(self)@.tables.dom().insert(t),
            entry_at(final(self)@.tables, t, i as nat) == e,
            forall|t2: u64, i2: nat|
                (t2 != t || i2 != i) ==> #[trigger] entry_at(final(self)@.tables, t2, i2) == entry_at(
                    old(self)@.tables,
                    t2,
                    i2,
                ),
    {
        let ghost o = old(self)@.tables;
        let mut table = match self.tables.remove(&t) {
            Some(table) => table,
            None => empty_table(),
        };
        assert(o.contains_key(t) ==> table@ == o[t]);
        assert(o.contains_key(t) ==> o[t].len() == ENTRY_COUNT);
        assert(table@.len() == ENTRY_COUNT);
        let ghost before = table@;
        table.set(i, e);
        self.tables.insert(t, table);
        proof {
            let n = self@.tables;
            assert(n.dom() =~= o.dom().insert(t));
            assert(n[t] == before.update(i as int, e));
            assert forall|t2: u64| #[trigger] n.contains_key(t2) implies n[t2].len() == ENTRY_COUNT by {
                if t2 != t {
                    assert(n[t2] == o[t2]);
                }
            }
            assert forall|t2: u64, i2: int|
                #![trigger n[t2][i2]]
                n.contains_key(t2) && 0 <= i2 < n[t2].len() implies entry_ok(n[t2][i2]) by {
                if t2 != t {
                    assert(n[t2] == o[t2]);
                } else if i2 != i {
                    if o.contains_key(t) {
                        assert(n[t2][i2] == o[t][i2]);
                    }
                }
            }
            assert forall|t2: u64, i2: nat|
                (t2 != t || i2 != i) implies #[trigger] entry_at(n, t2, i2) == entry_at(o, t2, i2) by {
                if t2 == t && !o.contains_key(t) {
                    assert(i2 < ENTRY_COUNT ==> n[t][i2 as int] == PageTableEntry::Unused);
                }
            }
        }
    }

    /// Follows entry `i` of the table in frame `t` to the next-level table,
    /// creating that table in a fresh frame from `allocator` when the entry
    /// is unused. A writable mapping makes the entry writable.
    fn create_next_table(
        &mut self,
        t: u64,
        i: usize,
        writable: bool,
        allocator: &mut BootInfoFrameAllocator,
    ) -> (r: Result<u64, MapToError>)
        requires
            old(self)@.wf(),
            i < ENTRY_COUNT,
        ensures
            final(self)@.wf(),
            final(self)@.level_4_frame == old(self)@.level_4_frame,
            extends(old(self)@.tables, final(self)@.tables),
            final(allocator).map() == old(allocator).map(),
            match r {
                Ok(next) => entry_at(final(self)@.tables, t, i as nat) matches PageTableEntry::Frame {
                    addr,
                    ..
                } && addr == next,
                Err(e) => e != MapToError::PageAlreadyMapped(e->PageAlreadyMapped_0),
            },
            entry_at(old(self)@.tables, t, i as nat) matches PageTableEntry::Frame { addr, .. } ==> r
                == Ok::<u64, MapToError>(addr) && *final(allocator) == *old(allocator),
            entry_at(old(self)@.tables, t, i as nat) is Frame ==> forall|k: u64, j: nat|
                (k != t || j != i) ==> #[trigger] entry_at(final(self)@.tables, k, j) == entry_at(
                    old(self)@.tables,
                    k,
                    j,
                ),
            r == Err::<u64, MapToError>(MapToError::FrameAllocationFailed) ==> final(allocator).exhausted(),
            old(allocator).cursor() <= final(allocator).cursor() <= old(allocator).cursor() + 1,
            frames_fresh(*old(allocator), old(self)@.tables) && (forall|k: int|
                old(allocator).cursor() <= k < old(allocator).frames().len() ==> #[trigger] old(allocator).frames()[k] as u64 != t) ==> frames_fresh(*final(allocator), final(self)@.tables),
            entry_at(old(self)@.tables, t, i as nat) is Unused && frames_fresh(
                *old(allocator),
                old(self)@.tables,
            ) && (forall|k: int|
                old(allocator).cursor() <= k < old(allocator).frames().len() ==> #[trigger] old(allocator).frames()[k] as u64 != t) && available(*old(allocator)) > 0 ==> r is Ok,
            frames_fresh(*old(allocator), old(self)@.tables) && (forall|k: int|
                old(allocator).cursor() <= k < old(allocator).frames().len() ==> #[trigger] old(allocator).frames()[k] as u64 != t) ==> r != Err::<u64, MapToError>(MapToError::FrameInUse),
            r is Ok || r == Err::<u64, MapToError>(MapToError::FrameAllocationFailed) || r == Err::<
                u64,
                MapToError,
            >(MapToError::FrameInUse),
            entry_at(old(self)@.tables, t, i as nat) is Unused && r is Ok ==> {
                &&& !old(self)@.tables.contains_key(r->Ok_0)
                &&& forall|j: nat| #[trigger] entry_at(final(self)@.tables, r->Ok_0, j) is Unused
                &&& forall|k: u64, j: nat|
                    k != r->Ok_0 && (k != t || j != i) ==> #[trigger] entry_at(final(self)@.tables, k, j)
                        == entry_at(old(self)@.tables, k, j)
            },
    {
        let ghost a0 = *allocator;
        let ghost tb0 = self@.tables;
        let entry = self.read_entry(t, i);
        match entry {
            PageTableEntry::Unused => match allocator.allocate_frame() {
                None => Err(MapToError::FrameAllocationFailed),
                Some(frame) => {
                    let addr = frame.start_address();
                    proof {
                        if frames_fresh(a0, tb0) {
                            lemma_frames_distinct(a0.map());
                            assert(frame_free(tb0, a0.frames()[a0.cursor() as int] as u64));
                        }
                    }
                    if addr == t || self.tables.contains_key(&addr) {
                        Err(MapToError::FrameInUse)
                    } else {
                        let ghost t0 = self@.tables;
                        self.write_entry(t, i, PageTableEntry::Frame { addr, writable });
                        let ghost t1 = self@.tables;
                        let ghost dom1 = t1.dom();
                        let fresh = empty_table();
                        let ghost fresh_view = fresh@;
                        self.tables.insert(addr, fresh);
                        proof {
                            let t2 = self@.tables;
                            assert(t2[addr] == fresh_view);
                            assert(t2.dom() =~= t1.dom().insert(addr));
                            assert(!t1.contains_key(addr));
                            assert forall|k: u64| #[trigger] t2.contains_key(k) implies t2[k].len()
                                == ENTRY_COUNT by {
                                if k != addr {
                                    assert(t1.contains_key(k));
                                    assert(t2[k] == t1[k]);
                                }
                            }
                            assert forall|k: u64, j: int|
                                #![trigger t2[k][j]]
                                t2.contains_key(k) && 0 <= j < t2[k].len() implies entry_ok(
                                    t2[k][j],
                                ) by {
                                if k != addr {
                                    assert(t2[k] == t1[k]);
                                }
                            }
                            assert forall|k: u64, j: nat| #![trigger entry_at(t2, k, j)]
                                entry_grows(entry_at(t0, k, j), entry_at(t2, k, j)) by {
                                if k == addr {
                                    assert(!t0.contains_key(addr));
                                } else {
                                    assert(entry_at(t2, k, j) == entry_at(t1, k, j));
                                    if k != t || j != i {
                                        assert(entry_at(t1, k, j) == entry_at(t0, k, j));
                                    }
                                }
                            }
                            assert(entry_at(t2, t, i as nat) == entry_at(t1, t, i as nat));
                            assert forall|j: nat| #[trigger] entry_at(t2, addr, j) is Unused by {}
                            assert forall|k: u64, j: nat|
                                k != addr && (k != t || j != i) implies #[trigger] entry_at(t2, k, j)
                                    == entry_at(t0, k, j) by {
                                assert(entry_at(t2, k, j) == entry_at(t1, k, j));
                            }
                            if frames_fresh(a0, t0) && (forall|k: int|
                                a0.cursor() <= k < a0.frames().len() ==> #[trigger] a0.frames()[k] as u64 != t) {
                                let a1 = *allocator;
                                assert forall|k: int| a1.cursor() <= k < a1.frames().len() implies frame_free(
                                    t2,
                                    #[trigger] a1.frames()[k] as u64,
                                ) by {
                                    let f = a1.frames()[k] as u64;
                                    assert(a0.frames()[a0.cursor() as int] != a0.frames()[k]);
                                    assert(f != addr);
                                    assert(frame_free(t0, a0.frames()[k] as u64));
                                    assert(f != t);
                                    assert forall|k2: u64, j: nat| !points_to(#[trigger] entry_at(t2, k2, j), f) by {
                                        if k2 != addr && (k2 != t || j != i) {
                                            assert(entry_at(t2, k2, j) == entry_at(t0, k2, j));
                                        }
                                    }
                                }
                            }
                        }
                        Ok(addr)
                    }
                },
            },
            PageTableEntry::Frame { addr, writable: w } => {
                if writable && !w {
                    let ghost t0 = self@.tables;
                    self.write_entry(t, i, PageTableEntry::Frame { addr, writable: true });
                    proof {
                        let t1 = self@.tables;
                        assert forall|k: u64, j: nat| #![trigger entry_at(t1, k, j)]
                            entry_grows(entry_at(t0, k, j), entry_at(t1, k, j)) by {
                            if k != t || j != i {
                                assert(entry_at(t1, k, j) == entry_at(t0, k, j));
                            }
                        }
                    }
                } else {
                    proof {
                        lemma_extends_refl(self@.tables);
                    }
                }
                Ok(addr)
            },
            PageTableEntry::HugePage { .. } => {
                proof {
                    lemma_extends_refl(self@.tables);
                }
                Err(MapToError::ParentEntryHugePage)
            },
        }
    }

    /// Finds or creates the level-3, level-2 and level-1 tables on the way
    /// to `page`, returning their frames.
    #[verifier::rlimit(100)]
    #[verifier::spinoff_prover]
    fn create_path(
        &mut self,
        page: u64,
        writable: bool,
        allocator: &mut BootInfoFrameAllocator,
    ) -> (r: Result<(u64, u64, u64), MapToError>)
        requires
            old(self)@.wf(),
        ensures
            final(self)@.wf(),
            final(self)@.level_4_frame == old(self)@.level_4_frame,
            extends(old(self)@.tables, final(self)@.tables),
            final(allocator).map() == old(allocator).map(),
            old(allocator).cursor() <= final(allocator).cursor() <= old(allocator).cursor() + 3,
            r is Err ==> !(r->Err_0 is PageAlreadyMapped),
            (r matches Err(e) && e is FrameAllocationFailed) ==> final(allocator).exhausted(),
            frames_fresh(*old(allocator), old(self)@.tables) ==> !(r matches Err(e) && e is FrameInUse),
            r is Ok || (r matches Err(e) && (e is FrameAllocationFailed || e is FrameInUse)),
            frames_fresh(*old(allocator), old(self)@.tables) ==> frames_fresh(
                *final(allocator),
                final(self)@.tables,
            ),
            r matches Ok((p3, p2, p1)) ==> {
                let t = final(self)@.tables;
                &&& entry_at(t, final(self)@.level_4_frame, table_index(page, 4)) matches PageTableEntry::Frame {
                    addr,
                    ..
                } && addr == p3
                &&& entry_at(t, p3, table_index(page, 3)) matches PageTableEntry::Frame { addr, .. } && addr == p2
                &&& entry_at(t, p2, table_index(page, 2)) matches PageTableEntry::Frame { addr, .. } && addr == p1
                &&& frames_fresh(*old(allocator), old(self)@.tables) ==> forall|k: int|
                    final(allocator).cursor() <= k < final(allocator).frames().len() ==> #[trigger] final(allocator).frames()[k] as u64 != p1
                &&& forall|addr: u64|
                    addr / 0x20_0000 == page / 0x20_0000 && old(self)@.translate(addr) is NotMapped ==> #[trigger] entry_at(
                        t,
                        p1,
                        table_index(addr, 1),
                    ) is Unused
                &&& !(old(self)@.translate(page) is NotMapped) ==> walk(t, p1, page, 1) == old(self)@.translate(page)
            },
            !(old(self)@.translate(page) is NotMapped) ==> r is Ok,
            old(self)@.translate(page) is NotMapped && frames_fresh(*old(allocator), old(self)@.tables)
                && available(*old(allocator)) >= 3 ==> r is Ok,
            old(self)@.parents_present(page) ==> r is Ok && *final(allocator) == *old(allocator)
                && r->Ok_0.2 == old(self)@.l1_table(page) && same_shape(old(self)@.tables, final(self)@.tables),
    {
        let ghost t0 = self@.tables;
        let ghost a0 = *allocator;
        let ghost fresh0 = frames_fresh(a0, t0);
        let root = self.level_4_frame;
        let i4 = index_of(page, 4);
        let i3 = index_of(page, 3);
        let i2 = index_of(page, 2);
        proof {
            lemma_no_huge(self@, root, i4 as nat);
            if fresh0 {
                lemma_fresh_excludes(a0, t0, root);
            }
        }
        let p3 = match self.create_next_table(root, i4, writable, allocator) {
            Ok(next) => next,
            Err(e) => return Err(e),
        };
        let ghost t1 = self@.tables;
        let ghost a1 = *allocator;
        let ghost u1 = entry_at(t0, root, i4 as nat) is Unused;
        proof {
            if !(walk(t0, root, page, 4) is NotMapped) {
                lemma_walk_extends(t0, t1, root, page, 4);
            }
            assert(walk(t1, root, page, 4) == walk(t1, p3, page, 3));
            lemma_no_huge(self@, p3, i3 as nat);
            if fresh0 {
                assert(points_to(entry_at(t1, root, i4 as nat), p3));
                lemma_fresh_excludes(a1, t1, p3);
            }
            if u1 {
                assert(entry_at(t1, p3, i3 as nat) is Unused);
            } else {
                assert(same_shape(t0, t1));
            }
        }
        let p2 = match self.create_next_table(p3, i3, writable, allocator) {
            Ok(next) => next,
            Err(e) => {
                proof {
                    lemma_extends_trans(t0, t1, self@.tables);
                }
                return Err(e);
            },
        };
        let ghost t2 = self@.tables;
        let ghost a2 = *allocator;
        let ghost u2 = entry_at(t1, p3, i3 as nat) is Unused;
        proof {
            lemma_extends_trans(t0, t1, t2);
            if !(walk(t1, p3, page, 3) is NotMapped) {
                lemma_walk_extends(t1, t2, p3, page, 3);
            }
            assert(walk(t2, p3, page, 3) == walk(t2, p2, page, 2));
            lemma_no_huge(self@, p2, i2 as nat);
            if fresh0 {
                assert(points_to(entry_at(t2, p3, i3 as nat), p2));
                lemma_fresh_excludes(a2, t2, p2);
            }
            if u2 {
                assert(entry_at(t2, p2, i2 as nat) is Unused);
            } else {
                assert(same_shape(t1, t2));
            }
        }
        let p1 = match self.create_next_table(p2, i2, writable, allocator) {
            Ok(next) => next,
            Err(e) => {
                proof {
                    lemma_extends_trans(t0, t2, self@.tables);
                }
                return Err(e);
            },
        };
        let ghost t3 = self@.tables;
        let ghost a3 = *allocator;
        let ghost u3 = entry_at(t2, p2, i2 as nat) is Unused;
        proof {
            lemma_extends_trans(t0, t2, t3);
            if !(walk(t2, p2, page, 2) is NotMapped) {
                lemma_walk_extends(t2, t3, p2, page, 2);
            }
            assert(walk(t3, p2, page, 2) == walk(t3, p1, page, 1));
            assert(entry_at(t2, root, i4 as nat) == entry_at(t2, root, i4 as nat));
            assert(entry_at(t3, root, i4 as nat) == entry_at(t3, root, i4 as nat));
            assert(entry_at(t3, p3, i3 as nat) == entry_at(t3, p3, i3 as nat));
            if fresh0 {
                assert(points_to(entry_at(t3, p2, i2 as nat), p1));
                lemma_fresh_excludes(a3, t3, p1);
            }
            let s0 = old(self)@;
            if s0.parents_present(page) {
                assert(same_shape(t0, t1));
                assert(entry_at(t1, p3, i3 as nat) == entry_at(t1, p3, i3 as nat));
                assert(same_shape(t1, t2));
                assert(entry_at(t2, p2, i2 as nat) == entry_at(t2, p2, i2 as nat));
                assert(p1 == s0.l1_table(page));
            }
            if !u3 {
                assert(same_shape(t2, t3));
                lemma_same_shape_trans(t0, t1, t2);
                lemma_same_shape_trans(t0, t2, t3);
            }
            lemma_leaf_unused(t0, self@, p3, p2, p1, page);
        }
        Ok((p3, p2, p1))
    }

    /// Maps the page holding `page` to `frame`, creating missing
    /// intermediate tables in frames from `allocator`. On success every
    /// address of the page translates to the same offset in `frame`. A page
    /// that is mapped already is refused, and so is a frame from the
    /// allocator that already holds a table. Existing mappings are never
    /// changed, whether the call succeeds or not; a failure may leave new,
    /// empty intermediate tables behind. The call succeeds whenever the page
    /// is unmapped and the allocator has three frames left that are in no
    /// use by the tables.
    pub fn map_to(
        &mut self,
        page: u64,
        frame: PhysFrame,
        writable: bool,
        allocator: &mut BootInfoFrameAllocator,
    ) -> (r: Result<(), MapToError>)
        requires
            old(self)@.wf(),
        ensures
            final(self)@.wf(),
            final(self)@.level_4_frame == old(self)@.level_4_frame,
            extends(old(self)@.tables, final(self)@.tables),
            final(allocator).map() == old(allocator).map(),
            old(allocator).cursor() <= final(allocator).cursor() <= old(allocator).cursor() + 3,
            r is Ok ==> forall|addr: u64|
                addr / 4096 == page / 4096 ==> #[trigger] final(self)@.translate(addr) == Walk::Mapped(
                    (frame@ + addr % 4096) as u64,
                ),
            r is Ok ==> final(self)@.parents_present(page),
            r is Ok ==> final(self)@.leaf_entry(page) == (PageTableEntry::Frame { addr: frame@, writable }),
            r is Ok ==> forall|addr: u64|
                addr / 0x20_0000 == page / 0x20_0000 && addr / 4096 != page / 4096 && old(self)@.translate(addr) is NotMapped ==> #[trigger] final(self)@.leaf_entry(addr) is Unused,
            old(self)@.translate(page) is Mapped ==> r == Err::<(), MapToError>(
                MapToError::PageAlreadyMapped(frame),
            ),
            !(old(self)@.translate(page) is NotMapped) ==> r is Err,
            r == Err::<(), MapToError>(MapToError::FrameAllocationFailed) ==> final(allocator).exhausted(),
            old(self)@.parents_present(page) && old(self)@.leaf_entry(page) is Unused ==> r is Ok
                && *final(allocator) == *old(allocator),
            old(self)@.translate(page) is NotMapped && frames_fresh(*old(allocator), old(self)@.tables)
                && available(*old(allocator)) >= 3 ==> r is Ok,
            frames_fresh(*old(allocator), old(self)@.tables) ==> r != Err::<(), MapToError>(
                MapToError::FrameInUse,
            ),
            old(self)@.translate(page) is NotMapped && frames_fresh(*old(allocator), old(self)@.tables) ==> r is Ok
                || r == Err::<(), MapToError>(MapToError::FrameAllocationFailed),
            frames_fresh(*old(allocator), old(self)@.tables) && (forall|k: int|
                old(allocator).cursor() <= k < old(allocator).frames().len() ==> #[trigger] old(allocator).frames()[k] as u64 != frame@) ==> frames_fresh(*final(allocator), final(self)@.tables),
    {
        let ghost t0 = self@.tables;
        let ghost a0 = *allocator;
        let (p3, p2, p1) = match self.create_path(page, writable, allocator) {
            Ok(path) => path,
            Err(e) => return Err(e),
        };
        let ghost t3 = self@.tables;
        let ghost a3 = *allocator;
        let i1 = index_of(page, 1);
        proof {
            lemma_no_huge(self@, p1, i1 as nat);
            let s0 = old(self)@;
            if s0.parents_present(page) && s0.leaf_entry(page) is Unused {
                assert(entry_at(t3, p1, i1 as nat) == entry_at(t3, p1, i1 as nat));
            }
        }
        match self.read_entry(p1, i1) {
            PageTableEntry::Unused => {},
            _ => {
                return Err(MapToError::PageAlreadyMapped(frame));
            },
        }
        let addr = frame.start_address();
        self.write_entry(p1, i1, PageTableEntry::Frame { addr, writable });
        proof {
            let root = self@.level_4_frame;
            let i4 = table_index(page, 4);
            let i3 = table_index(page, 3);
            let i2 = table_index(page, 2);
            let t4 = self@.tables;
            assert forall|k: u64, j: nat| #![trigger entry_at(t4, k, j)]
                entry_grows(entry_at(t3, k, j), entry_at(t4, k, j)) by {
                if k != p1 || j != i1 {
                    assert(entry_at(t4, k, j) == entry_at(t3, k, j));
                }
            }
            lemma_extends_trans(t0, t3, t4);
            assert(entry_at(t4, root, i4) == entry_at(t3, root, i4));
            assert(entry_at(t4, p3, i3) == entry_at(t3, p3, i3));
            assert(entry_at(t4, p2, i2) == entry_at(t3, p2, i2));
            assert forall|a: u64| a / 4096 == page / 4096 implies #[trigger] walk(t4, root, a, 4) == Walk::Mapped(
                (addr + a % 4096) as u64,
            ) by {
                lemma_same_page_same_index(a, page, 4);
                lemma_same_page_same_index(a, page, 3);
                lemma_same_page_same_index(a, page, 2);
                lemma_same_page_same_index(a, page, 1);
                assert(walk(t4, root, a, 4) == walk(t4, p3, a, 3));
                assert(walk(t4, p3, a, 3) == walk(t4, p2, a, 2));
                assert(walk(t4, p2, a, 2) == walk(t4, p1, a, 1));
                assert(walk(t4, p1, a, 1) == walk(t4, addr, a, 0));
            }
            let s4 = self@;
            assert(s4.l3_table(page) == p3);
            assert(s4.l2_table(page) == p2);
            assert(s4.l1_table(page) == p1);
            assert forall|a: u64|
                a / 0x20_0000 == page / 0x20_0000 && a / 4096 != page / 4096 && old(self)@.translate(a)
                    is NotMapped implies #[trigger] s4.leaf_entry(a) is Unused by {
                lemma_same_region(a, page);
                assert(s4.l1_table(a) == p1);
                assert(entry_at(t4, p1, table_index(a, 1)) == entry_at(t3, p1, table_index(a, 1)));
            }
            if frames_fresh(a0, t0) && (forall|k: int|
                a0.cursor() <= k < a0.frames().len() ==> #[trigger] a0.frames()[k] as u64 != frame@) {
                assert forall|k: int| a3.cursor() <= k < a3.frames().len() implies frame_free(
                    t4,
                    #[trigger] a3.frames()[k] as u64,
                ) by {
                    let f = a3.frames()[k] as u64;
                    assert(frame_free(t3, f));
                    assert(a0.frames()[k] as u64 != frame@);
                    assert forall|k2: u64, j: nat| !points_to(#[trigger] entry_at(t4, k2, j), f) by {
                        if k2 != p1 || j != i1 {
                            assert(entry_at(t4, k2, j) == entry_at(t3, k2, j));
                        }
                    }
                }
            }
        }
        Ok(())
    }

    /// Translates `addr` to the physical address it is mapped to, or `None`
    /// when an entry on the way is unused.
    pub fn translate_addr(&self, addr: u64) -> (r: Option<u64>)
        requires
            self@.wf(),
        ensures
            match self@.translate(addr) {
                Walk::Mapped(p) => r == Some(p),
                _ => r is None,
            },
    {
        let mut frame = self.level_4_frame;
        let mut level: u64 = 4;
        while level > 0
            invariant
                level <= 4,
                self@.wf(),
                walk(self@.tables, frame, addr, level as nat) == self@.translate(addr),
                frame % 4096 == 0,
            decreases level,
        {
            let entry = self.read_entry(frame, index_of(addr, level));
            match entry {
                PageTableEntry::Frame { addr: next, .. } => {
                    frame = next;
                },
                _ => {
                    return None;
                },
            }
            level = level - 1;
        }
        Some(frame + addr % 4096)
    }
}

} // verus!
