use vstd::prelude::*;

verus! {

/// Size of a page and of a physical frame, in bytes.
pub const PAGE_SIZE: u64 = 4096;

/// `addr` rounded down to the start of its frame.
pub open spec fn frame_floor(addr: int) -> int {
    addr - addr % 4096
}

/// A 4 KiB physical memory frame, identified by its start address.
#[derive(Clone, Copy, PartialEq, Eq, Structural, Debug)]
pub struct PhysFrame {
    start: u64,
}

impl View for PhysFrame {
    type V = u64;

    closed spec fn view(&self) -> u64 {
        self.start
    }
}

impl PhysFrame {
    #[verifier::type_invariant]
    spec fn aligned(&self) -> bool {
        self.start % 4096 == 0
    }

    /// The frame that holds the physical address `addr`.
    pub fn containing_address(addr: u64) -> (r: PhysFrame)
        ensures
            r@ == frame_floor(addr as int),
    {
        PhysFrame { start: addr - addr % PAGE_SIZE }
    }

    /// The first physical address of the frame.
    pub fn start_address(&self) -> (r: u64)
        ensures
            r == self@,
            r % 4096 == 0,
    {
        proof {
            use_type_invariant(self);
        }
        self.start
    }
}

/// A range `[start_addr, end_addr)` of physical memory from the firmware's
/// memory map, and whether it is free for the kernel to use.
#[derive(Clone, Copy, PartialEq, Eq, Structural, Debug)]
pub struct MemoryRegion {
    pub start_addr: u64,
    pub end_addr: u64,
    pub usable: bool,
}

/// How many frames a region yields: one per 4 KiB step from its start
/// while below its end.
pub open spec fn region_frame_count(r: MemoryRegion) -> nat {
    if r.end_addr > r.start_addr {
        ((r.end_addr - r.start_addr + 4095) / 4096) as nat
    } else {
        0
    }
}

/// The frames of one region, in address order.
pub open spec fn region_frames(r: MemoryRegion) -> Seq<int> {
    Seq::new(region_frame_count(r), |j: int| frame_floor(r.start_addr + 4096 * j))
}

/// The frames of all usable regions of `map`, region after region.
pub open spec fn usable_frames_of(map: Seq<MemoryRegion>) -> Seq<int>
    decreases map.len(),
{
    if map.len() == 0 {
        Seq::empty()
    } else {
        let last = map.last();
        usable_frames_of(map.drop_last()) + if last.usable {
            region_frames(last)
        } else {
            Seq::empty()
        }
    }
}

/// A memory map as the firmware hands it over: usable regions start on a
/// frame boundary, are not reversed, and do not overlap one another. The
/// regions may come in any order; the others are not looked at.
pub open spec fn memory_map_wf(map: Seq<MemoryRegion>) -> bool {
    &&& forall|i: int|
        0 <= i < map.len() && #[trigger] map[i].usable ==> map[i].start_addr % 4096 == 0
            && map[i].start_addr <= map[i].end_addr
    &&& forall|i: int, j: int|
        0 <= i < map.len() && 0 <= j < map.len() && i != j && map[i].usable && map[j].usable
            ==> #[trigger] map[i].end_addr <= #[trigger] map[j].start_addr || map[j].end_addr
            <= map[i].start_addr
}

/// Hands out the usable frames of a memory map one after another. `next`
/// counts the frames handed out so far; frames are never given back.
pub struct BootInfoFrameAllocator {
    memory_map: Vec<MemoryRegion>,
    next: usize,
}

impl BootInfoFrameAllocator {
    /// The regions the allocator draws from.
    pub closed spec fn map(&self) -> Seq<MemoryRegion> {
        self.memory_map@
    }

    /// How many frames have been handed out.
    pub closed spec fn cursor(&self) -> nat {
        self.next as nat
    }

    /// Every frame has been handed out: `allocate_frame` answers `None`.
    pub open spec fn exhausted(&self) -> bool {
        !(self.cursor() < self.frames().len() && self.cursor() < usize::MAX)
    }

    /// All frames the allocator can ever hand out, in order.
    pub open spec fn frames(&self) -> Seq<int> {
        usable_frames_of(self.map())
    }

    /// An allocator that starts at the first usable frame of `memory_map`.
    pub fn init(memory_map: Vec<MemoryRegion>) -> (r: Self)
        ensures
            r.map() == memory_map@,
            r.cursor() == 0,
    {
        BootInfoFrameAllocator { memory_map, next: 0 }
    }

    /// All usable frames of the memory map, in order.
    pub fn usable_frames(&self) -> (r: Vec<PhysFrame>)
        ensures
            r@.len() == self.frames().len(),
            forall|k: int| 0 <= k < r@.len() ==> #[trigger] r@[k]@ == self.frames()[k],
    {
        let mut out: Vec<PhysFrame> = Vec::new();
        let mut i: usize = 0;
        while i < self.memory_map.len()
            invariant
                i <= self.memory_map@.len(),
                out@.len() == usable_frames_of(self.memory_map@.take(i as int)).len(),
                forall|k: int|
                    0 <= k < out@.len() ==> #[trigger] out@[k]@ == usable_frames_of(
                        self.memory_map@.take(i as int),
                    )[k],
            decreases self.memory_map@.len() - i,
        {
            let r = self.memory_map[i];
            let ghost m = self.memory_map@;
            let ghost pre = usable_frames_of(m.take(i as int));
            proof {
                assert(m.take(i + 1).drop_last() == m.take(i as int));
                assert(m.take(i + 1).last() == r);
                assert(usable_frames_of(m.take(i + 1)) == pre + if r.usable {
                    region_frames(r)
                } else {
                    Seq::empty()
                });
            }
            if r.usable && r.end_addr > r.start_addr {
                let span = r.end_addr - r.start_addr;
                let count: u64 = span / PAGE_SIZE + if span % PAGE_SIZE == 0 { 0 } else { 1 };
                assert(count == region_frame_count(r));
                let mut j: u64 = 0;
                while j < count
                    invariant
                        j <= count,
                        count == region_frame_count(r),
                        r.usable && r.end_addr > r.start_addr,
                        out@.len() == pre.len() + j,
                        forall|k: int| 0 <= k < out@.len() ==> #[trigger] out@[k]@ == (pre + region_frames(r))[k],
                    decreases count - j,
                {
                    proof {
                        assert(4096 * j < r.end_addr - r.start_addr) by (nonlinear_arith)
                            requires j < count, count == (r.end_addr - r.start_addr + 4095) / 4096;
                    }
                    let f = PhysFrame::containing_address(r.start_addr + j * PAGE_SIZE);
                    out.push(f);
                    j = j + 1;
                }
            }
            i = i + 1;
        }
        proof {
            assert(self.memory_map@.take(self.memory_map@.len() as int) == self.memory_map@);
        }
        out
    }

    /// Returns the next usable frame, or `None` once every usable frame has
    /// been handed out. After `None` the allocator is unchanged, so it keeps
    /// answering `None`.
    pub fn allocate_frame(&mut self) -> (r: Option<PhysFrame>)
        ensures
            final(self).map() == old(self).map(),
            old(self).cursor() < old(self).frames().len() && old(self).cursor() < usize::MAX ==> {
                &&& r is Some
                &&& r.unwrap()@ == old(self).frames()[old(self).cursor() as int]
                &&& final(self).cursor() == old(self).cursor() + 1
            },
            !(old(self).cursor() < old(self).frames().len() && old(self).cursor() < usize::MAX) ==> {
                &&& r is None
                &&& final(self).cursor() == old(self).cursor()
            },
    {
        if self.next == usize::MAX {
            return None;
        }
        let mut remaining: usize = self.next;
        let mut i: usize = 0;
        while i < self.memory_map.len()
            invariant
                i <= self.memory_map@.len(),
                remaining + usable_frames_of(self.memory_map@.take(i as int)).len() == self.next,
                self.next < usize::MAX,
                self.memory_map@ == old(self).memory_map@,
                self.next == old(self).next,
            decreases self.memory_map@.len() - i,
        {
            let r = self.memory_map[i];
            proof {
                let m = self.memory_map@;
                assert(m.take(i + 1).drop_last() == m.take(i as int));
                assert(m.take(i + 1).last() == r);
                assert(usable_frames_of(m.take(i + 1)) == usable_frames_of(m.take(i as int)) + if r.usable {
                    region_frames(r)
                } else {
                    Seq::empty()
                });
            }
            if r.usable && r.end_addr > r.start_addr {
                let span = r.end_addr - r.start_addr;
                let count: u64 = span / PAGE_SIZE + if span % PAGE_SIZE == 0 { 0 } else { 1 };
                proof {
                    assert(count == region_frame_count(r));
                }
                if (remaining as u64) < count {
                    let addr = r.start_addr + (remaining as u64) * PAGE_SIZE;
                    let frame = PhysFrame::containing_address(addr);
                    proof {
                        let m = self.memory_map@;
                        lemma_frames_of_prefix(m, i as int + 1, m.len() as int);
                        assert(m.take(m.len() as int) == m);
                        assert(usable_frames_of(m.take(i + 1)) == usable_frames_of(m.take(i as int))
                            + region_frames(r));
                        assert(usable_frames_of(m.take(i + 1))[self.next as int] == region_frames(r)[remaining as int]);
                    }
                    self.next = self.next + 1;
                    return Some(frame);
                }
                remaining = remaining - count as usize;
            }
            i = i + 1;
        }
        proof {
            let m = self.memory_map@;
            assert(m.take(m.len() as int) == m);
        }
        None
    }
}

/// The frames of a prefix of the map are a prefix of the frames of the map.
proof fn lemma_frames_of_prefix(m: Seq<MemoryRegion>, i: int, j: int)
    requires
        0 <= i <= j <= m.len(),
    ensures
        usable_frames_of(m.take(i)).len() <= usable_frames_of(m.take(j)).len(),
        forall|k: int|
            0 <= k < usable_frames_of(m.take(i)).len() ==> #[trigger] usable_frames_of(m.take(i))[k]
                == usable_frames_of(m.take(j))[k],
    decreases j - i,
{
    if i < j {
        lemma_frames_of_prefix(m, i, j - 1);
        assert(m.take(j).drop_last() == m.take(j - 1));
    }
}

/// In a well-formed memory map no usable frame occurs twice, so the
/// allocator, which hands them out one after another, never hands out the
/// same frame twice.
pub proof fn lemma_frames_distinct(map: Seq<MemoryRegion>)
    requires
        memory_map_wf(map),
    ensures
        forall|i: int, j: int|
            0 <= i < usable_frames_of(map).len() && 0 <= j < usable_frames_of(map).len() && i != j
                ==> #[trigger] usable_frames_of(map)[i] != #[trigger] usable_frames_of(map)[j],
        forall|i: int|
            0 <= i < usable_frames_of(map).len() ==> 0 <= #[trigger] usable_frames_of(map)[i] <= u64::MAX,
{
    lemma_frames_distinct_below(map, map.len() as int);
    assert(map.take(map.len() as int) == map);
}

/// Two allocator states of one map whose cursors differ hand out different
/// frames: frame identifiers are never repeated before exhaustion.
pub proof fn lemma_no_frame_handed_out_twice(a: BootInfoFrameAllocator, b: BootInfoFrameAllocator)
    requires
        a.map() == b.map(),
        memory_map_wf(a.map()),
        a.cursor() < b.cursor() < a.frames().len(),
    ensures
        a.frames()[a.cursor() as int] != b.frames()[b.cursor() as int],
{
    lemma_frames_distinct(a.map());
}

proof fn lemma_frames_distinct_below(map: Seq<MemoryRegion>, n: int)
    requires
        memory_map_wf(map),
        0 <= n <= map.len(),
    ensures
        forall|i: int, j: int|
            0 <= i < usable_frames_of(map.take(n)).len() && 0 <= j < usable_frames_of(map.take(n)).len() && i
                != j ==> #[trigger] usable_frames_of(map.take(n))[i] != #[trigger] usable_frames_of(
                map.take(n),
            )[j],
        forall|i: int|
            0 <= i < usable_frames_of(map.take(n)).len() ==> 0 <= #[trigger] usable_frames_of(map.take(n))[i]
                <= u64::MAX,
        forall|i: int, m: int|
            0 <= i < usable_frames_of(map.take(n)).len() && n <= m < map.len() && map[m].usable ==> !(
            map[m].start_addr <= #[trigger] usable_frames_of(map.take(n))[i] < #[trigger] map[m].end_addr),
    decreases n,
{
    if n > 0 {
        lemma_frames_distinct_below(map, n - 1);
        let m0 = map.take(n);
        assert(m0.drop_last() == map.take(n - 1));
        let r = map[n - 1];
        assert(m0.last() == r);
        let pre = usable_frames_of(map.take(n - 1));
        let rf = if r.usable { region_frames(r) } else { Seq::<int>::empty() };
        assert(usable_frames_of(m0) == pre + rf);
        assert forall|k: int| 0 <= k < rf.len() implies r.start_addr <= #[trigger] rf[k] < r.end_addr
            && rf[k] == r.start_addr + 4096 * k by {
            let x = r.start_addr + 4096 * k;
            assert(x % 4096 == 0) by (nonlinear_arith)
                requires x == r.start_addr + 4096 * k, r.start_addr % 4096 == 0;
            assert(4096 * k < r.end_addr - r.start_addr) by (nonlinear_arith)
                requires k < (r.end_addr - r.start_addr + 4095) / 4096, 0 <= k, r.end_addr > r.start_addr;
        }
        let all = pre + rf;
        assert forall|i: int, j: int| 0 <= i < all.len() && 0 <= j < all.len() && i != j implies #[trigger] all[i]
            != #[trigger] all[j] by {
            if i < pre.len() && j < pre.len() {
            } else if i >= pre.len() && j >= pre.len() {
                assert(all[i] == rf[i - pre.len()]);
                assert(all[j] == rf[j - pre.len()]);
            } else if i < pre.len() {
                assert(all[i] == pre[i]);
                assert(all[j] == rf[j - pre.len()]);
                assert(!(map[n - 1].start_addr <= pre[i] < map[n - 1].end_addr));
            } else {
                assert(all[j] == pre[j]);
                assert(all[i] == rf[i - pre.len()]);
                assert(!(map[n - 1].start_addr <= pre[j] < map[n - 1].end_addr));
            }
        }
        assert forall|i: int| 0 <= i < all.len() implies 0 <= #[trigger] all[i] <= u64::MAX by {
            if i < pre.len() {
                assert(all[i] == pre[i]);
            } else {
                assert(all[i] == rf[i - pre.len()]);
            }
        }
        assert forall|i: int, m: int|
            0 <= i < all.len() && n <= m < map.len() && map[m].usable implies !(map[m].start_addr
                <= #[trigger] all[i] < #[trigger] map[m].end_addr) by {
            if i < pre.len() {
                assert(all[i] == pre[i]);
            } else {
                assert(all[i] == rf[i - pre.len()]);
                assert(map[n - 1].end_addr <= map[m].start_addr || map[m].end_addr <= map[n - 1].start_addr);
            }
        }
    }
}

} // verus!
