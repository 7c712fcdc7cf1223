use vstd::prelude::*;

pub mod bump;

use crate::memory::{lemma_frames_distinct, BootInfoFrameAllocator};
use crate::paging::{available, frames_fresh, MapToError, MapperState, PageMapper, PageTableEntry};
use self::bump::{BumpAllocator, BumpState};

verus! {

/// Virtual address at which the kernel heap starts.
pub const HEAP_START: u64 = 0x4444_4444_0000;

/// Size of the kernel heap in bytes (100 KiB).
pub const HEAP_SIZE: u64 = 102400;

/// The smallest multiple of `align` that is at least `addr`.
pub open spec fn spec_align_up(addr: int, align: int) -> int
    recommends
        align > 0,
{
    if addr % align == 0 {
        addr
    } else {
        addr - addr % align + align
    }
}

/// Rounds `addr` up to the next multiple of `align`.
pub fn align_up(addr: u64, align: u64) -> (r: u64)
    requires
        align > 0,
        addr + align - 1 <= u64::MAX,
    ensures
        r == spec_align_up(addr as int, align as int),
        r >= addr,
        r < addr + align,
        r % align == 0,
{
    let rem = addr % align;
    proof {
        let a = align as int;
        let x = addr as int;
        assert(x == a * (x / a) + x % a) by (nonlinear_arith)
            requires a > 0;
        assert(0 <= x % a < a) by (nonlinear_arith)
            requires a > 0;
        assert(a * (x / a) + a == a * (x / a + 1)) by (nonlinear_arith);
        assert((a * (x / a + 1)) % a == 0) by (nonlinear_arith)
            requires a > 0;
    }
    if rem == 0 {
        addr
    } else {
        let r = addr - rem + align;
        r
    }
}

/// The number of pages that hold a byte of `[heap_start, heap_start +
/// heap_size)`.
pub open spec fn heap_pages(heap_start: u64, heap_size: u64) -> int {
    (heap_start + heap_size - 1) / 4096 - heap_start / 4096 + 1
}

/// The heap `[heap_start, heap_start + heap_size)` can be mapped with no
/// error but running out of frames: no address of it is mapped yet, it lies
/// in one 2 MiB region (so all its pages share their intermediate tables),
/// and the frames the allocator has yet to hand out are in no use by the
/// tables.
pub open spec fn heap_mappable(
    mapper: MapperState,
    frames: BootInfoFrameAllocator,
    heap_start: u64,
    heap_size: u64,
) -> bool {
    &&& heap_size > 0
    &&& heap_start + heap_size <= u64::MAX
    &&& forall|addr: u64|
        heap_start <= addr < heap_start + heap_size ==> #[trigger] mapper.translate(addr) is NotMapped
    &&& heap_start / 0x20_0000 == (heap_start + heap_size - 1) / 0x20_0000
    &&& frames_fresh(frames, mapper.tables)
}

/// The heap can be mapped, and the allocator has four frames per page: one
/// for the page and up to three for intermediate tables.
pub open spec fn heap_fits(
    mapper: MapperState,
    frames: BootInfoFrameAllocator,
    heap_start: u64,
    heap_size: u64,
) -> bool {
    &&& heap_mappable(mapper, frames, heap_start, heap_size)
    &&& available(frames) >= 4 * heap_pages(heap_start, heap_size)
}

/// Page `k` of the heap (counting from the page that holds `heap_start`) is
/// mapped, present and writable, to frame number `cs[k]` of `frames`; the
/// numbers increase from page to page and lie in `[c0, c1)`.
pub open spec fn heap_backed_by(
    s: MapperState,
    frames: Seq<int>,
    cs: Seq<int>,
    heap_start: u64,
    n: int,
    c0: int,
    c1: int,
) -> bool {
    &&& cs.len() == n
    &&& forall|k: int| 0 <= k < n ==> c0 <= #[trigger] cs[k] < c1 && cs[k] < frames.len()
    &&& forall|k: int| 0 <= k < n - 1 ==> #[trigger] cs[k] < cs[k + 1]
    &&& forall|addr: u64|
        heap_start as int / 4096 <= addr as int / 4096 < heap_start as int / 4096 + n ==> #[trigger] s.parents_present(addr)
            && s.leaf_entry(addr) == (PageTableEntry::Frame {
            addr: frames[cs[addr as int / 4096 - heap_start as int / 4096]] as u64,
            writable: true,
        })
}

/// The heap's pages stay backed as they were when the tables grow and one
/// more page is mapped to frame number `c` of `frames`.
proof fn lemma_backing_step(
    before: MapperState,
    after: MapperState,
    frames: Seq<int>,
    cs: Seq<int>,
    heap_start: u64,
    page: u64,
    n: int,
    c0: int,
    c: int,
    c1: int,
)
    requires
        heap_backed_by(before, frames, cs, heap_start, n, c0, c),
        n >= 0,
        c < c1,
        c0 <= c < frames.len(),
        page as int / 4096 == heap_start as int / 4096 + n,
        crate::paging::extends(before.tables, after.tables),
        before.level_4_frame == after.level_4_frame,
        after.parents_present(page),
        after.leaf_entry(page) == (PageTableEntry::Frame { addr: frames[c] as u64, writable: true }),
    ensures
        heap_backed_by(after, frames, cs.push(c), heap_start, n + 1, c0, c1),
{
    let cs1 = cs.push(c);
    assert forall|k: int| 0 <= k < n + 1 implies c0 <= #[trigger] cs1[k] < c1 && cs1[k] < frames.len() by {
        if k < n {
            assert(cs1[k] == cs[k]);
        }
    }
    assert forall|k: int| 0 <= k < n implies #[trigger] cs1[k] < cs1[k + 1] by {
        if k < n - 1 {
            assert(cs1[k] == cs[k] && cs1[k + 1] == cs[k + 1]);
        } else {
            assert(cs1[k] == cs[k]);
        }
    }
    assert forall|addr: u64|
        heap_start as int / 4096 <= addr as int / 4096 < heap_start as int / 4096 + n + 1 implies #[trigger] after.parents_present(addr)
            && after.leaf_entry(addr) == (PageTableEntry::Frame {
            addr: frames[cs1[addr as int / 4096 - heap_start as int / 4096]] as u64,
            writable: true,
        }) by {
        if addr as int / 4096 < heap_start as int / 4096 + n {
            assert(before.parents_present(addr));
            crate::paging::lemma_leaf_persists(before, after, addr);
            assert(cs1[addr as int / 4096 - heap_start as int / 4096] == cs[addr as int / 4096 - heap_start as int / 4096]);
        } else {
            crate::paging::lemma_same_page_leaf(after, addr, page);
        }
    }
}

proof fn lemma_heap_addr_unmapped(mapper: MapperState, heap_start: u64, heap_size: u64, addr: u64)
    requires
        heap_size > 0,
        heap_start + heap_size <= u64::MAX,
        forall|addr: u64|
            heap_start <= addr < heap_start + heap_size ==> #[trigger] mapper.translate(addr) is NotMapped,
        heap_start as int / 4096 < addr as int / 4096 <= (heap_start + heap_size - 1) as int / 4096,
    ensures
        mapper.translate(addr) is NotMapped,
{
    let e = (heap_start + heap_size - 1) as u64;
    if addr < heap_start {
        vstd::arithmetic::div_mod::lemma_div_is_ordered(addr as int, heap_start as int, 4096);
    }
    if addr > e {
        vstd::arithmetic::div_mod::lemma_div_is_ordered(e as int, addr as int, 4096);
        assert(mapper.translate(e) is NotMapped);
        crate::paging::lemma_same_page_same_walk(mapper.tables, mapper.level_4_frame, addr, e, 4);
    }
}

/// An address between two of one 2 MiB region lies in that region.
proof fn lemma_in_region(a: u64, lo: u64, hi: u64)
    requires
        lo / 0x20_0000 == hi / 0x20_0000,
        lo as int / 4096 <= a as int / 4096 <= hi as int / 4096,
    ensures
        a / 0x20_0000 == lo / 0x20_0000,
{
    vstd::arithmetic::div_mod::lemma_div_denominator(a as int, 4096, 512);
    vstd::arithmetic::div_mod::lemma_div_denominator(lo as int, 4096, 512);
    vstd::arithmetic::div_mod::lemma_div_denominator(hi as int, 4096, 512);
    vstd::arithmetic::div_mod::lemma_div_is_ordered(lo as int / 4096, a as int / 4096, 512);
    vstd::arithmetic::div_mod::lemma_div_is_ordered(a as int / 4096, hi as int / 4096, 512);
}

/// Maps `page` to the next frame of `frame_allocator`, present and
/// writable.
fn map_page(mapper: &mut PageMapper, frame_allocator: &mut BootInfoFrameAllocator, page: u64) -> (r: Result<
    (),
    MapToError,
>)
    requires
        old(mapper)@.wf(),
    ensures
        final(mapper)@.wf(),
        crate::paging::extends(old(mapper)@.tables, final(mapper)@.tables),
        final(mapper)@.level_4_frame == old(mapper)@.level_4_frame,
        final(frame_allocator).map() == old(frame_allocator).map(),
        old(frame_allocator).cursor() <= final(frame_allocator).cursor() <= old(frame_allocator).cursor() + 4,
        r == Err::<(), MapToError>(MapToError::FrameAllocationFailed) ==> final(frame_allocator).exhausted(),
        old(frame_allocator).exhausted() ==> r == Err::<(), MapToError>(MapToError::FrameAllocationFailed),
        r is Ok ==> !old(frame_allocator).exhausted(),
        r is Ok ==> forall|addr: u64| addr / 4096 == page / 4096 ==> #[trigger] final(mapper)@.translate(addr) is Mapped,
        r is Ok ==> old(mapper)@.translate(page) is NotMapped,
        r is Ok ==> final(mapper)@.parents_present(page),
        r is Ok ==> forall|addr: u64|
            addr / 0x20_0000 == page / 0x20_0000 && addr / 4096 != page / 4096 && old(mapper)@.translate(addr)
                is NotMapped ==> #[trigger] final(mapper)@.leaf_entry(addr) is Unused,
        frames_fresh(*old(frame_allocator), old(mapper)@.tables) ==> r != Err::<(), MapToError>(MapToError::FrameInUse)
            && frames_fresh(*final(frame_allocator), final(mapper)@.tables),
        old(mapper)@.translate(page) is NotMapped && frames_fresh(*old(frame_allocator), old(mapper)@.tables)
            && available(*old(frame_allocator)) >= 4 ==> r is Ok,
        old(mapper)@.parents_present(page) && old(mapper)@.leaf_entry(page) is Unused && available(
            *old(frame_allocator),
        ) >= 1 ==> r is Ok && final(frame_allocator).cursor() == old(frame_allocator).cursor() + 1,
        r is Ok ==> final(mapper)@.leaf_entry(page) == (PageTableEntry::Frame {
            addr: old(frame_allocator).frames()[old(frame_allocator).cursor() as int] as u64,
            writable: true,
        }) && old(frame_allocator).cursor() < old(frame_allocator).frames().len()
            && final(frame_allocator).cursor() >= old(frame_allocator).cursor() + 1,
        old(mapper)@.translate(page) is NotMapped && frames_fresh(*old(frame_allocator), old(mapper)@.tables) ==> r is Ok
            || r == Err::<(), MapToError>(MapToError::FrameAllocationFailed),
        old(mapper)@.parents_present(page) && old(mapper)@.leaf_entry(page) is Unused ==> r is Ok || r == Err::<
            (),
            MapToError,
        >(MapToError::FrameAllocationFailed),
{
    let ghost alloc_before = *frame_allocator;
    let frame = match frame_allocator.allocate_frame() {
        Some(frame) => frame,
        None => return Err(MapToError::FrameAllocationFailed),
    };
    proof {
        if frames_fresh(alloc_before, mapper@.tables) {
            let a1 = *frame_allocator;
            lemma_frames_distinct(a1.map());
            assert forall|k: int| a1.cursor() <= k < a1.frames().len() implies #[trigger] a1.frames()[k] as u64
                != frame@ by {
                assert(alloc_before.frames()[alloc_before.cursor() as int] != a1.frames()[k]);
            }
        }
    }
    mapper.map_to(page, frame, true, frame_allocator)
}

/// What the heap loop knows of the next page before mapping it.
proof fn lemma_page_before_step(
    s0: MapperState,
    before: MapperState,
    heap_start: u64,
    heap_size: u64,
    page: u64,
    i: int,
    good: bool,
)
    requires
        heap_size > 0,
        heap_start + heap_size <= u64::MAX,
        page as int / 4096 == heap_start as int / 4096 + i,
        i >= 0,
        page as int / 4096 <= (heap_start + heap_size - 1) as int / 4096,
        good ==> heap_start / 0x20_0000 == (heap_start + heap_size - 1) / 0x20_0000,
        good ==> forall|addr: u64|
            heap_start <= addr < heap_start + heap_size ==> #[trigger] s0.translate(addr) is NotMapped,
        good && i == 0 ==> before == s0,
        good && i > 0 ==> before.parents_present(heap_start),
        good && i > 0 ==> forall|addr: u64|
            heap_start as int / 4096 + i <= addr as int / 4096 <= (heap_start + heap_size - 1) as int / 4096
                ==> #[trigger] before.leaf_entry(addr) is Unused,
    ensures
        good && i == 0 ==> before.translate(page) is NotMapped,
        good && i > 0 ==> before.parents_present(page) && before.leaf_entry(page) is Unused,
{
    let last_byte = (heap_start + heap_size - 1) as u64;
    if good {
        if i == 0 {
            assert(page / 4096 == heap_start / 4096);
            assert(s0.translate(heap_start) is NotMapped);
            crate::paging::lemma_same_page_same_walk(s0.tables, s0.level_4_frame, heap_start, page, 4);
        } else {
            lemma_in_region(page, heap_start, last_byte);
            crate::paging::lemma_region_parents(before, page, heap_start);
        }
    }
}

/// The facts the heap loop carries from one page to the next.
proof fn lemma_pages_after_step(
    s0: MapperState,
    before: MapperState,
    after: MapperState,
    heap_start: u64,
    heap_size: u64,
    page: u64,
    i: int,
    good: bool,
)
    requires
        heap_size > 0,
        heap_start + heap_size <= u64::MAX,
        page as int / 4096 == heap_start as int / 4096 + i,
        i >= 0,
        page as int / 4096 <= (heap_start + heap_size - 1) as int / 4096,
        good ==> heap_start / 0x20_0000 == (heap_start + heap_size - 1) / 0x20_0000,
        good ==> forall|addr: u64|
            heap_start <= addr < heap_start + heap_size ==> #[trigger] s0.translate(addr) is NotMapped,
        good && i == 0 ==> before == s0,
        good && i > 0 ==> before.parents_present(heap_start),
        good && i > 0 ==> forall|addr: u64|
            heap_start as int / 4096 + i <= addr as int / 4096 <= (heap_start + heap_size - 1) as int / 4096
                ==> #[trigger] before.leaf_entry(addr) is Unused,
        after.parents_present(page),
        forall|addr: u64|
            addr / 0x20_0000 == page / 0x20_0000 && addr / 4096 != page / 4096 && before.translate(addr)
                is NotMapped ==> #[trigger] after.leaf_entry(addr) is Unused,
        crate::paging::extends(s0.tables, before.tables),
        crate::paging::extends(before.tables, after.tables),
        before.level_4_frame == s0.level_4_frame,
        after.level_4_frame == s0.level_4_frame,
        before.translate(page) is NotMapped,
        forall|addr: u64| addr / 4096 == page / 4096 ==> #[trigger] after.translate(addr) is Mapped,
        forall|addr: u64|
            heap_start as int / 4096 <= addr as int / 4096 < heap_start as int / 4096 + i ==> #[trigger] before.translate(addr) is Mapped,
        forall|addr: u64|
            heap_start as int / 4096 <= addr as int / 4096 < heap_start as int / 4096 + i ==> #[trigger] s0.translate(addr) is NotMapped,
    ensures
        forall|addr: u64|
            heap_start as int / 4096 <= addr as int / 4096 < heap_start as int / 4096 + i + 1 ==> #[trigger] after.translate(addr) is Mapped,
        forall|addr: u64|
            heap_start as int / 4096 <= addr as int / 4096 < heap_start as int / 4096 + i + 1 ==> #[trigger] s0.translate(addr) is NotMapped,
        good ==> after.parents_present(heap_start),
        good ==> forall|addr: u64|
            heap_start as int / 4096 + i + 1 <= addr as int / 4096 <= (heap_start + heap_size - 1) as int / 4096
                ==> #[trigger] after.leaf_entry(addr) is Unused,
{
    let last_byte = (heap_start + heap_size - 1) as u64;
    assert forall|addr: u64|
        heap_start as int / 4096 <= addr as int / 4096 < heap_start as int / 4096 + i + 1 implies #[trigger] after.translate(addr) is Mapped by {
        if addr as int / 4096 < heap_start as int / 4096 + i {
            assert(before.translate(addr) is Mapped);
            crate::paging::lemma_walk_extends(before.tables, after.tables, before.level_4_frame, addr, 4);
        } else {
            assert(addr / 4096 == page / 4096);
        }
    }
    assert forall|addr: u64|
        heap_start as int / 4096 <= addr as int / 4096 < heap_start as int / 4096 + i + 1 implies #[trigger] s0.translate(addr) is NotMapped by {
        if addr as int / 4096 == heap_start as int / 4096 + i {
            assert(addr / 4096 == page / 4096);
            if !(s0.translate(page) is NotMapped) {
                crate::paging::lemma_walk_extends(s0.tables, before.tables, s0.level_4_frame, page, 4);
            }
            crate::paging::lemma_same_page_same_walk(s0.tables, s0.level_4_frame, addr, page, 4);
        }
    }
    if good {
        lemma_in_region(page, heap_start, last_byte);
        crate::paging::lemma_region_parents(after, page, heap_start);
        assert forall|addr: u64|
            heap_start as int / 4096 + i + 1 <= addr as int / 4096 <= last_byte as int / 4096 implies #[trigger] after.leaf_entry(addr) is Unused by {
            lemma_in_region(addr, heap_start, last_byte);
            assert(addr / 4096 != page / 4096);
            if i == 0 {
                lemma_heap_addr_unmapped(s0, heap_start, heap_size, addr);
            } else {
                crate::paging::lemma_region_parents(before, addr, heap_start);
                crate::paging::lemma_walk_leaf(before, addr);
            }
        }
    }
}

/// Maps every page of the kernel heap `[HEAP_START, HEAP_START + HEAP_SIZE)`
/// to the next frame of `frame_allocator`, present and writable, lowest
/// page first, then hands the range to `heap`. It succeeds whenever the
/// heap is unmapped and the frame allocator has enough frames that the
/// tables do not use; with too few it fails with `FrameAllocationFailed`.
pub fn init_heap(
    mapper: &mut PageMapper,
    frame_allocator: &mut BootInfoFrameAllocator,
    heap: &mut BumpAllocator,
) -> (r: Result<(), MapToError>)
    requires
        old(mapper)@.wf(),
    ensures
        final(mapper)@.wf(),
        crate::paging::extends(old(mapper)@.tables, final(mapper)@.tables),
        final(mapper)@.level_4_frame == old(mapper)@.level_4_frame,
        r is Ok ==> forall|addr: u64|
            HEAP_START <= addr < HEAP_START + HEAP_SIZE ==> #[trigger] final(mapper)@.translate(addr) is Mapped,
        r is Ok ==> final(heap)@ == (BumpState {
            heap_start: HEAP_START as int,
            heap_end: HEAP_START + HEAP_SIZE,
            next: HEAP_START as int,
            allocations: old(heap)@.allocations,
        }),
        r is Err ==> final(heap)@ == old(heap)@,
        r == Err::<(), MapToError>(MapToError::FrameAllocationFailed) ==> final(frame_allocator).exhausted(),
        old(frame_allocator).exhausted() ==> r == Err::<(), MapToError>(MapToError::FrameAllocationFailed),
        r is Ok ==> forall|addr: u64|
            HEAP_START <= addr < HEAP_START + HEAP_SIZE ==> #[trigger] old(mapper)@.translate(addr) is NotMapped,
        frames_fresh(*old(frame_allocator), old(mapper)@.tables) ==> r != Err::<(), MapToError>(
            MapToError::FrameInUse,
        ),
        heap_fits(old(mapper)@, *old(frame_allocator), HEAP_START, HEAP_SIZE) ==> r is Ok,
        heap_mappable(old(mapper)@, *old(frame_allocator), HEAP_START, HEAP_SIZE) ==> r is Ok || r == Err::<
            (),
            MapToError,
        >(MapToError::FrameAllocationFailed),
        final(frame_allocator).cursor() <= old(frame_allocator).cursor() + 4 * heap_pages(HEAP_START, HEAP_SIZE),
        r is Ok ==> exists|cs: Seq<int>|
            heap_backed_by(
                final(mapper)@,
                old(frame_allocator).frames(),
                cs,
                HEAP_START,
                heap_pages(HEAP_START, HEAP_SIZE),
                old(frame_allocator).cursor() as int,
                final(frame_allocator).cursor() as int,
            ),
{
    map_heap(mapper, frame_allocator, heap, HEAP_START, HEAP_SIZE)
}

/// Maps every page that holds a byte of `[heap_start, heap_start +
/// heap_size)`, lowest first, each to the next frame of `frame_allocator`,
/// present and writable; then hands the range to `heap`. The first failure
/// stops the work and is returned; pages mapped before it stay mapped.
/// The work succeeds whenever `heap_fits` holds.
#[verifier::rlimit(100)]
#[verifier::spinoff_prover]
pub fn map_heap(
    mapper: &mut PageMapper,
    frame_allocator: &mut BootInfoFrameAllocator,
    heap: &mut BumpAllocator,
    heap_start: u64,
    heap_size: u64,
) -> (r: Result<(), MapToError>)
    requires
        old(mapper)@.wf(),
        heap_size > 0,
        heap_start + heap_size <= u64::MAX,
    ensures
        final(mapper)@.wf(),
        crate::paging::extends(old(mapper)@.tables, final(mapper)@.tables),
        final(mapper)@.level_4_frame == old(mapper)@.level_4_frame,
        r is Ok ==> forall|addr: u64|
            heap_start <= addr < heap_start + heap_size ==> #[trigger] final(mapper)@.translate(addr) is Mapped,
        r is Ok ==> final(heap)@ == (BumpState {
            heap_start: heap_start as int,
            heap_end: heap_start + heap_size,
            next: heap_start as int,
            allocations: old(heap)@.allocations,
        }),
        r is Err ==> final(heap)@ == old(heap)@,
        r == Err::<(), MapToError>(MapToError::FrameAllocationFailed) ==> final(frame_allocator).exhausted(),
        old(frame_allocator).exhausted() ==> r == Err::<(), MapToError>(MapToError::FrameAllocationFailed),
        r is Ok ==> forall|addr: u64|
            heap_start <= addr < heap_start + heap_size ==> #[trigger] old(mapper)@.translate(addr) is NotMapped,
        frames_fresh(*old(frame_allocator), old(mapper)@.tables) ==> r != Err::<(), MapToError>(
            MapToError::FrameInUse,
        ),
        heap_fits(old(mapper)@, *old(frame_allocator), heap_start, heap_size) ==> r is Ok,
        heap_mappable(old(mapper)@, *old(frame_allocator), heap_start, heap_size) ==> r is Ok || r == Err::<
            (),
            MapToError,
        >(MapToError::FrameAllocationFailed),
        final(frame_allocator).cursor() <= old(frame_allocator).cursor() + 4 * heap_pages(heap_start, heap_size),
        r is Ok ==> exists|cs: Seq<int>|
            heap_backed_by(
                final(mapper)@,
                old(frame_allocator).frames(),
                cs,
                heap_start,
                heap_pages(heap_start, heap_size),
                old(frame_allocator).cursor() as int,
                final(frame_allocator).cursor() as int,
            ),
{
    let ghost fresh0 = frames_fresh(*old(frame_allocator), old(mapper)@.tables);
    let ghost good = heap_mappable(old(mapper)@, *old(frame_allocator), heap_start, heap_size);
    let ghost plenty = heap_fits(old(mapper)@, *old(frame_allocator), heap_start, heap_size);
    let ghost mut cs: Seq<int> = Seq::empty();
    let first = heap_start - heap_start % 4096;
    let last_byte = heap_start + heap_size - 1;
    let last = last_byte - last_byte % 4096;
    let pages = (last - first) / 4096 + 1;
    proof {
        assert(first as int == 4096 * (heap_start as int / 4096)) by (nonlinear_arith)
            requires first == heap_start - heap_start % 4096;
        assert(last as int == 4096 * (last_byte as int / 4096)) by (nonlinear_arith)
            requires last == last_byte - last_byte % 4096;
        assert(heap_start as int / 4096 <= last_byte as int / 4096) by (nonlinear_arith)
            requires heap_start <= last_byte;
        assert((last - first) as int == 4096 * (last_byte as int / 4096 - heap_start as int / 4096)) by (nonlinear_arith)
            requires first as int == 4096 * (heap_start as int / 4096), last as int == 4096 * (last_byte as int / 4096);
        assert((last - first) as int / 4096 == last_byte as int / 4096 - heap_start as int / 4096) by (nonlinear_arith)
            requires (last - first) as int == 4096 * (last_byte as int / 4096 - heap_start as int / 4096);
    }
    let mut i: u64 = 0;
    while i < pages
        invariant
            i <= pages,
            heap_size > 0,
            heap_start + heap_size <= u64::MAX,
            fresh0 == frames_fresh(*old(frame_allocator), old(mapper)@.tables),
            good == heap_mappable(old(mapper)@, *old(frame_allocator), heap_start, heap_size),
            plenty == heap_fits(old(mapper)@, *old(frame_allocator), heap_start, heap_size),
            plenty ==> good,
            heap_backed_by(
                mapper@,
                old(frame_allocator).frames(),
                cs,
                heap_start,
                i as int,
                old(frame_allocator).cursor() as int,
                frame_allocator.cursor() as int,
            ),
            old(frame_allocator).cursor() <= frame_allocator.cursor() <= old(frame_allocator).cursor() + 4 * i,
            pages == last_byte as int / 4096 - heap_start as int / 4096 + 1,
            first as int == 4096 * (heap_start as int / 4096),
            last_byte == heap_start + heap_size - 1,
            mapper@.wf(),
            crate::paging::extends(old(mapper)@.tables, mapper@.tables),
            mapper@.level_4_frame == old(mapper)@.level_4_frame,
            heap@ == old(heap)@,
            forall|addr: u64|
                heap_start as int / 4096 <= addr as int / 4096 < heap_start as int / 4096 + i ==> #[trigger] mapper@.translate(addr) is Mapped,
            forall|addr: u64|
                heap_start as int / 4096 <= addr as int / 4096 < heap_start as int / 4096 + i ==> #[trigger] old(mapper)@.translate(addr) is NotMapped,
            i > 0 ==> !old(frame_allocator).exhausted(),
            i == 0 ==> *frame_allocator == *old(frame_allocator) && mapper@ == old(mapper)@,
            frame_allocator.map() == old(frame_allocator).map(),
            fresh0 ==> frames_fresh(*frame_allocator, mapper@.tables),
            plenty ==> available(*frame_allocator) >= pages - i + if i == 0 { 3int } else { 0int },
            good ==> heap_start / 0x20_0000 == last_byte / 0x20_0000,
            good && i > 0 ==> mapper@.parents_present(heap_start),
            good && i > 0 ==> forall|addr: u64|
                heap_start as int / 4096 + i <= addr as int / 4096 <= last_byte as int / 4096 ==> #[trigger] mapper@.leaf_entry(addr) is Unused,
        decreases pages - i,
    {
        let page = first + i * 4096;
        let ghost before = mapper@;
        let ghost alloc_before = *frame_allocator;
        proof {
            assert(page as int / 4096 == heap_start as int / 4096 + i) by (nonlinear_arith)
                requires page == first + i * 4096, first as int == 4096 * (heap_start as int / 4096);
            assert(page as int / 4096 <= last_byte as int / 4096) by (nonlinear_arith)
                requires page as int / 4096 == heap_start as int / 4096 + i, i < pages,
                    pages == last_byte as int / 4096 - heap_start as int / 4096 + 1;
            lemma_page_before_step(old(mapper)@, before, heap_start, heap_size, page, i as int, good);
        }
        match map_page(mapper, frame_allocator, page) {
            Ok(()) => {},
            Err(e) => {
                proof {
                    crate::paging::lemma_extends_trans(old(mapper)@.tables, before.tables, mapper@.tables);
                }
                return Err(e);
            },
        }
        proof {
            crate::paging::lemma_extends_trans(old(mapper)@.tables, before.tables, mapper@.tables);
            lemma_pages_after_step(old(mapper)@, before, mapper@, heap_start, heap_size, page, i as int, good);
            lemma_backing_step(
                before,
                mapper@,
                old(frame_allocator).frames(),
                cs,
                heap_start,
                page,
                i as int,
                old(frame_allocator).cursor() as int,
                alloc_before.cursor() as int,
                frame_allocator.cursor() as int,
            );
            cs = cs.push(alloc_before.cursor() as int);
        }
        i = i + 1;
    }
    heap.init(heap_start, heap_size);
    proof {
        assert forall|addr: u64| heap_start <= addr < heap_start + heap_size implies #[trigger] old(mapper)@.translate(addr) is NotMapped by {
            assert(heap_start as int / 4096 <= addr as int / 4096 <= last_byte as int / 4096) by (nonlinear_arith)
                requires heap_start <= addr <= last_byte;
        }
        assert forall|addr: u64| heap_start <= addr < heap_start + heap_size implies #[trigger] mapper@.translate(addr) is Mapped by {
            assert(heap_start as int / 4096 <= addr as int / 4096 <= last_byte as int / 4096) by (nonlinear_arith)
                requires heap_start <= addr <= last_byte;
        }
        assert(heap_backed_by(
            mapper@,
            old(frame_allocator).frames(),
            cs,
            heap_start,
            heap_pages(heap_start, heap_size),
            old(frame_allocator).cursor() as int,
            frame_allocator.cursor() as int,
        ));
    }
    Ok(())
}

} // verus!
