use vstd::prelude::*;

use super::{align_up, spec_align_up};

verus! {

/// Abstract state of a bump allocator.
pub struct BumpState {
    pub heap_start: int,
    pub heap_end: int,
    pub next: int,
    pub allocations: int,
}

impl BumpState {
    /// `heap_start <= next <= heap_end`, and nothing is negative.
    pub open spec fn wf(self) -> bool {
        &&& 0 <= self.heap_start <= self.next <= self.heap_end <= u64::MAX
        &&& 0 <= self.allocations <= u64::MAX
    }

    /// Where an allocation of `size` bytes aligned to `align` would start.
    pub open spec fn alloc_start(self, align: int) -> int {
        spec_align_up(self.next, align)
    }

    /// Whether an allocation of `size` bytes aligned to `align` fits in the heap.
    pub open spec fn can_alloc(self, size: int, align: int) -> bool {
        &&& self.next + align - 1 <= u64::MAX
        &&& self.alloc_start(align) + size <= self.heap_end
        &&& self.allocations < u64::MAX
    }

    /// The state and result of `allocate(size, align)`.
    pub open spec fn after_alloc(self, size: int, align: int) -> (BumpState, Option<int>) {
        if self.can_alloc(size, align) {
            (
                BumpState {
                    next: self.alloc_start(align) + size,
                    allocations: self.allocations + 1,
                    ..self
                },
                Some(self.alloc_start(align)),
            )
        } else {
            (self, None)
        }
    }

    /// The state after `deallocate`: the whole heap is reclaimed when the last
    /// live allocation goes.
    pub open spec fn after_dealloc(self) -> BumpState {
        if self.allocations - 1 == 0 {
            BumpState { allocations: 0, next: self.heap_start, ..self }
        } else {
            BumpState { allocations: self.allocations - 1, ..self }
        }
    }
}

/// One call on the allocator.
pub enum BumpOp {
    Allocate { size: u64, align: u64 },
    Deallocate,
}

impl BumpOp {
    /// Whether the call releases an allocation.
    pub open spec fn is_dealloc(self) -> bool {
        self is Deallocate
    }
}

/// The state after `op`, as the allocator's methods leave it.
pub open spec fn step(s: BumpState, op: BumpOp) -> BumpState {
    match op {
        BumpOp::Allocate { size, align } => s.after_alloc(size as int, align as int).0,
        BumpOp::Deallocate => s.after_dealloc(),
    }
}

/// The state after the calls `ops`, in order.
pub open spec fn run(s: BumpState, ops: Seq<BumpOp>) -> BumpState
    decreases ops.len(),
{
    if ops.len() == 0 {
        s
    } else {
        run(step(s, ops[0]), ops.drop_first())
    }
}

/// How many of `ops` release an allocation.
pub open spec fn dealloc_count(ops: Seq<BumpOp>) -> nat
    decreases ops.len(),
{
    if ops.len() == 0 {
        0
    } else {
        (if ops[0].is_dealloc() { 1nat } else { 0nat }) + dealloc_count(ops.drop_first())
    }
}

/// Every sequence of calls keeps `heap_start <= next <= heap_end`, provided
/// that no call releases more allocations than are live.
pub proof fn lemma_run_keeps_wf(s: BumpState, ops: Seq<BumpOp>)
    requires
        s.wf(),
        forall|i: int| 0 <= i < ops.len() ==> (#[trigger] ops[i] matches BumpOp::Allocate { align, .. } ==> align > 0),
        dealloc_count(ops) <= s.allocations,
    ensures
        run(s, ops).wf(),
    decreases ops.len(),
{
    if ops.len() > 0 {
        let s1 = step(s, ops[0]);
        assert forall|i: int| 0 <= i < ops.drop_first().len() implies (#[trigger] ops.drop_first()[i] matches BumpOp::Allocate { align, .. } ==> align > 0) by {
            assert(ops.drop_first()[i] == ops[i + 1]);
        }
        lemma_step_wf(s, ops[0]);
        lemma_run_keeps_wf(s1, ops.drop_first());
    }
}

proof fn lemma_step_wf(s: BumpState, op: BumpOp)
    requires
        s.wf(),
        op matches BumpOp::Allocate { align, .. } ==> align > 0,
        op is Deallocate ==> s.allocations > 0,
    ensures
        step(s, op).wf(),
        step(s, op).heap_start == s.heap_start,
        step(s, op).heap_end == s.heap_end,
        op is Allocate ==> step(s, op).next >= s.next && step(s, op).allocations >= s.allocations,
        op is Deallocate && s.allocations > 1 ==> step(s, op).next == s.next && step(s, op).allocations
            == s.allocations - 1,
{
    match op {
        BumpOp::Allocate { size, align } => {
            let a = align as int;
            let x = s.next;
            assert(spec_align_up(x, a) >= x) by (nonlinear_arith)
                requires a > 0, x >= 0;
        },
        BumpOp::Deallocate => {},
    }
}

/// While a block is live its bytes are never handed out again: after the
/// block `[a, a + size)` comes out of `allocate`, any sequence of calls that
/// does not release it (fewer releases than live allocations) is followed by
/// allocations that start at or above `a + size`.
pub proof fn lemma_live_block_not_reused(
    s: BumpState,
    size: u64,
    align: u64,
    ops: Seq<BumpOp>,
    size2: u64,
    align2: u64,
)
    requires
        s.wf(),
        align > 0,
        align2 > 0,
        s.after_alloc(size as int, align as int).1 is Some,
        forall|i: int| 0 <= i < ops.len() ==> (#[trigger] ops[i] matches BumpOp::Allocate { align, .. } ==> align > 0),
        dealloc_count(ops) < s.after_alloc(size as int, align as int).0.allocations,
        run(s.after_alloc(size as int, align as int).0, ops).after_alloc(size2 as int, align2 as int).1 is Some,
    ensures
        ({
            let a = s.after_alloc(size as int, align as int).1.unwrap();
            let b = run(s.after_alloc(size as int, align as int).0, ops).after_alloc(size2 as int, align2 as int).1.unwrap();
            a + size <= b
        }),
{
    let s1 = s.after_alloc(size as int, align as int).0;
    lemma_step_wf(s, BumpOp::Allocate { size, align });
    assert(step(s, BumpOp::Allocate { size, align }) == s1);
    lemma_run_no_reset(s1, ops);
    let s2 = run(s1, ops);
    assert(spec_align_up(s2.next, align2 as int) >= s2.next) by (nonlinear_arith)
        requires align2 > 0, s2.next >= 0;
}

proof fn lemma_run_no_reset(s: BumpState, ops: Seq<BumpOp>)
    requires
        s.wf(),
        forall|i: int| 0 <= i < ops.len() ==> (#[trigger] ops[i] matches BumpOp::Allocate { align, .. } ==> align > 0),
        dealloc_count(ops) < s.allocations,
    ensures
        run(s, ops).wf(),
        run(s, ops).next >= s.next,
        run(s, ops).allocations >= s.allocations - dealloc_count(ops),
    decreases ops.len(),
{
    if ops.len() > 0 {
        let s1 = step(s, ops[0]);
        assert forall|i: int| 0 <= i < ops.drop_first().len() implies (#[trigger] ops.drop_first()[i] matches BumpOp::Allocate { align, .. } ==> align > 0) by {
            assert(ops.drop_first()[i] == ops[i + 1]);
        }
        lemma_step_wf(s, ops[0]);
        lemma_run_no_reset(s1, ops.drop_first());
    }
}

/// When the last live allocation is released the whole heap is reclaimed:
/// the next allocation whose alignment `heap_start` already meets starts at
/// `heap_start`.
pub proof fn lemma_reclaim_on_last_release(s: BumpState, size: u64, align: u64)
    requires
        s.wf(),
        s.allocations == 1,
        is_power_of_two(align),
        s.heap_start % (align as int) == 0,
        s.heap_start + size <= s.heap_end,
    ensures
        s.after_dealloc().next == s.heap_start,
        s.after_dealloc().allocations == 0,
        s.after_dealloc().after_alloc(size as int, align as int).1 == Some(s.heap_start),
{
    let a = align as int;
    let h = s.heap_start;
    let q = h / a;
    let m = 0x1_0000_0000_0000_0000int / a;
    vstd::arithmetic::div_mod::lemma_fundamental_div_mod(h, a);
    vstd::arithmetic::div_mod::lemma_fundamental_div_mod(0x1_0000_0000_0000_0000int, a);
    assert(h == a * q);
    assert(0x1_0000_0000_0000_0000int == a * m);
    assert(q < m) by (nonlinear_arith)
        requires h == a * q, 0x1_0000_0000_0000_0000int == a * m, h < 0x1_0000_0000_0000_0000int, a > 0;
    assert(h + a <= 0x1_0000_0000_0000_0000int) by (nonlinear_arith)
        requires h == a * q, 0x1_0000_0000_0000_0000int == a * m, q + 1 <= m, a > 0;
}

/// `a` divides 2^64, which for a `u64` means that it is a power of two.
pub open spec fn is_power_of_two(a: u64) -> bool {
    a > 0 && 0x1_0000_0000_0000_0000int % (a as int) == 0
}

/// A request that does not fit in what is left of the heap fails and leaves
/// the allocator exactly as it was.
pub proof fn lemma_exhaustion_leaves_state(s: BumpState, size: u64, align: u64)
    requires
        s.wf(),
        align > 0,
        s.next + align - 1 <= u64::MAX,
        spec_align_up(s.next, align as int) + size > s.heap_end,
    ensures
        s.after_alloc(size as int, align as int) == (s, Option::<int>::None),
{
}

/// An allocator that hands out memory by moving a cursor forward through the
/// heap. `next` is the boundary between used and unused memory; the heap is
/// reclaimed all at once when the number of live allocations drops to zero.
pub struct BumpAllocator {
    heap_start: u64,
    heap_end: u64,
    next: u64,
    allocations: u64,
}

impl View for BumpAllocator {
    type V = BumpState;

    closed spec fn view(&self) -> BumpState {
        BumpState {
            heap_start: self.heap_start as int,
            heap_end: self.heap_end as int,
            next: self.next as int,
            allocations: self.allocations as int,
        }
    }
}

impl BumpAllocator {
    /// An allocator over an empty heap.
    pub fn new() -> (r: Self)
        ensures
            r@ == (BumpState { heap_start: 0, heap_end: 0, next: 0, allocations: 0 }),
            r@.wf(),
    {
        BumpAllocator { heap_start: 0, heap_end: 0, next: 0, allocations: 0 }
    }

    /// Hands the allocator the heap `[heap_start, heap_start + heap_size)`.
    /// The caller guarantees that this range is mapped and unused.
    pub fn init(&mut self, heap_start: u64, heap_size: u64)
        requires
            heap_start + heap_size <= u64::MAX,
        ensures
            final(self)@ == (BumpState {
                heap_start: heap_start as int,
                heap_end: heap_start + heap_size,
                next: heap_start as int,
                allocations: old(self)@.allocations,
            }),
            final(self)@.wf(),
    {
        self.heap_start = heap_start;
        self.heap_end = heap_start + heap_size;
        self.next = heap_start;
    }

    /// Allocates `size` bytes aligned to `align`, or returns `None` when the
    /// block does not fit in what is left of the heap. On `None` the state
    /// is left unchanged.
    pub fn allocate(&mut self, size: u64, align: u64) -> (r: Option<u64>)
        requires
            old(self)@.wf(),
            align > 0,
        ensures
            final(self)@.wf(),
            final(self)@ == old(self)@.after_alloc(size as int, align as int).0,
            match r {
                Some(a) => old(self)@.after_alloc(size as int, align as int).1 == Some(a as int),
                None => old(self)@.after_alloc(size as int, align as int).1 is None,
            },
    {
        if self.next > u64::MAX - (align - 1) {
            return None;
        }
        let alloc_start = align_up(self.next, align);
        let alloc_end = match alloc_start.checked_add(size) {
            Some(end) => end,
            None => return None,
        };
        if alloc_end > self.heap_end || self.allocations == u64::MAX {
            None
        } else {
            self.next = alloc_end;
            self.allocations = self.allocations + 1;
            Some(alloc_start)
        }
    }

    /// Number of live allocations.
    pub fn allocations(&self) -> (r: u64)
        ensures
            r == self@.allocations,
    {
        self.allocations
    }

    /// Releases one live allocation; when none is left the cursor goes back
    /// to the start of the heap.
    pub fn deallocate(&mut self, ptr: u64, size: u64, align: u64)
        requires
            old(self)@.wf(),
            old(self)@.allocations > 0,
        ensures
            final(self)@.wf(),
            final(self)@ == old(self)@.after_dealloc(),
    {
        self.allocations = self.allocations - 1;
        if self.allocations == 0 {
            self.next = self.heap_start;
        }
    }
}

} // verus!
