use vstd::prelude::*;

use crossbeam_queue::ArrayQueue;

use super::Poll;

verus! {

#[verifier::external_type_specification]
#[verifier::external_body]
#[verifier::reject_recursive_types(T)]
pub struct ExArrayQueue<T>(ArrayQueue<T>);

/// The bytes held by a bounded queue, oldest first.
pub uninterp spec fn queue_items(q: ArrayQueue<u8>) -> Seq<u8>;

/// The capacity a bounded queue was created with.
pub uninterp spec fn queue_capacity(q: ArrayQueue<u8>) -> nat;

/// Relies on crossbeam_queue::ArrayQueue::new: an empty queue of capacity
/// `cap`; it panics on a zero capacity and on one whose next power of two
/// overflows.
#[verifier::external_body]
fn new_queue(cap: usize) -> (r: ArrayQueue<u8>)
    requires
        0 < cap < usize::MAX / 2,
    ensures
        queue_items(r) == Seq::<u8>::empty(),
        queue_capacity(r) == cap,
{
    ArrayQueue::new(cap)
}

/// Relies on crossbeam_queue::ArrayQueue::push: the value goes to the back
/// unless the queue is full, in which case it is handed back.
#[verifier::external_body]
fn push_queue(q: &mut ArrayQueue<u8>, value: u8) -> (r: Result<(), u8>)
    ensures
        queue_capacity(*final(q)) == queue_capacity(*old(q)),
        queue_items(*old(q)).len() < queue_capacity(*old(q)) ==> r is Ok && queue_items(*final(q))
            == queue_items(*old(q)).push(value),
        queue_items(*old(q)).len() >= queue_capacity(*old(q)) ==> (r matches Err(v) && v == value) && queue_items(
            *final(q),
        ) == queue_items(*old(q)),
{
    q.push(value)
}

/// Relies on crossbeam_queue::ArrayQueue::pop: the oldest value, or `None`
/// when the queue is empty.
#[verifier::external_body]
fn pop_queue(q: &mut ArrayQueue<u8>) -> (r: Option<u8>)
    ensures
        queue_capacity(*final(q)) == queue_capacity(*old(q)),
        queue_items(*old(q)).len() == 0 ==> r is None && queue_items(*final(q)) == queue_items(*old(q)),
        queue_items(*old(q)).len() > 0 ==> r == Some(queue_items(*old(q))[0]) && queue_items(*final(q))
            == queue_items(*old(q)).drop_first(),
{
    q.pop()
}

/// Capacity of the keyboard event queue.
pub const SCANCODE_QUEUE_CAPACITY: usize = 100;

/// A single-slot cell holding the wake token of the consumer waiting for
/// events, if any. A new registration overwrites the previous one. It plays
/// the part of futures_util's `AtomicWaker`: a token stands for the waker,
/// which the caller wakes when `take` hands the token back, since a `Waker`
/// calls through a table of function pointers.
pub struct WakeupSignal {
    slot: Option<u64>,
}

impl View for WakeupSignal {
    type V = Option<u64>;

    closed spec fn view(&self) -> Option<u64> {
        self.slot
    }
}

impl WakeupSignal {
    /// A signal with no registration.
    pub fn new() -> (r: Self)
        ensures
            r@ is None,
    {
        WakeupSignal { slot: None }
    }

    /// Registers `token` as the one to wake, replacing any earlier one.
    pub fn register(&mut self, token: u64)
        ensures
            final(self)@ == Some(token),
    {
        self.slot = Some(token);
    }

    /// Removes and returns the registered token.
    pub fn take(&mut self) -> (r: Option<u64>)
        ensures
            r == old(self)@,
            final(self)@ is None,
    {
        let r = self.slot;
        self.slot = None;
        r
    }
}

/// Abstract state of the event bridge: the queued events (`None` until
/// the consumer has created the queue), the queue's capacity, and the
/// registered wake token.
pub struct BridgeState {
    pub queue: Option<Seq<u8>>,
    pub capacity: nat,
    pub waiting: Option<u64>,
}

/// What became of an event handed to the producer side.
#[derive(Clone, Copy, PartialEq, Eq, Structural, Debug)]
pub enum PushOutcome {
    /// The consumer has not created the queue yet; the event is dropped.
    Uninitialized,
    /// The queue is full; the event is dropped.
    Full,
    /// The event was queued; `woken` is the token that was signalled.
    Pushed { woken: Option<u64> },
}

impl BridgeState {
    /// The queue never holds more than its capacity.
    pub open spec fn wf(self) -> bool {
        self.queue matches Some(items) ==> items.len() <= self.capacity
    }

    /// The state and outcome of the producer handing over `byte`.
    pub open spec fn push(self, byte: u8) -> (BridgeState, PushOutcome) {
        match self.queue {
            None => (self, PushOutcome::Uninitialized),
            Some(items) => if items.len() < self.capacity {
                (
                    BridgeState { queue: Some(items.push(byte)), waiting: None, ..self },
                    PushOutcome::Pushed { woken: self.waiting },
                )
            } else {
                (self, PushOutcome::Full)
            },
        }
    }

    /// The state and result of the consumer's first, non-blocking look at
    /// the queue.
    pub open spec fn pop_ready(self) -> (BridgeState, Option<u8>) {
        match self.queue {
            Some(items) => if items.len() > 0 {
                (BridgeState { queue: Some(items.drop_first()), ..self }, Some(items[0]))
            } else {
                (self, None)
            },
            None => (self, None),
        }
    }

    /// The state and result of the consumer registering `token` and then
    /// looking at the queue once more.
    pub open spec fn register_then_pop(self, token: u64) -> (BridgeState, Poll<u8>) {
        match self.queue {
            Some(items) => if items.len() > 0 {
                (
                    BridgeState { queue: Some(items.drop_first()), waiting: None, ..self },
                    Poll::Ready(items[0]),
                )
            } else {
                (BridgeState { waiting: Some(token), ..self }, Poll::Pending)
            },
            None => (BridgeState { waiting: Some(token), ..self }, Poll::Pending),
        }
    }

    /// The state and result of one poll of the consumer.
    pub open spec fn poll_next(self, token: u64) -> (BridgeState, Poll<u8>) {
        let (s1, fast) = self.pop_ready();
        match fast {
            Some(b) => (s1, Poll::Ready(b)),
            None => s1.register_then_pop(token),
        }
    }

    /// The state after the producer hands over each of `bytes`, in order.
    pub open spec fn push_all(self, bytes: Seq<u8>) -> BridgeState
        decreases bytes.len(),
    {
        if bytes.len() == 0 {
            self
        } else {
            self.push(bytes[0]).0.push_all(bytes.drop_first())
        }
    }

    /// The bytes the consumer receives by polling until the queue is empty.
    pub open spec fn drain(self) -> Seq<u8>
        decreases (match self.queue {
            Some(items) => items.len(),
            None => 0,
        }),
    {
        let (s1, r) = self.pop_ready();
        match r {
            Some(b) => seq![b] + s1.drain(),
            None => Seq::empty(),
        }
    }
}

/// The hand-off between the keyboard interrupt handler (producer) and the
/// task reading keyboard events (consumer): a bounded queue created by the
/// consumer, and a wakeup signal set by the producer after each push. The
/// bridge is an explicit object rather than a global: the queue slot is an
/// `Option` that the consumer fills once, where a global would use a
/// once-initialised cell.
pub struct EventBridge {
    queue: Option<ArrayQueue<u8>>,
    waker: WakeupSignal,
}

impl View for EventBridge {
    type V = BridgeState;

    closed spec fn view(&self) -> BridgeState {
        BridgeState {
            queue: match self.queue {
                Some(q) => Some(queue_items(q)),
                None => None,
            },
            capacity: match self.queue {
                Some(q) => queue_capacity(q),
                None => 0,
            },
            waiting: self.waker@,
        }
    }
}

impl EventBridge {
    /// A bridge whose queue the consumer has not created yet.
    pub fn new() -> (r: Self)
        ensures
            r@ == (BridgeState { queue: None, capacity: 0, waiting: None }),
            r@.wf(),
    {
        EventBridge { queue: None, waker: WakeupSignal::new() }
    }

    /// Whether the consumer has created the queue.
    pub fn is_initialized(&self) -> (r: bool)
        ensures
            r == self@.queue is Some,
    {
        self.queue.is_some()
    }

    /// Producer side, called from the keyboard interrupt handler. It never
    /// blocks and never allocates: an event that finds no queue, or a full
    /// one, is dropped and the outcome says so; after a successful push the
    /// registered consumer, if any, is signalled.
    pub fn add_scancode(&mut self, scancode: u8) -> (r: PushOutcome)
        requires
            old(self)@.wf(),
        ensures
            final(self)@.wf(),
            (final(self)@, r) == old(self)@.push(scancode),
    {
        match &mut self.queue {
            None => PushOutcome::Uninitialized,
            Some(q) => match push_queue(q, scancode) {
                Err(_) => PushOutcome::Full,
                Ok(()) => {
                    let woken = self.waker.take();
                    PushOutcome::Pushed { woken }
                },
            },
        }
    }

    /// The consumer's fast path: the oldest queued event, if there is one.
    pub fn pop_ready(&mut self) -> (r: Option<u8>)
        requires
            old(self)@.wf(),
        ensures
            final(self)@.wf(),
            (final(self)@, r) == old(self)@.pop_ready(),
    {
        match &mut self.queue {
            None => None,
            Some(q) => pop_queue(q),
        }
    }

    /// The consumer's slow path: register `token` for wakeup, then look at
    /// the queue again so that an event pushed just before the registration
    /// is not missed. If one is found the registration is withdrawn.
    pub fn register_then_pop(&mut self, token: u64) -> (r: Poll<u8>)
        requires
            old(self)@.wf(),
        ensures
            final(self)@.wf(),
            (final(self)@, r) == old(self)@.register_then_pop(token),
    {
        self.waker.register(token);
        match &mut self.queue {
            None => Poll::Pending,
            Some(q) => match pop_queue(q) {
                Some(scancode) => {
                    let _ = self.waker.take();
                    Poll::Ready(scancode)
                },
                None => Poll::Pending,
            },
        }
    }
}

/// The consumer's handle on the event bridge; it exists once the consumer
/// has created the queue.
pub struct ScancodeStream {
    _private: (),
}

impl ScancodeStream {
    /// Creates the bridge's queue, with room for
    /// `SCANCODE_QUEUE_CAPACITY` events. The queue is created only once.
    pub fn new(bridge: &mut EventBridge) -> (r: Self)
        requires
            old(bridge)@.wf(),
            old(bridge)@.queue is None,
        ensures
            final(bridge)@ == (BridgeState {
                queue: Some(Seq::empty()),
                capacity: SCANCODE_QUEUE_CAPACITY as nat,
                waiting: old(bridge)@.waiting,
            }),
            final(bridge)@.wf(),
    {
        bridge.queue = Some(new_queue(SCANCODE_QUEUE_CAPACITY));
        ScancodeStream { _private: () }
    }

    /// Polls for the next event: returns it at once when one is queued;
    /// otherwise registers `token` for wakeup and looks once more before
    /// reporting `Pending`.
    pub fn poll_next(&mut self, bridge: &mut EventBridge, token: u64) -> (r: Poll<u8>)
        requires
            old(bridge)@.wf(),
            old(bridge)@.queue is Some,
        ensures
            final(bridge)@.wf(),
            (final(bridge)@, r) == old(bridge)@.poll_next(token),
    {
        match bridge.pop_ready() {
            Some(scancode) => Poll::Ready(scancode),
            None => bridge.register_then_pop(token),
        }
    }
}

/// Pushing `bytes` into a queue holding `items` keeps the oldest bytes that
/// fit: everything beyond the capacity is dropped.
proof fn lemma_push_all_keeps_oldest(s: BridgeState, items: Seq<u8>, bytes: Seq<u8>)
    requires
        s.wf(),
        s.queue == Some(items),
    ensures
        s.push_all(bytes).queue == Some(
            (items + bytes).take(
                if items.len() + bytes.len() <= s.capacity {
                    (items.len() + bytes.len()) as int
                } else {
                    s.capacity as int
                },
            ),
        ),
        s.push_all(bytes).capacity == s.capacity,
        s.push_all(bytes).wf(),
    decreases bytes.len(),
{
    if bytes.len() == 0 {
        assert((items + bytes).take(items.len() as int) == items);
    } else {
        let s1 = s.push(bytes[0]).0;
        let items1 = s1.queue.unwrap();
        lemma_push_all_keeps_oldest(s1, items1, bytes.drop_first());
        if items.len() < s.capacity {
            assert(items1 == items.push(bytes[0]));
            assert(items1 + bytes.drop_first() == items + bytes);
        } else {
            assert(items1 == items);
            assert((items1 + bytes.drop_first()).take(s.capacity as int) == (items + bytes).take(
                s.capacity as int,
            ));
        }
    }
}

/// Polling until the queue is empty yields the queued bytes, oldest first.
proof fn lemma_drain_in_order(s: BridgeState, items: Seq<u8>)
    requires
        s.queue == Some(items),
    ensures
        s.drain() == items,
    decreases items.len(),
{
    if items.len() > 0 {
        let s1 = s.pop_ready().0;
        lemma_drain_in_order(s1, items.drop_first());
        assert(seq![items[0]] + items.drop_first() == items);
    }
}

/// Events pushed into an empty queue that has room for all of them reach
/// the consumer exactly, in the order they were pushed.
pub proof fn lemma_no_loss_under_capacity(s: BridgeState, bytes: Seq<u8>)
    requires
        s.wf(),
        s.queue == Some(Seq::<u8>::empty()),
        bytes.len() <= s.capacity,
    ensures
        s.push_all(bytes).drain() == bytes,
{
    lemma_push_all_keeps_oldest(s, Seq::empty(), bytes);
    assert(Seq::<u8>::empty() + bytes == bytes);
    assert(bytes.take(bytes.len() as int) == bytes);
    lemma_drain_in_order(s.push_all(bytes), bytes);
}

/// When more events are pushed into an empty queue than it can hold, the
/// newest ones are dropped and the consumer receives the oldest
/// `capacity` events in order.
pub proof fn lemma_overflow_drops_newest(s: BridgeState, bytes: Seq<u8>)
    requires
        s.wf(),
        s.queue == Some(Seq::<u8>::empty()),
        bytes.len() > s.capacity,
    ensures
        s.push_all(bytes).drain() == bytes.take(s.capacity as int),
{
    lemma_push_all_keeps_oldest(s, Seq::empty(), bytes);
    assert(Seq::<u8>::empty() + bytes == bytes);
    lemma_drain_in_order(s.push_all(bytes), bytes.take(s.capacity as int));
}

/// No wakeup is lost. If the producer pushes a byte after the consumer
/// found the queue empty but before it registered, the consumer's second
/// look finds the byte and withdraws its registration. If the producer
/// pushes after the registration, the push signals the registered token.
pub proof fn lemma_no_lost_wakeup(s: BridgeState, byte: u8, token: u64)
    requires
        s.wf(),
        s.queue == Some(Seq::<u8>::empty()),
        s.capacity > 0,
    ensures
        s.pop_ready() == (s, Option::<u8>::None),
        s.push(byte).0.register_then_pop(token) == (
            BridgeState { queue: Some(Seq::<u8>::empty()), waiting: None, ..s },
            Poll::Ready(byte),
        ),
        s.register_then_pop(token).1 == Poll::<u8>::Pending,
        s.register_then_pop(token).0.push(byte).1 == (PushOutcome::Pushed { woken: Some(token) }),
{
    let items = s.push(byte).0.queue.unwrap();
    assert(items == seq![byte]);
    assert(items.drop_first() == Seq::<u8>::empty());
}

} // verus!
