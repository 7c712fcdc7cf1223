use rust_os::interrupts::{InterruptsIndex, PIC_1_OFFSET, PIC_2_OFFSET};
use rust_os::task::keyboard::{EventBridge, PushOutcome, ScancodeStream, SCANCODE_QUEUE_CAPACITY};
use rust_os::task::simple_executor::SimpleExecutor;
use rust_os::task::{Poll, Task};

struct Job {
    name: char,
    pending_left: u32,
}

fn poll_job(job: &mut Job, done: &mut Vec<char>) -> Poll<()> {
    if job.pending_left == 0 {
        done.push(job.name);
        Poll::Ready(())
    } else {
        job.pending_left -= 1;
        Poll::Pending
    }
}

fn run(ex: &mut SimpleExecutor<Job>, done: &mut Vec<char>) -> usize {
    let mut polls = 0;
    while let Some(mut task) = ex.next_task() {
        let outcome = poll_job(&mut task.future, done);
        polls += 1;
        ex.complete_poll(task, outcome);
    }
    polls
}

#[test]
fn executor_completes_in_fifo_order() {
    let mut ex = SimpleExecutor::new();
    for name in ['A', 'B', 'C'] {
        ex.spawn(Task::new(Job { name, pending_left: 1 }));
    }
    let mut done = Vec::new();
    assert_eq!(run(&mut ex, &mut done), 6);
    assert_eq!(done, vec!['A', 'B', 'C']);
    assert!(ex.next_task().is_none());
}

#[test]
fn executor_with_no_tasks_returns() {
    let mut ex: SimpleExecutor<Job> = SimpleExecutor::new();
    let mut done = Vec::new();
    assert_eq!(run(&mut ex, &mut done), 0);
}

#[test]
fn longer_task_finishes_later() {
    let mut ex = SimpleExecutor::new();
    ex.spawn(Task::new(Job { name: 'A', pending_left: 3 }));
    ex.spawn(Task::new(Job { name: 'B', pending_left: 0 }));
    let mut done = Vec::new();
    assert_eq!(run(&mut ex, &mut done), 5);
    assert_eq!(done, vec!['B', 'A']);
}

fn drain(stream: &mut ScancodeStream, bridge: &mut EventBridge) -> Vec<u8> {
    let mut out = Vec::new();
    while let Poll::Ready(b) = stream.poll_next(bridge, 7) {
        out.push(b);
    }
    out
}

#[test]
fn bridge_delivers_in_order() {
    let mut bridge = EventBridge::new();
    let mut stream = ScancodeStream::new(&mut bridge);
    for b in [1u8, 2, 3] {
        assert_eq!(bridge.add_scancode(b), PushOutcome::Pushed { woken: None });
    }
    assert_eq!(drain(&mut stream, &mut bridge), vec![1, 2, 3]);
}

#[test]
fn bridge_overflow_drops_newest() {
    let mut bridge = EventBridge::new();
    let mut stream = ScancodeStream::new(&mut bridge);
    for i in 0..SCANCODE_QUEUE_CAPACITY {
        assert_eq!(bridge.add_scancode(i as u8), PushOutcome::Pushed { woken: None });
    }
    assert_eq!(bridge.add_scancode(0xff), PushOutcome::Full);
    let expected: Vec<u8> = (0..SCANCODE_QUEUE_CAPACITY).map(|i| i as u8).collect();
    assert_eq!(drain(&mut stream, &mut bridge), expected);
}

#[test]
fn push_before_queue_exists_is_dropped() {
    let mut bridge = EventBridge::new();
    assert_eq!(bridge.add_scancode(5), PushOutcome::Uninitialized);
    let mut stream = ScancodeStream::new(&mut bridge);
    assert_eq!(stream.poll_next(&mut bridge, 1), Poll::Pending);
}

#[test]
fn push_after_registration_wakes_consumer() {
    let mut bridge = EventBridge::new();
    let mut stream = ScancodeStream::new(&mut bridge);
    assert_eq!(stream.poll_next(&mut bridge, 42), Poll::Pending);
    assert_eq!(bridge.add_scancode(9), PushOutcome::Pushed { woken: Some(42) });
    assert_eq!(bridge.add_scancode(10), PushOutcome::Pushed { woken: None });
    assert_eq!(stream.poll_next(&mut bridge, 42), Poll::Ready(9));
    assert_eq!(stream.poll_next(&mut bridge, 42), Poll::Ready(10));
}

#[test]
fn push_between_check_and_registration_is_seen() {
    let mut bridge = EventBridge::new();
    let _stream = ScancodeStream::new(&mut bridge);
    assert_eq!(bridge.pop_ready(), None);
    assert_eq!(bridge.add_scancode(0x1e), PushOutcome::Pushed { woken: None });
    assert_eq!(bridge.register_then_pop(3), Poll::Ready(0x1e));
    // the registration was withdrawn, so the next push wakes nobody
    assert_eq!(bridge.add_scancode(0x30), PushOutcome::Pushed { woken: None });
}

#[test]
fn interrupt_vectors() {
    assert_eq!(PIC_1_OFFSET, 32);
    assert_eq!(PIC_2_OFFSET, 40);
    assert_eq!(InterruptsIndex::Timer.as_u8(), 32);
    assert_eq!(InterruptsIndex::Keyboard.as_u8(), 33);
    assert_eq!(InterruptsIndex::Keyboard.as_usize(), 33);
}
