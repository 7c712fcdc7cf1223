use rust_os::allocator::bump::BumpAllocator;
use rust_os::allocator::map_heap;
use rust_os::memory::{BootInfoFrameAllocator, MemoryRegion, PhysFrame};
use rust_os::paging::PageMapper;
use rust_os::task::keyboard::{EventBridge, ScancodeStream};
use rust_os::task::simple_executor::SimpleExecutor;
use rust_os::task::{Poll, Task};

/// A task that reads three events from the bridge and records them.
struct ReadThree {
    stream: ScancodeStream,
    seen: Vec<u8>,
}

#[test]
fn heap_then_keyboard_task_end_to_end() {
    let heap_start = 0x4444_4444_0000u64;
    let mut mapper = PageMapper::new(PhysFrame::containing_address(0x1000));
    let mut frames = BootInfoFrameAllocator::init(vec![MemoryRegion {
        start_addr: 0x10_0000,
        end_addr: 0x10_0000 + 8 * 4096,
        usable: true,
    }]);
    let mut heap = BumpAllocator::new();
    assert_eq!(map_heap(&mut mapper, &mut frames, &mut heap, heap_start, 4096), Ok(()));
    assert!(mapper.translate_addr(heap_start).is_some());
    assert_eq!(heap.allocate(100, 8), Some(heap_start));

    let mut bridge = EventBridge::new();
    let stream = ScancodeStream::new(&mut bridge);
    let mut ex = SimpleExecutor::new();
    ex.spawn(Task::new(ReadThree { stream, seen: Vec::new() }));

    let mut to_push = vec![0x1eu8, 0x30, 0x2e].into_iter();
    let mut finished: Option<Vec<u8>> = None;
    while let Some(mut task) = ex.next_task() {
        let t = &mut task.future;
        let mut outcome = Poll::Pending;
        loop {
            match t.stream.poll_next(&mut bridge, 1) {
                Poll::Ready(b) => {
                    t.seen.push(b);
                    if t.seen.len() == 3 {
                        outcome = Poll::Ready(());
                        break;
                    }
                }
                Poll::Pending => break,
            }
        }
        if outcome == Poll::Ready(()) {
            finished = Some(t.seen.clone());
        }
        ex.complete_poll(task, outcome);
        if let Some(b) = to_push.next() {
            bridge.add_scancode(b);
        }
    }
    assert_eq!(finished, Some(vec![0x1e, 0x30, 0x2e]));
}
