//! Memory and task management core of a small x86_64 kernel: a frame
//! allocator over the firmware's memory map, a four-level page table model
//! with translation and mapping, the heap set-up and its bump allocator, a
//! FIFO cooperative executor, and the event bridge that carries keyboard
//! scancodes from the interrupt handler to a waiting task.

pub mod allocator;
pub mod interrupts;
pub mod memory;
pub mod paging;
pub mod task;
