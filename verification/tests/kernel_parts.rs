use rust_os::interrupts::{InterruptIndex, PIC_1_OFFSET, PIC_2_OFFSET};
use rust_os::task::keyboard::{ScancodeStream, SCANCODE_QUEUE_CAPACITY};
use rust_os::task::simple_executor::SimpleExecutor;
use rust_os::task::{Task, TaskId, TaskPoll};
use rust_os::QemuExitCode;

#[test]
fn interrupt_vectors() {
    assert_eq!(PIC_1_OFFSET, 32);
    assert_eq!(PIC_2_OFFSET, 40);
    assert_eq!(InterruptIndex::Timer.as_u8(), 32);
    assert_eq!(InterruptIndex::Keyboard.as_u8(), 33);
}

#[test]
fn qemu_exit_codes() {
    assert_eq!(QemuExitCode::Success.as_u32(), 0x10);
    assert_eq!(QemuExitCode::Failed.as_u32(), 0x11);
}

#[test]
fn task_identity() {
    let id = TaskId::new(7);
    let task = Task::new(id);
    assert_eq!(task.id, TaskId::new(7));
    assert_ne!(task.id, TaskId::new(8));
}

#[test]
fn executor_runs_tasks_in_spawn_order() {
    let mut executor = SimpleExecutor::new();
    executor.spawn(Task::new(TaskId::new(1)));
    executor.spawn(Task::new(TaskId::new(2)));
    executor.spawn(Task::new(TaskId::new(3)));
    assert_eq!(executor.next_task(), Some(Task::new(TaskId::new(1))));
    assert_eq!(executor.next_task(), Some(Task::new(TaskId::new(2))));
    assert_eq!(executor.next_task(), Some(Task::new(TaskId::new(3))));
    assert_eq!(executor.next_task(), None);
}

#[test]
fn pending_task_goes_to_back_of_queue() {
    let mut executor = SimpleExecutor::new();
    executor.spawn(Task::new(TaskId::new(1)));
    executor.spawn(Task::new(TaskId::new(2)));
    let first = executor.next_task().unwrap();
    executor.on_poll_outcome(first, TaskPoll::Pending);
    // Task 2 now runs before the still-pending task 1.
    assert_eq!(executor.next_task(), Some(Task::new(TaskId::new(2))));
    assert_eq!(executor.next_task(), Some(Task::new(TaskId::new(1))));
    assert_eq!(executor.next_task(), None);
}

#[test]
fn finished_task_is_dropped() {
    let mut executor = SimpleExecutor::new();
    executor.spawn(Task::new(TaskId::new(1)));
    let task = executor.next_task().unwrap();
    executor.on_poll_outcome(task, TaskPoll::Ready);
    assert_eq!(executor.next_task(), None);
}

#[test]
fn executor_loop_runs_to_completion() {
    // Simulates SimpleExecutor::run: poll every task, requeuing pending
    // ones, until the queue is empty. Each task here reports pending
    // once, then ready.
    let mut executor = SimpleExecutor::new();
    for id in 0..5u64 {
        executor.spawn(Task::new(TaskId::new(id)));
    }
    let mut pending_seen = [false; 5];
    let mut polls = 0;
    while let Some(task) = executor.next_task() {
        polls += 1;
        let index = task.id.0 as usize;
        if pending_seen[index] {
            executor.on_poll_outcome(task, TaskPoll::Ready);
        } else {
            pending_seen[index] = true;
            executor.on_poll_outcome(task, TaskPoll::Pending);
        }
    }
    assert_eq!(polls, 10);
}

#[test]
fn scancodes_come_out_in_arrival_order() {
    let mut stream = ScancodeStream::new();
    assert_eq!(stream.poll_next(), None);
    assert!(stream.add_scancode(0x1e));
    assert!(stream.add_scancode(0x30));
    assert!(stream.add_scancode(0x2e));
    assert_eq!(stream.poll_next(), Some(0x1e));
    assert_eq!(stream.poll_next(), Some(0x30));
    assert_eq!(stream.poll_next(), Some(0x2e));
    assert_eq!(stream.poll_next(), None);
}

#[test]
fn full_scancode_queue_drops_input() {
    let mut stream = ScancodeStream::new();
    for i in 0..SCANCODE_QUEUE_CAPACITY {
        assert!(stream.add_scancode(i as u8), "scancode {} should be kept", i);
    }
    // The queue is full: further input is dropped, not queued.
    assert!(!stream.add_scancode(0xff));
    // Draining one slot makes room again.
    assert_eq!(stream.poll_next(), Some(0));
    assert!(stream.add_scancode(0xff));
    // Order is still first-in, first-out.
    assert_eq!(stream.poll_next(), Some(1));
}
