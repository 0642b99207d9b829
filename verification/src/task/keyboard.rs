//! The decision logic of the keyboard task's scancode queue: a bounded
//! first-in-first-out buffer between the keyboard interrupt handler (which
//! must never allocate) and the task that decodes keypresses. Reading the
//! scancode port, waking the executor and decoding key events happen
//! outside this crate; the library proves the queue discipline.
use std::collections::VecDeque;

use vstd::prelude::*;

verus! {

/// Most scancodes the queue holds before further input is dropped.
pub const SCANCODE_QUEUE_CAPACITY: usize = 100;

/// Bounded FIFO buffer of raw scancodes awaiting the keyboard task.
pub struct ScancodeStream {
    queue: VecDeque<u8>,
}

impl ScancodeStream {
    /// The buffered scancodes, oldest first; never more than the capacity.
    pub closed spec fn scancodes(&self) -> Seq<u8> {
        self.queue@
    }

    pub fn new() -> (stream: ScancodeStream)
        ensures
            stream.scancodes() == Seq::<u8>::empty(),
    {
        ScancodeStream { queue: VecDeque::with_capacity(SCANCODE_QUEUE_CAPACITY) }
    }

    /// Called from the interrupt handler's side with a fresh scancode:
    /// appends it unless the queue is full, and reports whether the code
    /// was kept (a dropped code is the caller's cue to warn).
    pub fn add_scancode(&mut self, scancode: u8) -> (kept: bool)
        ensures
            old(self).scancodes().len() < SCANCODE_QUEUE_CAPACITY ==> kept && final(self).scancodes()
                == old(self).scancodes().push(scancode),
            old(self).scancodes().len() >= SCANCODE_QUEUE_CAPACITY ==> !kept && final(self).scancodes()
                == old(self).scancodes(),
    {
        if self.queue.len() < SCANCODE_QUEUE_CAPACITY {
            self.queue.push_back(scancode);
            true
        } else {
            false
        }
    }

    /// Called when the keyboard task is polled: yields the oldest buffered
    /// scancode, or `None` when the task must go back to sleep.
    pub fn poll_next(&mut self) -> (next: Option<u8>)
        ensures
            match next {
                Some(code) => old(self).scancodes().len() > 0 && code == old(self).scancodes()[0]
                    && final(self).scancodes() == old(self).scancodes().drop_first(),
                None => old(self).scancodes().len() == 0 && final(self).scancodes() == old(
                    self,
                ).scancodes(),
            },
    {
        let next = self.queue.pop_front();
        proof {
            if old(self).scancodes().len() > 0 {
                assert(self.scancodes() =~= old(self).scancodes().drop_first());
            }
        }
        next
    }
}

} // verus!
