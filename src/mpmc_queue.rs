//! A blocking queue that any number of threads may fill and drain through a shared
//! reference.
use vstd::prelude::*;

use crate::sync::SharedQueue;

verus! {

/// A queue that is never closed: `dequeue` waits until an item is there.
#[verifier::reject_recursive_types(T)]
pub struct MpmcQueue<T> {
    inner_: SharedQueue<T>,
}

impl<T> MpmcQueue<T> {
    /// An empty queue.
    pub fn new() -> Self {
        MpmcQueue { inner_: SharedQueue::new(1) }
    }

    /// Adds `p_data` at the back and wakes one waiting thread.
    pub fn enqueue(&self, p_data: T) {
        self.inner_.send(p_data);
    }

    /// Waits for an item and takes the oldest; None only where the lock is poisoned.
    pub fn dequeue(&self) -> Option<T> {
        self.inner_.receive()
    }
}

} // verus!
