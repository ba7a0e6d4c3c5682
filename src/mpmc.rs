//! A channel with any number of senders and receivers sharing one queue.
use std::sync::Arc;
use vstd::prelude::*;

use crate::sync::SharedQueue;

verus! {

/// The sending end; cloning it counts one more sender.
#[verifier::reject_recursive_types(T)]
pub struct Sender<T> {
    shared: Arc<SharedQueue<T>>,
}

/// The receiving end; clones share the queue.
#[verifier::reject_recursive_types(T)]
pub struct Receiver<T> {
    shared: Arc<SharedQueue<T>>,
}

impl<T> Sender<T> {
    /// Queues `p_data` and wakes one waiting receiver.
    pub fn enqueue(&self, p_data: T) {
        self.shared.send(p_data);
    }
}

impl<T> Clone for Sender<T> {
    fn clone(&self) -> Self {
        self.shared.add_sender();
        Sender { shared: Arc::clone(&self.shared) }
    }
}

impl<T> Drop for Sender<T> {
    fn drop(&mut self)
        opens_invariants none
        no_unwind
    {
        self.shared.remove_sender();
    }
}

impl<T> Receiver<T> {
    /// Waits for an item and returns the oldest; None once every sender is gone and
    /// the queue is empty.
    pub fn dequeue(&mut self) -> Option<T> {
        self.shared.receive()
    }
}

impl<T> Clone for Receiver<T> {
    fn clone(&self) -> Self {
        Receiver { shared: Arc::clone(&self.shared) }
    }
}

/// A new channel with one sender and one receiver.
pub fn channel<T>() -> (Sender<T>, Receiver<T>) {
    let shared = Arc::new(SharedQueue::new(1));
    let tx = Sender { shared: Arc::clone(&shared) };
    let rc = Receiver { shared };
    (tx, rc)
}

} // verus!
