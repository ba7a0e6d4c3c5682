//! A channel with many senders and one receiver. The receiver moves everything
//! queued into a private cache at once, so that it takes the lock less often.
use std::collections::VecDeque;
use std::sync::Arc;
use vstd::prelude::*;

use crate::sync::{SharedQueue, guarded, lock, wait_ready};

verus! {

/// The sending end; cloning it counts one more sender.
#[verifier::reject_recursive_types(T)]
pub struct Sender<T> {
    shared: Arc<SharedQueue<T>>,
}

/// The single receiving end.
#[verifier::reject_recursive_types(T)]
pub struct Receiver<T> {
    shared: Arc<SharedQueue<T>>,
    cache: VecDeque<T>,
}

impl<T> Sender<T> {
    /// Queues `p_data` and wakes the receiver if it waits.
    pub fn enqueue(&self, p_data: T) {
        self.shared.send(p_data);
    }
}

impl<T> Clone for Sender<T> {
    fn clone(&self) -> Self {
        self.shared.add_sender();
        Sender { shared: Arc::clone(&self.shared) }
    }
}

impl<T> Drop for Sender<T> {
    fn drop(&mut self)
        opens_invariants none
        no_unwind
    {
        self.shared.remove_sender();
    }
}

impl<T> Receiver<T> {
    /// The items taken from the queue and not yet handed out, oldest first.
    pub closed spec fn cached(&self) -> Seq<T> {
        self.cache@
    }

    /// The oldest cached item if there is one; otherwise waits for the queue, takes its
    /// oldest item and caches the rest. None once every sender is gone and nothing is left.
    pub fn dequeue(&mut self) -> (r: Option<T>)
        ensures
            old(self).cached().len() > 0 ==> r == Some(old(self).cached()[0]),
            old(self).cached().len() > 0 ==> final(self).cached() == old(self).cached().drop_first(),
    {
        if self.cache.len() > 0 {
            return self.cache.pop_front();
        }
        match lock(&self.shared.inner) {
            None => None,
            Some(g) => match wait_ready(&self.shared.cv, g) {
                None => None,
                Some(mut g) => {
                    let state = guarded(&mut g);
                    let data = state.take();
                    state.take_all(&mut self.cache);
                    data
                },
            },
        }
    }
}

/// A new channel with one sender and its receiver.
pub fn channel<T>() -> (Sender<T>, Receiver<T>) {
    let shared = Arc::new(SharedQueue::new(1));
    let tx = Sender { shared: Arc::clone(&shared) };
    let rc = Receiver { shared, cache: VecDeque::new() };
    (tx, rc)
}

} // verus!
