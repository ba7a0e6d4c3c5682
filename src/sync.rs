//! The state shared by the ends of a queue, and the std locking it is kept under.
use std::collections::VecDeque;
use std::sync::{Condvar, Mutex, MutexGuard};
use vstd::prelude::*;

verus! {

#[verifier::external_type_specification]
#[verifier::external_body]
#[verifier::reject_recursive_types(T)]
pub struct ExMutex<T: ?Sized>(Mutex<T>);

#[verifier::external_type_specification]
#[verifier::external_body]
#[verifier::reject_recursive_types(T)]
pub struct ExMutexGuard<'a, T: ?Sized + 'a>(MutexGuard<'a, T>);

#[verifier::external_type_specification]
#[verifier::external_body]
pub struct ExCondvar(Condvar);

pub assume_specification<T>[ Mutex::<T>::new ](t: T) -> Mutex<T>;

pub assume_specification[ Condvar::new ]() -> Condvar;

/// Relies on std::sync::Condvar::notify_one: wakes one thread waiting on `cv`, if any.
#[verifier::external_body]
pub(crate) fn notify(cv: &Condvar)
    opens_invariants none
    no_unwind
{
    cv.notify_one()
}

/// Relies on std::sync::Mutex::lock: blocks until the lock is held and returns its
/// guard, or None where a former holder panicked. The library never locks a mutex
/// its own thread holds, the one case in which `lock` may fail to return.
#[verifier::external_body]
pub(crate) fn lock<T>(m: &Mutex<T>) -> Option<MutexGuard<'_, T>>
    opens_invariants none
    no_unwind
{
    m.lock().ok()
}

/// Relies on MutexGuard's DerefMut: the value the held mutex protects.
#[verifier::external_body]
pub(crate) fn guarded<'a, 'b, T>(g: &'b mut MutexGuard<'a, T>) -> &'b mut T
    opens_invariants none
    no_unwind
{
    &mut **g
}

/// Relies on std::sync::Condvar::wait_while: releases the lock and blocks until the
/// state no longer has to wait, then returns the guard held again; None where a
/// holder panicked.
#[verifier::external_body]
pub(crate) fn wait_ready<'a, T>(cv: &Condvar, g: MutexGuard<'a, QueueState<T>>) -> Option<
    MutexGuard<'a, QueueState<T>>,
> {
    cv.wait_while(g, |s| s.must_wait()).ok()
}

/// The items waiting in a queue, oldest first, and how many senders can still add
/// to it. A queue with no sender left is closed once it is empty.
pub struct QueueState<T> {
    queue: VecDeque<T>,
    senders: usize,
}

impl<T> QueueState<T> {
    pub closed spec fn items(&self) -> Seq<T> {
        self.queue@
    }

    pub closed spec fn sender_count(&self) -> nat {
        self.senders as nat
    }

    /// An empty queue with `senders` senders.
    pub fn new(senders: usize) -> (r: QueueState<T>)
        ensures
            r.items() == Seq::<T>::empty(),
            r.sender_count() == senders,
    {
        QueueState { queue: VecDeque::new(), senders }
    }

    /// Whether a receiver has to wait: nothing queued and a sender still there.
    pub fn must_wait(&self) -> (r: bool)
        ensures
            r == (self.items().len() == 0 && self.sender_count() > 0),
    {
        self.queue.len() == 0 && self.senders > 0
    }

    /// Adds `x` at the back.
    pub fn push(&mut self, x: T)
        ensures
            final(self).items() == old(self).items().push(x),
            final(self).sender_count() == old(self).sender_count(),
    {
        self.queue.push_back(x);
    }

    /// Takes the oldest item, if any.
    pub fn take(&mut self) -> (r: Option<T>)
        ensures
            old(self).items().len() == 0 ==> r is None && final(self).items() == old(self).items(),
            old(self).items().len() > 0 ==> r == Some(old(self).items()[0]) && final(self).items()
                == old(self).items().drop_first(),
            final(self).sender_count() == old(self).sender_count(),
    {
        self.queue.pop_front()
    }

    /// Moves every queued item, in order, to the empty `out`.
    pub fn take_all(&mut self, out: &mut VecDeque<T>)
        requires
            old(out)@.len() == 0,
        ensures
            final(out)@ == old(self).items(),
            final(self).items().len() == 0,
            final(self).sender_count() == old(self).sender_count(),
    {
        std::mem::swap(&mut self.queue, out);
    }

    /// Counts one more sender; the count stays at its largest value there.
    pub fn add_sender(&mut self)
        ensures
            final(self).items() == old(self).items(),
            final(self).sender_count() == if old(self).sender_count() < usize::MAX {
                old(self).sender_count() + 1
            } else {
                old(self).sender_count()
            },
    {
        if self.senders < usize::MAX {
            self.senders = self.senders + 1;
        }
    }

    /// Counts one sender less; says whether none is left.
    pub fn remove_sender(&mut self) -> (r: bool)
        ensures
            final(self).items() == old(self).items(),
            final(self).sender_count() == if old(self).sender_count() > 0 {
                old(self).sender_count() - 1
            } else {
                0
            },
            r == (final(self).sender_count() == 0),
        opens_invariants none
        no_unwind
    {
        if self.senders > 0 {
            self.senders = self.senders - 1;
        }
        self.senders == 0
    }
}

/// A queue state under a lock, with a condition variable to wait on.
#[verifier::reject_recursive_types(T)]
pub struct SharedQueue<T> {
    pub(crate) inner: Mutex<QueueState<T>>,
    pub(crate) cv: Condvar,
}

impl<T> SharedQueue<T> {
    pub fn new(senders: usize) -> SharedQueue<T> {
        SharedQueue { inner: Mutex::new(QueueState::new(senders)), cv: Condvar::new() }
    }

    /// Adds `x` and wakes one waiting receiver; does nothing where the lock is poisoned.
    pub fn send(&self, x: T) {
        let pushed = match lock(&self.inner) {
            Some(mut g) => {
                guarded(&mut g).push(x);
                true
            },
            None => false,
        };
        if pushed {
            notify(&self.cv);
        }
    }

    /// Waits for an item and takes the oldest; None once the queue is empty with no
    /// sender left, or where the lock is poisoned.
    pub fn receive(&self) -> Option<T> {
        match lock(&self.inner) {
            None => None,
            Some(g) => match wait_ready(&self.cv, g) {
                None => None,
                Some(mut g) => guarded(&mut g).take(),
            },
        }
    }

    /// Counts one more sender.
    pub fn add_sender(&self) {
        if let Some(mut g) = lock(&self.inner) {
            guarded(&mut g).add_sender();
        }
    }

    /// Counts one sender less; wakes a receiver when the last one goes.
    pub fn remove_sender(&self)
        opens_invariants none
        no_unwind
    {
        let last = match lock(&self.inner) {
            Some(mut g) => guarded(&mut g).remove_sender(),
            None => false,
        };
        if last {
            notify(&self.cv);
        }
    }
}

} // verus!
