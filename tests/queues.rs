use matching_engine::mpmc;
use matching_engine::mpmc_queue::MpmcQueue;
use matching_engine::mpsc;

#[test]
fn mpmc_ping_pong() {
    let (tx, mut rx) = mpmc::channel();
    tx.enqueue(42);
    assert_eq!(rx.dequeue(), Some(42));
}

#[test]
fn mpmc_closed_tx() {
    let (tx, mut rx) = mpmc::channel::<()>();
    drop(tx);
    assert_eq!(rx.dequeue(), None);
}

#[test]
fn mpmc_closed_rx() {
    let (tx, rx) = mpmc::channel();
    drop(rx);
    tx.enqueue(42);
}

#[test]
fn mpsc_ping_pong() {
    let (tx, mut rx) = mpsc::channel();
    tx.enqueue(42);
    assert_eq!(rx.dequeue(), Some(42));
}

#[test]
fn mpsc_closed_tx() {
    let (tx, mut rx) = mpsc::channel::<()>();
    drop(tx);
    assert_eq!(rx.dequeue(), None);
}

#[test]
fn mpsc_closed_rx() {
    let (tx, rx) = mpsc::channel();
    drop(rx);
    tx.enqueue(42);
}

#[test]
fn mpsc_keeps_order_across_cache() {
    let (tx, mut rx) = mpsc::channel();
    tx.enqueue(1);
    tx.enqueue(2);
    tx.enqueue(3);
    assert_eq!(rx.dequeue(), Some(1));
    tx.enqueue(4);
    assert_eq!(rx.dequeue(), Some(2));
    assert_eq!(rx.dequeue(), Some(3));
    assert_eq!(rx.dequeue(), Some(4));
    drop(tx);
    assert_eq!(rx.dequeue(), None);
}

#[test]
fn mpmc_clone_keeps_channel_open() {
    let (tx, mut rx) = mpmc::channel();
    let tx2 = tx.clone();
    drop(tx);
    tx2.enqueue(7);
    assert_eq!(rx.dequeue(), Some(7));
    let mut rx2 = rx.clone();
    tx2.enqueue(8);
    assert_eq!(rx2.dequeue(), Some(8));
    drop(tx2);
    assert_eq!(rx.dequeue(), None);
}

#[test]
fn mpmc_queue_fifo() {
    let q = MpmcQueue::new();
    q.enqueue(1);
    q.enqueue(2);
    assert_eq!(q.dequeue(), Some(1));
    assert_eq!(q.dequeue(), Some(2));
}
