use std::sync::atomic::AtomicUsize;
use std::sync::atomic::Ordering;
use std::sync::Arc;
use std::task::Wake;
use std::task::Waker;

use asyncband::broadcast::unbounded::channel;
use asyncband::broadcast::unbounded::inner::shrink_target;
use asyncband::broadcast::unbounded::owned_or_cloned;
use asyncband::broadcast::unbounded::take_msg;
use asyncband::broadcast::unbounded::Published;
use asyncband::broadcast::unbounded::Receiver;
use asyncband::broadcast::unbounded::RecvError;
use asyncband::broadcast::unbounded::RecvPoll;
use asyncband::broadcast::unbounded::Sender;
use asyncband::broadcast::unbounded::Shared;
use asyncband::broadcast::unbounded::TryRecvError;
use asyncband::internal::waitset::WaitRegistration;

struct TrackWake(AtomicUsize);

impl Wake for TrackWake {
    fn wake(self: Arc<Self>) {
        self.0.fetch_add(1, Ordering::Relaxed);
    }
}

struct Rng(u64);

impl Rng {
    fn below(&mut self, n: u64) -> u64 {
        let mut x = self.0;
        x ^= x << 13;
        x ^= x >> 7;
        x ^= x << 17;
        self.0 = x;
        x % n
    }
}

/// Sends a message and notifies the receivers that were waiting.
fn send<T>(tx: &Sender<T>, shared: &mut Shared<T>, msg: T) {
    let Published { wakers, unsent } = tx.send(shared, msg);
    drop(unsent);
    for waker in wakers {
        waker.wake();
    }
}

/// Drops a sender and notifies the receivers that were waiting.
fn drop_sender<T>(tx: Sender<T>, shared: &mut Shared<T>) {
    if let Some(wakers) = tx.disconnect(shared) {
        for waker in wakers {
            waker.wake();
        }
    }
}

/// Polls a receive: `None` while it is pending.
fn poll<T: Clone>(
    rx: &mut Receiver<T>,
    shared: &mut Shared<T>,
    registration: &mut Option<WaitRegistration>,
    waker: &Waker,
) -> Option<Result<T, RecvError>> {
    let (polled, released) = rx.poll_recv(shared, registration, waker.clone());
    drop(released);
    match polled {
        RecvPoll::Ready(Ok((msg, reclaimed))) => Some(Ok(take_msg(msg, reclaimed))),
        RecvPoll::Ready(Err(error)) => Some(Err(error)),
        RecvPoll::Pending => None,
    }
}

#[test]
fn broadcast_unbounded_test_test_broadcast_basic() {
    let (mut shared, tx, mut rx1) = channel();
    let mut rx2 = tx.subscribe(&mut shared);

    send(&tx, &mut shared, 10);
    send(&tx, &mut shared, 20);

    assert_eq!(rx1.try_recv(&mut shared), Ok(10));
    assert_eq!(rx1.try_recv(&mut shared), Ok(20));
    assert_eq!(rx2.try_recv(&mut shared), Ok(10));
    assert_eq!(rx2.try_recv(&mut shared), Ok(20));
}

#[test]
fn broadcast_unbounded_test_test_subscribe() {
    let (mut shared, tx, _rx) = channel();
    let mut rx = tx.subscribe(&mut shared);

    send(&tx, &mut shared, 100);
    assert_eq!(rx.try_recv(&mut shared), Ok(100));
}

#[test]
fn broadcast_unbounded_test_test_resubscribe() {
    let (mut shared, tx, mut rx) = channel();

    send(&tx, &mut shared, 1);
    send(&tx, &mut shared, 2);

    let mut rx2 = rx.resubscribe(&mut shared);

    send(&tx, &mut shared, 3);

    assert_eq!(rx.try_recv(&mut shared), Ok(1));
    assert_eq!(rx.try_recv(&mut shared), Ok(2));
    assert_eq!(rx2.try_recv(&mut shared), Ok(3));
}

#[test]
fn broadcast_unbounded_test_test_try_recv() {
    let (mut shared, tx, mut rx) = channel();

    // Empty
    assert_eq!(rx.try_recv(&mut shared), Err(TryRecvError::Empty));

    // Success
    send(&tx, &mut shared, 10);
    assert_eq!(rx.try_recv(&mut shared), Ok(10));
    assert_eq!(rx.try_recv(&mut shared), Err(TryRecvError::Empty));

    // Closed
    drop_sender(tx, &mut shared);
    assert_eq!(rx.try_recv(&mut shared), Err(TryRecvError::Disconnected));
}

#[test]
fn test_slow_receiver_keeps_every_message() {
    let (mut shared, tx, mut rx1) = channel();
    let mut rx2 = tx.subscribe(&mut shared);

    for i in 0..1024 {
        send(&tx, &mut shared, i);
    }

    // The fast receiver draining fully must not reclaim anything the slow one still needs.
    for i in 0..1024 {
        assert_eq!(rx1.try_recv(&mut shared), Ok(i));
    }
    assert_eq!(tx.buffer_len(&shared), 1024);

    for i in 0..1024 {
        assert_eq!(rx2.try_recv(&mut shared), Ok(i));
    }
    assert_eq!(tx.buffer_len(&shared), 0);
}

#[test]
fn buffer_len_tracks_the_slowest_receiver() {
    let (mut shared, tx, mut rx1) = channel();
    let mut rx2 = tx.subscribe(&mut shared);

    send(&tx, &mut shared, 1);
    send(&tx, &mut shared, 2);
    assert_eq!(tx.buffer_len(&shared), 2);

    // Reclaiming waits for the slowest receiver, message by message.
    assert_eq!(rx1.try_recv(&mut shared), Ok(1));
    assert_eq!(tx.buffer_len(&shared), 2);
    assert_eq!(rx2.try_recv(&mut shared), Ok(1));
    assert_eq!(tx.buffer_len(&shared), 1);

    assert_eq!(rx1.try_recv(&mut shared), Ok(2));
    assert_eq!(tx.buffer_len(&shared), 1);
    assert_eq!(rx2.try_recv(&mut shared), Ok(2));
    assert_eq!(tx.buffer_len(&shared), 0);
}

#[test]
fn test_dropping_a_lagging_receiver_releases_its_backlog() {
    let (mut shared, tx, mut rx1) = channel();
    let rx2 = tx.subscribe(&mut shared);

    for i in 0..128 {
        send(&tx, &mut shared, i);
    }
    for i in 0..128 {
        assert_eq!(rx1.try_recv(&mut shared), Ok(i));
    }
    assert_eq!(tx.buffer_len(&shared), 128);

    let reclaimed = rx2.disconnect(&mut shared);
    assert_eq!(tx.buffer_len(&shared), 0);
    let reclaimed = reclaimed.iter().map(|msg| **msg).collect::<Vec<_>>();
    assert_eq!(reclaimed, (0..128).collect::<Vec<_>>());
}

#[test]
fn resubscribe_keeps_the_original_receivers_backlog() {
    let (mut shared, tx, mut rx) = channel();

    send(&tx, &mut shared, 1);
    send(&tx, &mut shared, 2);

    let mut rx2 = rx.resubscribe(&mut shared);
    assert_eq!(tx.buffer_len(&shared), 2);

    send(&tx, &mut shared, 3);

    assert_eq!(rx2.try_recv(&mut shared), Ok(3));
    assert_eq!(tx.buffer_len(&shared), 3);

    assert_eq!(rx.try_recv(&mut shared), Ok(1));
    assert_eq!(rx.try_recv(&mut shared), Ok(2));
    assert_eq!(rx.try_recv(&mut shared), Ok(3));
    assert_eq!(tx.buffer_len(&shared), 0);
}

#[test]
fn send_without_receivers_does_not_buffer() {
    let (mut shared, tx, rx) = channel();
    rx.disconnect(&mut shared);

    let first = tx.send(&mut shared, 1);
    assert_eq!(first.unsent.as_deref(), Some(&1));
    send(&tx, &mut shared, 2);
    assert_eq!(tx.buffer_len(&shared), 0);

    let mut rx = tx.subscribe(&mut shared);
    assert_eq!(rx.try_recv(&mut shared), Err(TryRecvError::Empty));

    let third = tx.send(&mut shared, 3);
    assert!(third.unsent.is_none());
    assert_eq!(rx.try_recv(&mut shared), Ok(3));
}

#[test]
fn receiver_count_and_len_track_each_receiver() {
    let (mut shared, tx, mut rx1) = channel();
    assert_eq!(tx.receiver_count(&shared), 1);
    assert_eq!(rx1.len(&shared), 0);
    assert!(rx1.is_empty(&shared));

    send(&tx, &mut shared, 1);
    send(&tx, &mut shared, 2);
    assert_eq!(rx1.len(&shared), 2);
    assert!(!rx1.is_empty(&shared));

    let mut rx2 = tx.subscribe(&mut shared);
    assert_eq!(tx.receiver_count(&shared), 2);
    assert_eq!(rx2.len(&shared), 0);
    assert!(rx2.is_empty(&shared));

    send(&tx, &mut shared, 3);
    assert_eq!(rx1.len(&shared), 3);
    assert_eq!(rx2.len(&shared), 1);

    assert_eq!(rx2.try_recv(&mut shared), Ok(3));
    assert_eq!(rx2.len(&shared), 0);
    rx2.disconnect(&mut shared);
    assert_eq!(tx.receiver_count(&shared), 1);

    assert_eq!(rx1.try_recv(&mut shared), Ok(1));
    assert_eq!(rx1.len(&shared), 2);
}

#[test]
fn clone_shares_the_current_position() {
    let (mut shared, tx, mut rx) = channel();

    send(&tx, &mut shared, 1);
    send(&tx, &mut shared, 2);
    assert_eq!(rx.try_recv(&mut shared), Ok(1));

    // The clone inherits the unread backlog, unlike `resubscribe`.
    let mut clone = rx.clone(&mut shared);
    let mut fresh = rx.resubscribe(&mut shared);
    assert_eq!(tx.receiver_count(&shared), 3);

    send(&tx, &mut shared, 3);

    assert_eq!(clone.try_recv(&mut shared), Ok(2));
    assert_eq!(clone.try_recv(&mut shared), Ok(3));
    assert_eq!(rx.try_recv(&mut shared), Ok(2));
    assert_eq!(rx.try_recv(&mut shared), Ok(3));
    assert_eq!(fresh.try_recv(&mut shared), Ok(3));
    assert_eq!(tx.buffer_len(&shared), 0);
}

#[test]
fn clone_at_head_keeps_the_backlog_alive() {
    let (mut shared, tx, mut rx) = channel();

    send(&tx, &mut shared, 1);
    let clone = rx.clone(&mut shared);

    assert_eq!(rx.try_recv(&mut shared), Ok(1));
    // The clone still sits at `head`, so the message must not be reclaimed yet.
    assert_eq!(tx.buffer_len(&shared), 1);

    clone.disconnect(&mut shared);
    assert_eq!(tx.buffer_len(&shared), 0);
}

#[test]
fn sole_receiver_takes_messages_without_cloning() {
    static CLONES: AtomicUsize = AtomicUsize::new(0);

    struct CountClone(u32);

    impl Clone for CountClone {
        fn clone(&self) -> Self {
            CLONES.fetch_add(1, Ordering::Relaxed);
            Self(self.0)
        }
    }

    let (mut shared, tx, mut rx) = channel();
    for i in 0..8 {
        send(&tx, &mut shared, CountClone(i));
        assert_eq!(rx.try_recv(&mut shared).unwrap().0, i);
    }
    assert_eq!(CLONES.load(Ordering::Relaxed), 0);

    // A second receiver means the payload is shared, so it has to be cloned again.
    let mut second = tx.subscribe(&mut shared);
    send(&tx, &mut shared, CountClone(8));
    assert_eq!(rx.try_recv(&mut shared).unwrap().0, 8);
    assert_eq!(second.try_recv(&mut shared).unwrap().0, 8);
    assert_eq!(CLONES.load(Ordering::Relaxed), 1);
}

#[test]
fn send_wakes_a_parked_receiver_exactly_once() {
    let (mut shared, tx, mut rx) = channel();
    let tracker = Arc::new(TrackWake(AtomicUsize::new(0)));
    let waker = Waker::from(tracker.clone());
    let mut registration = None;

    assert!(poll(&mut rx, &mut shared, &mut registration, &waker).is_none());

    send(&tx, &mut shared, 42);

    assert_eq!(tracker.0.load(Ordering::Relaxed), 1);
    assert_eq!(poll(&mut rx, &mut shared, &mut registration, &waker), Some(Ok(42)));
    assert!(registration.is_none());
}

#[test]
fn broadcast_unbounded_test_cancelled_recv_releases_its_waker() {
    let (mut shared, tx, mut rx) = channel::<()>();
    let tracker = Arc::new(TrackWake(AtomicUsize::new(0)));
    let waker = Waker::from(tracker.clone());
    let baseline = Arc::strong_count(&tracker);
    let mut registration = None;

    assert!(poll(&mut rx, &mut shared, &mut registration, &waker).is_none());
    assert_eq!(Arc::strong_count(&tracker), baseline + 1);

    drop(rx.cancel_recv(&mut shared, &mut registration));
    assert_eq!(Arc::strong_count(&tracker), baseline);

    send(&tx, &mut shared, ());
    assert_eq!(tracker.0.load(Ordering::Relaxed), 0);
    assert_eq!(rx.try_recv(&mut shared), Ok(()));
}

#[test]
fn dropping_a_woken_recv_keeps_another_receivers_waiter() {
    let (mut shared, tx, mut rx1) = channel::<i32>();
    let mut rx2 = tx.subscribe(&mut shared);
    let first = Arc::new(TrackWake(AtomicUsize::new(0)));
    let waker = Waker::from(first.clone());
    let mut recv1 = None;

    assert!(poll(&mut rx1, &mut shared, &mut recv1, &waker).is_none());

    send(&tx, &mut shared, 1);
    assert_eq!(first.0.load(Ordering::Relaxed), 1);
    assert_eq!(rx2.try_recv(&mut shared), Ok(1));

    let second = Arc::new(TrackWake(AtomicUsize::new(0)));
    let waker = Waker::from(second.clone());
    let mut recv2 = None;
    assert!(poll(&mut rx2, &mut shared, &mut recv2, &waker).is_none());

    // `recv1` was already woken, so dropping it must not release the slot `recv2` now owns.
    assert!(rx1.cancel_recv(&mut shared, &mut recv1).is_none());
    send(&tx, &mut shared, 2);

    assert_eq!(second.0.load(Ordering::Relaxed), 1);
}

#[test]
fn parked_recv_wakes_when_the_last_sender_drops() {
    let (mut shared, tx, mut rx) = channel::<()>();
    let extra = tx.clone(&mut shared);
    let tracker = Arc::new(TrackWake(AtomicUsize::new(0)));
    let waker = Waker::from(tracker.clone());
    let mut registration = None;

    assert!(poll(&mut rx, &mut shared, &mut registration, &waker).is_none());

    drop_sender(tx, &mut shared);
    assert_eq!(tracker.0.load(Ordering::Relaxed), 0);

    drop_sender(extra, &mut shared);
    assert_eq!(tracker.0.load(Ordering::Relaxed), 1);

    drop(rx.cancel_recv(&mut shared, &mut registration));
    assert_eq!(rx.try_recv(&mut shared), Err(TryRecvError::Disconnected));
}

#[test]
fn parked_recv_prefers_buffered_messages_over_disconnect() {
    let (mut shared, tx, mut rx) = channel();
    let tracker = Arc::new(TrackWake(AtomicUsize::new(0)));
    let waker = Waker::from(tracker);
    let mut registration = None;

    assert!(poll(&mut rx, &mut shared, &mut registration, &waker).is_none());

    send(&tx, &mut shared, 7);
    drop_sender(tx, &mut shared);

    assert_eq!(poll(&mut rx, &mut shared, &mut registration, &waker), Some(Ok(7)));
    assert_eq!(rx.try_recv(&mut shared), Err(TryRecvError::Disconnected));
}

#[test]
fn recv_drains_buffered_messages_before_reporting_disconnect() {
    let (mut shared, tx, mut rx) = channel();
    let waker = Waker::from(Arc::new(TrackWake(AtomicUsize::new(0))));
    let mut registration = None;

    send(&tx, &mut shared, 1);
    send(&tx, &mut shared, 2);
    drop_sender(tx, &mut shared);

    assert_eq!(poll(&mut rx, &mut shared, &mut registration, &waker), Some(Ok(1)));
    assert_eq!(poll(&mut rx, &mut shared, &mut registration, &waker), Some(Ok(2)));
    assert_eq!(
        poll(&mut rx, &mut shared, &mut registration, &waker),
        Some(Err(RecvError::Disconnected))
    );
}

#[test]
fn recv_reports_disconnect_without_any_message() {
    let (mut shared, tx, mut rx) = channel::<()>();
    let waker = Waker::from(Arc::new(TrackWake(AtomicUsize::new(0))));
    drop_sender(tx, &mut shared);
    assert_eq!(
        poll(&mut rx, &mut shared, &mut None, &waker),
        Some(Err(RecvError::Disconnected))
    );
}

#[test]
fn randomized_operations_track_the_reference_model() {
    for seed in 1..32u64 {
        let mut rng = Rng(seed.wrapping_mul(0x9E37_79B9_7F4A_7C15) | 1);
        let (mut shared, tx, rx) = channel::<u64>();
        let mut tail = 0u64;
        let mut model = vec![(rx, 0u64)];

        for _ in 0..512 {
            match rng.below(100) {
                0..=44 => {
                    send(&tx, &mut shared, tail);
                    tail += 1;
                }
                45..=79 if !model.is_empty() => {
                    let index = rng.below(model.len() as u64) as usize;
                    let (receiver, cursor) = &mut model[index];
                    if *cursor < tail {
                        assert_eq!(receiver.try_recv(&mut shared), Ok(*cursor), "seed {seed}");
                        *cursor += 1;
                    } else {
                        assert_eq!(
                            receiver.try_recv(&mut shared),
                            Err(TryRecvError::Empty),
                            "seed {seed}"
                        );
                    }
                }
                80..=89 => model.push((tx.subscribe(&mut shared), tail)),
                _ if !model.is_empty() => {
                    let index = rng.below(model.len() as u64) as usize;
                    model.swap_remove(index).0.disconnect(&mut shared);
                }
                _ => {}
            }

            assert_eq!(tx.receiver_count(&shared), model.len(), "seed {seed}");
            let retained = model
                .iter()
                .map(|(_, cursor)| *cursor)
                .min()
                .map_or(0, |slowest| tail - slowest);
            assert_eq!(tx.buffer_len(&shared), retained as usize, "seed {seed}");
            for (receiver, cursor) in &model {
                assert_eq!(receiver.len(&shared), (tail - cursor) as usize, "seed {seed}");
                assert_eq!(receiver.is_empty(&shared), *cursor == tail, "seed {seed}");
            }
        }
    }
}

#[test]
fn polling_again_replaces_the_parked_waker() {
    let (mut shared, tx, mut rx) = channel::<u8>();
    let first = Arc::new(TrackWake(AtomicUsize::new(0)));
    let second = Arc::new(TrackWake(AtomicUsize::new(0)));
    let mut registration = None;

    let (polled, released) =
        rx.poll_recv(&mut shared, &mut registration, Waker::from(first.clone()));
    assert!(matches!(polled, RecvPoll::Pending));
    assert!(released.is_none());
    let (polled, released) =
        rx.poll_recv(&mut shared, &mut registration, Waker::from(second.clone()));
    assert!(matches!(polled, RecvPoll::Pending));
    assert!(released.is_some());

    send(&tx, &mut shared, 1);
    assert_eq!(first.0.load(Ordering::Relaxed), 0);
    assert_eq!(second.0.load(Ordering::Relaxed), 1);
}

#[test]
fn reclaimed_messages_start_with_the_received_one() {
    let (mut shared, tx, mut rx1) = channel();
    let mut rx2 = tx.subscribe(&mut shared);
    for i in 0..3 {
        send(&tx, &mut shared, i);
    }
    for _ in 0..3 {
        let (_, reclaimed) = rx1.try_recv_shared(&mut shared).unwrap();
        assert!(reclaimed.is_empty());
    }
    let (msg, reclaimed) = rx2.try_recv_shared(&mut shared).unwrap();
    assert_eq!(*msg, 0);
    assert_eq!(reclaimed.len(), 1);
    assert!(Arc::ptr_eq(&msg, &reclaimed[0]));

    // Leaving lets go of everything that nobody else has yet to read.
    let reclaimed = rx2.disconnect(&mut shared);
    assert_eq!(reclaimed.iter().map(|msg| **msg).collect::<Vec<_>>(), vec![1, 2]);
}

#[test]
fn message_shared_elsewhere_is_cloned() {
    let message = Arc::new(String::from("kept"));
    let reclaimed = vec![message.clone()];
    let elsewhere = message.clone();
    assert_eq!(take_msg(message, reclaimed), "kept");
    assert_eq!(*elsewhere, "kept");
    assert_eq!(take_msg(elsewhere, Vec::new()), "kept");
}

#[test]
fn versions_count_the_messages_sent() {
    let (mut shared, tx, rx) = channel();
    assert_eq!(shared.next_version(), 0);
    assert_eq!(shared.sender_count(), 1);
    send(&tx, &mut shared, 'a');
    rx.disconnect(&mut shared);
    send(&tx, &mut shared, 'b');
    assert_eq!(shared.next_version(), 2);

    let extra = tx.clone(&mut shared);
    assert_eq!(shared.sender_count(), 2);
    drop_sender(extra, &mut shared);
    drop_sender(tx, &mut shared);
    assert_eq!(shared.sender_count(), 0);
}

#[test]
fn buffer_shrinks_only_after_a_small_cycle() {
    assert_eq!(shrink_target(64, 0), None);
    assert_eq!(shrink_target(65, 0), Some(64));
    assert_eq!(shrink_target(1024, 32), Some(64));
    assert_eq!(shrink_target(1024, 33), Some(66));
    assert_eq!(shrink_target(1024, 256), Some(512));
    assert_eq!(shrink_target(1024, 257), None);
    assert_eq!(shrink_target(1024, 1024), None);
}

#[test]
fn messages_survive_a_shrinking_buffer() {
    let (mut shared, tx, mut rx) = channel();
    for cycle in [1000, 10, 200, 0, 5] {
        for i in 0..cycle {
            send(&tx, &mut shared, i);
        }
        for i in 0..cycle {
            assert_eq!(rx.try_recv(&mut shared), Ok(i));
        }
        assert_eq!(tx.buffer_len(&shared), 0);
    }
}

#[test]
fn errors_describe_themselves() {
    assert_eq!(RecvError::Disconnected.to_string(), "receiving on a closed channel");
    assert_eq!(TryRecvError::Empty.to_string(), "receiving on an empty channel");
    assert_eq!(TryRecvError::Disconnected.to_string(), "receiving on a closed channel");
}

#[derive(Debug, PartialEq)]
struct CountsClones(u32);

impl Clone for CountsClones {
    fn clone(&self) -> Self {
        CountsClones(self.0 + 1)
    }
}

#[test]
fn sole_reference_is_moved_and_shared_one_is_cloned() {
    assert_eq!(owned_or_cloned(Ok(CountsClones(0))), CountsClones(0));
    assert_eq!(
        owned_or_cloned(Err(Arc::new(CountsClones(0)))),
        CountsClones(1)
    );
}

#[test]
fn send_reaches_the_end_of_every_backlog() {
    let (mut shared, tx, rx1) = channel::<u32>();
    send(&tx, &mut shared, 1);
    let rx2 = tx.subscribe(&mut shared);
    send(&tx, &mut shared, 2);

    assert_eq!(rx1.len(&shared), 2);
    assert_eq!(rx2.len(&shared), 1);
    assert_eq!(tx.buffer_len(&shared), 2);
    assert_eq!(tx.receiver_count(&shared), 2);
}

#[test]
fn only_the_single_slowest_receiver_frees_a_message() {
    let (mut shared, tx, mut rx1) = channel::<u32>();
    let mut rx2 = rx1.clone(&mut shared);
    send(&tx, &mut shared, 1);
    send(&tx, &mut shared, 2);

    // Both are slowest: the first receive frees nothing, the second frees the message.
    assert_eq!(rx1.try_recv(&mut shared), Ok(1));
    assert_eq!(tx.buffer_len(&shared), 2);
    assert_eq!(rx2.len(&shared), 2);
    assert_eq!(rx2.try_recv(&mut shared), Ok(1));
    assert_eq!(tx.buffer_len(&shared), 1);
    assert_eq!(rx1.len(&shared), 1);

    // The faster one frees nothing by reading on.
    assert_eq!(rx1.try_recv(&mut shared), Ok(2));
    assert_eq!(tx.buffer_len(&shared), 1);
    assert_eq!(tx.receiver_count(&shared), 2);
}

#[test]
fn receiver_count_is_one_plus_joins_minus_leaves() {
    let (mut shared, tx, rx1) = channel::<u32>();
    assert_eq!(tx.receiver_count(&shared), 1);
    let rx2 = tx.subscribe(&mut shared);
    let rx3 = rx1.clone(&mut shared);
    let mut rx4 = rx2.resubscribe(&mut shared);
    assert_eq!(tx.receiver_count(&shared), 4);

    send(&tx, &mut shared, 1);
    assert_eq!(rx4.try_recv(&mut shared), Ok(1));
    let tx2 = tx.clone(&mut shared);
    drop_sender(tx2, &mut shared);
    assert_eq!(tx.receiver_count(&shared), 4);

    drop(rx1.disconnect(&mut shared));
    drop(rx3.disconnect(&mut shared));
    assert_eq!(tx.receiver_count(&shared), 2);
}

#[test]
fn repeatedly_pending_receive_loses_nothing_when_cancelled() {
    let (mut shared, tx, mut rx) = channel::<u32>();
    let track = Arc::new(TrackWake(AtomicUsize::new(0)));
    let waker = Waker::from(track.clone());
    let mut registration = None;

    assert_eq!(poll(&mut rx, &mut shared, &mut registration, &waker), None);
    assert_eq!(poll(&mut rx, &mut shared, &mut registration, &waker), None);
    let other = tx.subscribe(&mut shared);
    assert_eq!(poll(&mut rx, &mut shared, &mut registration, &waker), None);
    send(&tx, &mut shared, 1);
    send(&tx, &mut shared, 2);
    drop(other.disconnect(&mut shared));
    drop(rx.cancel_recv(&mut shared, &mut registration));

    assert_eq!(track.0.load(Ordering::Relaxed), 1);
    assert_eq!(rx.len(&shared), 2);
    assert_eq!(rx.try_recv(&mut shared), Ok(1));
    assert_eq!(rx.try_recv(&mut shared), Ok(2));
    assert_eq!(rx.try_recv(&mut shared), Err(TryRecvError::Empty));
}

#[test]
fn interleaved_senders_are_read_in_the_order_of_sending() {
    let (mut shared, tx1, mut rx) = channel::<u32>();
    let tx2 = tx1.clone(&mut shared);
    for i in 0..50 {
        send(&tx1, &mut shared, 2 * i);
        send(&tx2, &mut shared, 2 * i + 1);
    }
    let mut late = tx1.subscribe(&mut shared);
    drop_sender(tx1, &mut shared);
    send(&tx2, &mut shared, 100);
    drop_sender(tx2, &mut shared);

    for i in 0..=100 {
        assert_eq!(rx.try_recv(&mut shared), Ok(i));
    }
    assert_eq!(
        rx.try_recv(&mut shared),
        Err(TryRecvError::Disconnected)
    );
    assert_eq!(late.try_recv(&mut shared), Ok(100));
    assert_eq!(
        late.try_recv(&mut shared),
        Err(TryRecvError::Disconnected)
    );
}
