//! A multi-producer multi-consumer broadcast channel with an unbounded buffer.
//!
//! This channel supports multiple senders and multiple receivers. Each message sent by any sender
//! is received by all active receivers. If a receiver falls behind, messages are buffered until the
//! receiver consumes them or leaves.
//!
//! The state that senders and receivers share is a value of its own, [`Shared`]. Every operation of
//! a [`Sender`] or a [`Receiver`] takes that state as an argument, so that a program decides how it
//! is shared: behind a lock, or not at all. What must not happen while a lock is held (waking a
//! task, dropping or cloning a message) is handed back to the caller.
//!
//! # Memory usage
//!
//! This channel does not impose a capacity limit. A slow or stalled receiver can cause the buffer
//! to grow without bound, because messages are retained until every active receiver has consumed
//! them or has left. Use [`Sender::buffer_len`] to monitor the number of messages currently
//! retained by the shared buffer.
//!
//! The buffer keeps the capacity a steady workload needs, so a channel that repeatedly fills and
//! drains does not reallocate. Capacity grown for a one-off burst is released once a later cycle
//! drains completely without needing it.
//!
//! # Receivers
//!
//! Each receiver has an independent cursor. Use [`Sender::subscribe`] to create a receiver that
//! starts at the current tail of the channel, [`Receiver::clone`] to create one that shares this
//! receiver's unread backlog, or [`Receiver::resubscribe`] to skip this receiver's backlog and
//! start a new receiver at the current tail.
//!
//! Messages are reclaimed once the slowest receiver moves past them, which scans one slot per
//! receiver. Only the receive that advances the slowest cursor pays for that scan, and the channel
//! keeps a slot for every receiver it hands out, so the cost follows the largest number of receivers
//! that were ever active at once rather than the number active now.

use std::marker::PhantomData;
use std::sync::Arc;
use std::task::Waker;

use vstd::pervasive::strictly_cloned;
use vstd::pervasive::unreached;
use vstd::prelude::*;

use crate::broadcast::unbounded::inner::payloads;
use crate::broadcast::unbounded::inner::Inner;
use crate::broadcast::unbounded::laws::law_clone_shares_the_backlog;
use crate::broadcast::unbounded::laws::law_leaving_receiver_releases_its_backlog;
use crate::broadcast::unbounded::laws::law_new_channel_is_empty;
use crate::broadcast::unbounded::laws::law_receive_delivers_the_oldest_unread;
use crate::broadcast::unbounded::laws::law_receive_takes_nothing_from_others;
use crate::broadcast::unbounded::laws::law_retained_is_the_longest_backlog;
use crate::broadcast::unbounded::laws::law_send_reaches_every_receiver;
use crate::broadcast::unbounded::laws::law_send_without_receivers_retains_nothing;
use crate::broadcast::unbounded::laws::law_subscribe_starts_at_the_tail;
use crate::broadcast::unbounded::model::lemma_head_is;
use crate::broadcast::unbounded::model::ChannelView;
use crate::internal::arena::is_occupied;
use crate::internal::arena::occupied_values;
use crate::internal::arena::ArenaKey;
use crate::internal::arena::ArenaValues;
use crate::internal::arena::ArenaView;
use crate::internal::counting::lemma_count_positions;
use crate::internal::counting::lemma_count_zero;
use crate::internal::std_items::arc_try_unwrap;
use crate::internal::waitset::law_drain_empties_the_set;
use crate::internal::waitset::law_drain_reaches_every_waiter;
use crate::internal::waitset::WaitRegistration;

pub mod inner;
pub mod laws;
pub mod model;

verus! {

/// Error returned when receiving a message that is waited for.
#[derive(Debug, Clone, PartialEq, Eq, Structural)]
pub enum RecvError {
    /// The sender has become disconnected, and there will never be any more data received on it.
    Disconnected,
}

impl RecvError {
    /// Describes the error.
    pub fn to_string(&self) -> (text: String)
        ensures
            text@ == "receiving on a closed channel"@,
    {
        match self {
            RecvError::Disconnected => "receiving on a closed channel".to_owned(),
        }
    }
}

/// Error returned by [`Receiver::try_recv`].
#[derive(Debug, Clone, PartialEq, Eq, Structural)]
pub enum TryRecvError {
    /// This channel is currently empty, but the sender(s) have not yet disconnected, so data may
    /// yet become available.
    Empty,
    /// The sender has become disconnected, and there will never be any more data received on it.
    Disconnected,
}

impl TryRecvError {
    /// Describes the error.
    pub fn to_string(&self) -> (text: String)
        ensures
            text@ == (match self {
                TryRecvError::Empty => "receiving on an empty channel"@,
                TryRecvError::Disconnected => "receiving on a closed channel"@,
            }),
    {
        match self {
            TryRecvError::Empty => "receiving on an empty channel".to_owned(),
            TryRecvError::Disconnected => "receiving on a closed channel".to_owned(),
        }
    }
}

/// The cursor of each receiver, by the index of its slot.
pub open spec fn cursors_of(receivers: ArenaView<u64>) -> Map<int, nat> {
    Map::new(
        |i: int| 0 <= i < receivers.slots.len() && receivers.slots[i] is Some,
        |i: int| receivers.slots[i]->0 as nat,
    )
}

proof fn lemma_cursors_insert(receivers: ArenaView<u64>, cursor: u64)
    requires
        receivers.wf(),
    ensures
        cursors_of(receivers.insert(cursor)) == cursors_of(receivers).insert(
            receivers.next_index(),
            cursor as nat,
        ),
        !cursors_of(receivers).contains_key(receivers.next_index()),
{
    assert(cursors_of(receivers.insert(cursor)) =~= cursors_of(receivers).insert(
        receivers.next_index(),
        cursor as nat,
    ));
}

proof fn lemma_cursors_set(receivers: ArenaView<u64>, key: ArenaKey, cursor: u64)
    requires
        receivers.contains(key),
    ensures
        cursors_of(receivers.set(key, cursor)) == cursors_of(receivers).insert(
            key.index(),
            cursor as nat,
        ),
{
    assert(cursors_of(receivers.set(key, cursor)) =~= cursors_of(receivers).insert(
        key.index(),
        cursor as nat,
    ));
}

proof fn lemma_cursors_remove(receivers: ArenaView<u64>, key: ArenaKey)
    requires
        receivers.contains(key),
    ensures
        cursors_of(receivers.remove(key)) == cursors_of(receivers).remove(key.index()),
{
    assert(cursors_of(receivers.remove(key)) =~= cursors_of(receivers).remove(key.index()));
}

/// The state that the senders and receivers of one channel share.
///
/// A handle is used with the state of the channel that it was created for.
pub struct Shared<T> {
    /// Buffer, receiver cursors, and parked receivers.
    inner: Inner<T>,
    /// Number of active senders.
    senders: usize,
}

impl<T> View for Shared<T> {
    type V = ChannelView<T>;

    closed spec fn view(&self) -> ChannelView<T> {
        ChannelView {
            sent: self.inner.sent@,
            cursors: cursors_of(self.inner.receivers@),
            senders: self.senders as nat,
            waiters: self.inner.waiters@,
        }
    }
}

impl<T> Shared<T> {
    /// The buffer and the cursors agree with the model, and the waiters were notified no more often
    /// than there were messages and a last disconnect.
    pub closed spec fn wf(&self) -> bool {
        &&& self.inner.wf()
        &&& self@.waiters.epoch <= self@.sent.len() + (if self.senders == 0 {
            1nat
        } else {
            0nat
        })
    }

    /// The messages that are in memory, in order.
    pub closed spec fn buffered(&self) -> Seq<T> {
        payloads(self.inner.buffer@)
    }

    /// The largest backlog retained since the buffer was last empty.
    pub closed spec fn peak(&self) -> nat {
        self.inner.peak_len as nat
    }

    /// The peak is at least the backlog retained now, and is forgotten once the buffer is empty.
    pub proof fn law_peak_covers_the_backlog(&self)
        requires
            self.wf(),
        ensures
            self@.retained().len() <= self.peak(),
            self@.retained().len() == 0 ==> self.peak() == 0,
    {
        self.lemma_view();
        self.inner.lemma_parts();
        self.law_buffer_holds_what_is_unread();
    }

    /// The buffer holds the messages that some receiver has yet to read, and no others.
    pub proof fn law_buffer_holds_what_is_unread(&self)
        requires
            self.wf(),
        ensures
            self@.wf(),
            self.buffered() == self@.retained(),
    {
        self.lemma_view();
        assert(self.buffered() =~= self@.retained());
    }

    /// How the model follows from the buffer and the slots.
    proof fn lemma_view(&self)
        requires
            self.wf(),
        ensures
            self@.wf(),
            self@.tail() == self.inner.tail,
            self@.head() == self.inner.head,
            self.inner.head <= self.inner.tail,
            self.inner.buffer@.len() == self.inner.tail - self.inner.head,
            payloads(self.inner.buffer@) == self@.sent.subrange(
                self.inner.head as int,
                self.inner.tail as int,
            ),
            self.inner.receivers.wf(),
            self.inner.receivers@.wf(),
            self.inner.waiters.wf(),
            self.inner.receivers@.len() == self@.cursors.dom().len(),
            self.inner.receivers@.len() == 0 <==> self@.no_receivers(),
            forall|key: ArenaKey| #[trigger]
                self.inner.receivers@.contains(key) <==> self@.active(key.index()),
            forall|i: int| #[trigger]
                self@.active(i) ==> self.inner.head <= self@.cursors[i] <= self.inner.tail,
    {
        let slots = self.inner.receivers@.slots;
        self.inner.lemma_parts();
        self.inner.receivers.lemma_view_wf();
        self.inner.waiters.lemma_view_wf();
        lemma_count_positions(slots, is_occupied());
        lemma_count_zero(slots, is_occupied());
        assert(self@.cursors.dom() =~= Set::new(
            |i: int| 0 <= i < slots.len() && is_occupied()(slots[i]),
        ));
        assert forall|i: int| #[trigger]
            self@.active(i) implies self.inner.head <= self@.cursors[i] <= self.inner.tail by {
            assert(slots[i] is Some);
        }
        if self.inner.receivers@.len() > 0 {
            let i = slots.index_of(Some(self.inner.head));
            assert(slots[i] == Some(self.inner.head));
            assert(self@.active(i));
            assert(self@.is_slowest(self.inner.head as nat));
            lemma_head_is(self@, self.inner.head as nat);
        } else {
            assert forall|i: int| !#[trigger] self@.active(i) by {
                if self@.active(i) {
                    assert(is_occupied()(slots[i]));
                }
            }
        }
    }

    /// Returns the version that the next message gets, which is the number of messages sent so far.
    pub fn next_version(&self) -> (version: u64)
        requires
            self.wf(),
        ensures
            version == self@.tail(),
            version == self@.sent.len(),
    {
        proof {
            self.lemma_view();
        }
        self.inner.tail
    }

    /// Returns the number of active senders.
    pub fn sender_count(&self) -> (senders: usize)
        ensures
            senders == self@.senders,
    {
        self.senders
    }
}

/// A notification hands out the waker of every receiver that waits, and nobody waits afterwards.
proof fn lemma_notified<T>(view: ChannelView<T>)
    requires
        view.wf(),
    ensures
        view.waiters.all_parked() == occupied_values(view.waiters.wakers.slots),
        view.waiters.all_parked().len() == view.waiters.wakers.len(),
        forall|r: Option<WaitRegistration>|
            (#[trigger] view.waiters.parked(r)) is Some ==> view.waiters.all_parked().contains(
                view.waiters.parked(r)->0,
            ),
        forall|r: Option<WaitRegistration>| (#[trigger] view.waiters.drained().parked(r)) is None,
{
    law_drain_reaches_every_waiter(view.waiters, None);
    assert forall|r: Option<WaitRegistration>|
        (#[trigger] view.waiters.parked(r)) is Some implies view.waiters.all_parked().contains(
        view.waiters.parked(r)->0,
    ) by {
        law_drain_reaches_every_waiter(view.waiters, r);
    }
    assert forall|r: Option<WaitRegistration>|
        (#[trigger] view.waiters.drained().parked(r)) is None by {
        law_drain_empties_the_set(view.waiters, r);
    }
}

/// Creates a new broadcast channel with an unbounded buffer, one sender and one receiver.
pub fn channel<T: Clone>() -> (created: (Shared<T>, Sender<T>, Receiver<T>))
    ensures
        created.0.wf(),
        created.0@ == ChannelView::<T>::initial(created.2@),
        created.0@.sent == Seq::<T>::empty(),
        created.0@.senders == 1,
        created.0@.cursors == map![created.2@ => 0nat],
        forall|r: Option<WaitRegistration>| (#[trigger] created.0@.waiters.parked(r)) is None,
        created.0.peak() == 0,
{
    let (inner, key) = Inner::new();
    let shared = Shared { inner, senders: 1 };
    proof {
        lemma_cursors_insert(ArenaView::<u64>::empty(), 0);
        assert(cursors_of(ArenaView::<u64>::empty()) =~= Map::empty());
        law_new_channel_is_empty::<T>(key.index(), None);
        assert(shared@ == ChannelView::<T>::initial(key.index()));
        assert forall|r: Option<WaitRegistration>| (#[trigger] shared@.waiters.parked(r)) is None by {
            law_new_channel_is_empty::<T>(key.index(), r);
        }
    }
    (shared, Sender { messages: PhantomData }, Receiver { key, messages: PhantomData })
}

/// A sender handle to the broadcast channel.
///
/// Cloning it makes one more producer. When all senders have left, the channel is closed.
pub struct Sender<T> {
    messages: PhantomData<T>,
}

/// A receiver handle to the broadcast channel.
///
/// Each receiver sees every message sent to the channel while the receiver is active.
///
/// Cloning a receiver creates one that shares this receiver's unread backlog, while
/// [`Receiver::resubscribe`] creates one that starts at the current tail instead.
pub struct Receiver<T> {
    key: ArenaKey,
    messages: PhantomData<T>,
}

impl<T> View for Receiver<T> {
    type V = int;

    /// The name of this receiver in the model.
    closed spec fn view(&self) -> int {
        self.key.index()
    }
}

/// What is left to do once a message was sent and the channel is no longer locked.
pub struct Published<T> {
    /// The receivers to notify.
    pub wakers: ArenaValues<Waker>,
    /// The message, when there was no receiver to read it.
    pub unsent: Option<Arc<T>>,
}

impl<T> Sender<T> {
    /// Adds a sender to the channel.
    pub fn clone(&self, shared: &mut Shared<T>) -> (sender: Sender<T>)
        requires
            old(shared).wf(),
            0 < old(shared)@.senders < usize::MAX,
        ensures
            final(shared).wf(),
            final(shared)@ == old(shared)@.after_clone_sender(),
            final(shared)@.senders == old(shared)@.senders + 1,
            final(shared)@.sent == old(shared)@.sent,
            final(shared)@.cursors == old(shared)@.cursors,
            final(shared)@.waiters == old(shared)@.waiters,
            final(shared).peak() == old(shared).peak(),
    {
        shared.senders = shared.senders + 1;
        Sender { messages: PhantomData }
    }

    /// Takes this sender out of the channel.
    ///
    /// Returns the receivers to notify: when the last sender leaves, all that are waiting, so that
    /// they can observe the disconnected state.
    pub fn disconnect(self, shared: &mut Shared<T>) -> (wakers: Option<ArenaValues<Waker>>)
        requires
            old(shared).wf(),
            old(shared)@.senders > 0,
        ensures
            final(shared).wf(),
            final(shared)@ == old(shared)@.after_drop_sender(),
            match wakers {
                Some(wakers) => old(shared)@.senders == 1 && wakers@
                    == old(shared)@.waiters.all_parked(),
                None => old(shared)@.senders > 1,
            },
            final(shared)@.senders + 1 == old(shared)@.senders,
            wakers is Some <==> final(shared)@.senders == 0,
            final(shared)@.sent == old(shared)@.sent,
            final(shared)@.cursors == old(shared)@.cursors,
            wakers is None ==> final(shared)@.waiters == old(shared)@.waiters,
            wakers is Some ==> wakers->0@ == occupied_values(old(shared)@.waiters.wakers.slots),
            wakers is Some ==> wakers->0@.len() == old(shared)@.waiters.wakers.len(),
            forall|r: Option<WaitRegistration>|
                wakers is Some && (#[trigger] old(shared)@.waiters.parked(r)) is Some
                    ==> wakers->0@.contains(old(shared)@.waiters.parked(r)->0),
            forall|r: Option<WaitRegistration>|
                wakers is Some ==> (#[trigger] final(shared)@.waiters.parked(r)) is None,
            final(shared).peak() == old(shared).peak(),
    {
        proof {
            shared.lemma_view();
            lemma_notified(shared@);
        }
        shared.senders = shared.senders - 1;
        if shared.senders == 0 {
            Some(shared.inner.take_wakers())
        } else {
            None
        }
    }

    /// Broadcasts a value to all active receivers.
    ///
    /// This operation does not wait for receiver capacity. If receivers fall behind, messages
    /// remain buffered until all active receivers have consumed them or the lagging receivers have
    /// left.
    ///
    /// If no receivers are active, the message is handed back and not buffered.
    pub fn send(&self, shared: &mut Shared<T>, msg: T) -> (published: Published<T>)
        requires
            old(shared).wf(),
            old(shared)@.senders > 0,
            old(shared)@.tail() < u64::MAX,
        ensures
            final(shared).wf(),
            final(shared)@ == old(shared)@.after_send(msg),
            published.wakers@ == old(shared)@.waiters.all_parked(),
            match published.unsent {
                Some(message) => old(shared)@.no_receivers() && *message == msg,
                None => !old(shared)@.no_receivers(),
            },
            final(shared)@.sent == old(shared)@.sent.push(msg),
            final(shared)@.cursors == old(shared)@.cursors,
            final(shared)@.senders == old(shared)@.senders,
            forall|k: int| #[trigger]
                old(shared)@.active(k) ==> final(shared)@.unread(k) == old(shared)@.unread(k).push(
                    msg,
                ),
            old(shared)@.no_receivers() ==> final(shared)@.retained().len() == 0,
            !old(shared)@.no_receivers() ==> final(shared)@.retained()
                == old(shared)@.retained().push(msg),
            published.wakers@ == occupied_values(old(shared)@.waiters.wakers.slots),
            published.wakers@.len() == old(shared)@.waiters.wakers.len(),
            forall|r: Option<WaitRegistration>|
                (#[trigger] old(shared)@.waiters.parked(r)) is Some ==> published.wakers@.contains(
                    old(shared)@.waiters.parked(r)->0,
                ),
            forall|r: Option<WaitRegistration>|
                (#[trigger] final(shared)@.waiters.parked(r)) is None,
            final(shared).peak() == (if final(shared)@.retained().len() > old(shared).peak() {
                final(shared)@.retained().len()
            } else {
                old(shared).peak()
            }),
    {
        let ghost before = *shared;
        proof {
            shared.lemma_view();
            lemma_notified(shared@);
            law_send_reaches_every_receiver(shared@, msg);
            if shared@.no_receivers() {
                law_send_without_receivers_retains_nothing(shared@, msg, 0);
            }
        }
        let unsent = shared.inner.publish(Arc::new(msg));
        let wakers = shared.inner.take_wakers();
        proof {
            shared.law_buffer_holds_what_is_unread();
            assert(payloads(shared.inner.buffer@).len() == shared.inner.buffer@.len());
            before.law_peak_covers_the_backlog();
        }
        Published { wakers, unsent }
    }

    /// Returns the number of messages currently retained by the shared buffer.
    ///
    /// This is not the number of messages any single receiver can still read. It is the shared
    /// backlog kept alive by the slowest active receiver.
    pub fn buffer_len(&self, shared: &Shared<T>) -> (len: usize)
        requires
            shared.wf(),
        ensures
            len == shared@.retained().len(),
            len == shared.buffered().len(),
            shared@.no_receivers() ==> len == 0,
            !shared@.no_receivers() ==> exists|k: int| #[trigger]
                shared@.active(k) && shared@.unread(k).len() == len,
            forall|k: int| #[trigger] shared@.active(k) ==> shared@.unread(k).len() <= len,
    {
        proof {
            shared.law_buffer_holds_what_is_unread();
            law_retained_is_the_longest_backlog(shared@);
        }
        shared.inner.buffer.len()
    }

    /// Returns the number of active receivers.
    pub fn receiver_count(&self, shared: &Shared<T>) -> (receivers: usize)
        requires
            shared.wf(),
        ensures
            receivers == shared@.cursors.dom().len(),
    {
        proof {
            shared.lemma_view();
        }
        shared.inner.receivers.len()
    }

    /// Creates a new receiver that starts receiving messages from the current tail of the channel.
    pub fn subscribe(&self, shared: &mut Shared<T>) -> (receiver: Receiver<T>)
        requires
            old(shared).wf(),
        ensures
            final(shared).wf(),
            !old(shared)@.active(receiver@),
            final(shared)@ == old(shared)@.after_subscribe(receiver@),
            final(shared)@.cursors == old(shared)@.cursors.insert(
                receiver@,
                old(shared)@.sent.len(),
            ),
            final(shared)@.unread(receiver@).len() == 0,
            forall|k: int| #[trigger]
                old(shared)@.active(k) ==> final(shared)@.unread(k) == old(shared)@.unread(k),
            final(shared)@.retained() == old(shared)@.retained(),
            final(shared)@.cursors.dom().len() == old(shared)@.cursors.dom().len() + 1,
            final(shared)@.sent == old(shared)@.sent,
            final(shared)@.senders == old(shared)@.senders,
            final(shared)@.waiters == old(shared)@.waiters,
            final(shared).peak() == old(shared).peak(),
    {
        proof {
            shared.lemma_view();
            lemma_cursors_insert(shared.inner.receivers@, shared.inner.tail);
            law_subscribe_starts_at_the_tail(shared@, shared.inner.receivers@.next_index());
        }
        let head = shared.inner.tail;
        let key = shared.inner.insert_receiver(head);
        Receiver { key, messages: PhantomData }
    }
}

/// The outcome of one attempt of a receiver that waits for its next message.
pub enum RecvPoll<T> {
    /// The wait is over, with the message and what was reclaimed along with it, or because no
    /// message will ever come.
    Ready(Result<(Arc<T>, Vec<Arc<T>>), RecvError>),
    /// The receiver is parked until it is notified.
    Pending,
}

impl<T> Receiver<T> {
    /// Adds a receiver to the channel that starts from this receiver's current position.
    ///
    /// The clone reads this receiver's unread backlog and every later message. Use
    /// [`Receiver::resubscribe`] instead to start at the current tail and skip the backlog.
    pub fn clone(&self, shared: &mut Shared<T>) -> (receiver: Receiver<T>)
        requires
            old(shared).wf(),
            old(shared)@.active(self@),
        ensures
            final(shared).wf(),
            !old(shared)@.active(receiver@),
            final(shared)@ == old(shared)@.after_clone_receiver(self@, receiver@),
            final(shared)@.cursors == old(shared)@.cursors.insert(
                receiver@,
                old(shared)@.cursors[self@],
            ),
            final(shared)@.unread(receiver@) == old(shared)@.unread(self@),
            forall|k: int| #[trigger]
                old(shared)@.active(k) ==> final(shared)@.unread(k) == old(shared)@.unread(k),
            final(shared)@.retained() == old(shared)@.retained(),
            final(shared)@.cursors.dom().len() == old(shared)@.cursors.dom().len() + 1,
            final(shared)@.sent == old(shared)@.sent,
            final(shared)@.senders == old(shared)@.senders,
            final(shared)@.waiters == old(shared)@.waiters,
            final(shared).peak() == old(shared).peak(),
    {
        proof {
            shared.lemma_view();
        }
        let head = self.cursor(shared);
        proof {
            lemma_cursors_insert(shared.inner.receivers@, head);
            law_clone_shares_the_backlog(
                shared@,
                self@,
                shared.inner.receivers@.next_index(),
            );
        }
        let key = shared.inner.insert_receiver(head);
        Receiver { key, messages: PhantomData }
    }

    /// The version that this receiver reads next.
    fn cursor(&self, shared: &Shared<T>) -> (cursor: u64)
        requires
            shared.wf(),
            shared@.active(self@),
        ensures
            cursor == shared@.cursors[self@],
            shared.inner.receivers@.get(self.key) == Some(cursor),
            shared.inner.head <= cursor <= shared.inner.tail,
    {
        proof {
            shared.lemma_view();
        }
        match shared.inner.receivers.get(self.key) {
            Some(cursor) => *cursor,
            None => unreached(),
        }
    }

    /// Takes this receiver out of the channel.
    ///
    /// Returns the messages that only this receiver had yet to read, oldest first.
    pub fn disconnect(self, shared: &mut Shared<T>) -> (reclaimed: Vec<Arc<T>>)
        requires
            old(shared).wf(),
            old(shared)@.active(self@),
        ensures
            final(shared).wf(),
            final(shared)@ == old(shared)@.after_drop_receiver(self@),
            payloads(reclaimed@) == old(shared)@.sent.subrange(
                old(shared)@.head() as int,
                final(shared)@.head() as int,
            ),
            payloads(reclaimed@) + final(shared)@.retained() == old(shared)@.retained(),
            final(shared)@.cursors == old(shared)@.cursors.remove(self@),
            forall|k: int| #[trigger]
                old(shared)@.active(k) && k != self@ ==> final(shared)@.unread(k)
                    == old(shared)@.unread(k),
            final(shared)@.cursors.dom().len() + 1 == old(shared)@.cursors.dom().len(),
            final(shared)@.sent == old(shared)@.sent,
            final(shared)@.senders == old(shared)@.senders,
            final(shared)@.waiters == old(shared)@.waiters,
            final(shared).peak() == (if final(shared)@.retained().len() == 0 {
                0
            } else {
                old(shared).peak()
            }),
    {
        let ghost before = *shared;
        proof {
            shared.lemma_view();
            lemma_cursors_remove(shared.inner.receivers@, self.key);
            law_leaving_receiver_releases_its_backlog(shared@, self@);
        }
        let reclaimed = shared.inner.remove_receiver(self.key);
        proof {
            shared.lemma_view();
            shared.law_buffer_holds_what_is_unread();
            assert(payloads(shared.inner.buffer@).len() == shared.inner.buffer@.len());
            assert(payloads(reclaimed@) + shared@.retained() =~= before@.retained());
        }
        reclaimed
    }

    /// Attempts to receive the next message for this receiver, without cloning it.
    ///
    /// Returns the shared message and the messages that were reclaimed along with it. Once the
    /// channel is no longer locked, [`take_msg`] turns both into the received value.
    pub fn try_recv_shared(&mut self, shared: &mut Shared<T>) -> (received: Result<
        (Arc<T>, Vec<Arc<T>>),
        TryRecvError,
    >)
        requires
            old(shared).wf(),
            old(shared)@.active(old(self)@),
        ensures
            *final(self) == *old(self),
            final(shared).wf(),
            received is Ok <==> old(shared)@.unread(old(self)@).len() > 0,
            match received {
                Ok((message, reclaimed)) => {
                    &&& old(shared)@.unread(old(self)@).len() > 0
                    &&& final(shared)@ == old(shared)@.after_receive(old(self)@)
                    &&& old(shared)@.delivers(old(self)@, message, reclaimed@)
                    &&& *message == old(shared)@.unread(old(self)@)[0]
                    &&& final(shared)@.unread(old(self)@) == old(shared)@.unread(old(self)@).skip(1)
                    &&& payloads(reclaimed@) + final(shared)@.retained() == old(shared)@.retained()
                    &&& reclaimed@.len() > 0 ==> reclaimed@[0] == message
                    &&& final(shared)@.cursors == old(shared)@.cursors.insert(
                        old(self)@,
                        old(shared)@.cursors[old(self)@] + 1,
                    )
                    &&& final(shared)@.sent == old(shared)@.sent
                    &&& final(shared)@.senders == old(shared)@.senders
                    &&& final(shared)@.waiters == old(shared)@.waiters
                    &&& final(shared).peak() == (if final(shared)@.retained().len() == 0 {
                        0
                    } else {
                        old(shared).peak()
                    })
                },
                Err(TryRecvError::Empty) => {
                    &&& old(shared)@.unread(old(self)@).len() == 0
                    &&& old(shared)@.senders > 0
                    &&& *final(shared) == *old(shared)
                },
                Err(TryRecvError::Disconnected) => {
                    &&& old(shared)@.unread(old(self)@).len() == 0
                    &&& old(shared)@.senders == 0
                    &&& *final(shared) == *old(shared)
                },
            },
    {
        let ghost before = *shared;
        proof {
            shared.lemma_view();
            assert(shared@.active(self@));
        }
        // The cursor comes first: a message that was sent before the last sender left is still
        // delivered.
        match shared.inner.receive(self.key) {
            Some(received) => {
                proof {
                    let cursor = before.inner.receivers@.get(self.key)->0;
                    lemma_cursors_set(before.inner.receivers@, self.key, (cursor + 1) as u64);
                    shared.lemma_view();
                    law_receive_delivers_the_oldest_unread(
                        before@,
                        self@,
                        received.0,
                        received.1@,
                    );
                    law_receive_takes_nothing_from_others(before@, self@);
                    shared.law_buffer_holds_what_is_unread();
                    assert(payloads(shared.inner.buffer@).len() == shared.inner.buffer@.len());
                }
                Ok(received)
            },
            None => {
                if shared.senders == 0 {
                    Err(TryRecvError::Disconnected)
                } else {
                    Err(TryRecvError::Empty)
                }
            },
        }
    }

    /// Attempts to receive the next message, and parks the receiver when there is none yet.
    ///
    /// `registration` is where a waiting receiver keeps its place among the parked ones. It starts
    /// as `None` and is passed again to every further attempt.
    ///
    /// Also returns the waker that is no longer needed, to be dropped once the channel is no longer
    /// locked: the one that was parked before, or `waker` itself when the wait is over.
    pub fn poll_recv(
        &mut self,
        shared: &mut Shared<T>,
        registration: &mut Option<WaitRegistration>,
        waker: Waker,
    ) -> (polled: (RecvPoll<T>, Option<Waker>))
        requires
            old(shared).wf(),
            old(shared)@.active(old(self)@),
        ensures
            *final(self) == *old(self),
            final(shared).wf(),
            match polled.0 {
                RecvPoll::Ready(Ok((message, reclaimed))) => {
                    &&& old(shared)@.unread(old(self)@).len() > 0
                    &&& final(shared)@ == old(shared)@.after_receive(old(self)@)
                    &&& old(shared)@.delivers(old(self)@, message, reclaimed@)
                    &&& *message == old(shared)@.unread(old(self)@)[0]
                    &&& final(shared)@.unread(old(self)@) == old(shared)@.unread(old(self)@).skip(1)
                    &&& payloads(reclaimed@) + final(shared)@.retained() == old(shared)@.retained()
                    &&& reclaimed@.len() > 0 ==> reclaimed@[0] == message
                    &&& final(shared)@.cursors == old(shared)@.cursors.insert(
                        old(self)@,
                        old(shared)@.cursors[old(self)@] + 1,
                    )
                    &&& final(shared)@.sent == old(shared)@.sent
                    &&& final(shared)@.senders == old(shared)@.senders
                    &&& final(shared)@.waiters == old(shared)@.waiters
                    &&& final(shared).peak() == (if final(shared)@.retained().len() == 0 {
                        0
                    } else {
                        old(shared).peak()
                    })
                    &&& *final(registration) is None
                    &&& polled.1 == Some(waker)
                },
                RecvPoll::Ready(Err(RecvError::Disconnected)) => {
                    &&& old(shared)@.unread(old(self)@).len() == 0
                    &&& old(shared)@.senders == 0
                    &&& *final(shared) == *old(shared)
                    &&& *final(registration) is None
                    &&& polled.1 == Some(waker)
                },
                RecvPoll::Pending => {
                    &&& old(shared)@.unread(old(self)@).len() == 0
                    &&& old(shared)@.senders > 0
                    &&& final(shared)@ == old(shared)@.after_park(*old(registration), waker)
                    &&& old(shared)@.waiters.registered(*old(registration), *final(registration))
                    &&& polled.1 == old(shared)@.waiters.parked(*old(registration))
                    &&& final(shared)@.sent == old(shared)@.sent
                    &&& final(shared)@.cursors == old(shared)@.cursors
                    &&& final(shared)@.senders == old(shared)@.senders
                    &&& *final(registration) is Some
                    &&& final(shared)@.waiters.parked(*final(registration)) == Some(waker)
                    &&& final(shared)@.waiters.epoch == old(shared)@.waiters.epoch
                    &&& final(shared)@.waiters.wakers.len() == old(shared)@.waiters.wakers.len() + (
                    if polled.1 is Some {
                        0nat
                    } else {
                        1nat
                    })
                    &&& forall|other: WaitRegistration|
                        other.key() != (*final(registration))->0.key() ==> #[trigger] final(shared)@.waiters.parked(Some(other)) == old(shared)@.waiters.parked(Some(other))
                    &&& final(shared).peak() == old(shared).peak()
                },
            },
    {
        match self.try_recv_shared(shared) {
            Ok(received) => {
                *registration = None;
                (RecvPoll::Ready(Ok(received)), Some(waker))
            },
            Err(TryRecvError::Disconnected) => {
                *registration = None;
                (RecvPoll::Ready(Err(RecvError::Disconnected)), Some(waker))
            },
            Err(TryRecvError::Empty) => {
                let replaced = shared.inner.register_waker(registration, waker);
                (RecvPoll::Pending, replaced)
            },
        }
    }

    /// Gives up waiting for a message.
    ///
    /// Returns the waker that was parked, to be dropped once the channel is no longer locked.
    pub fn cancel_recv(
        &mut self,
        shared: &mut Shared<T>,
        registration: &mut Option<WaitRegistration>,
    ) -> (waker: Option<Waker>)
        requires
            old(shared).wf(),
        ensures
            *final(self) == *old(self),
            final(shared).wf(),
            final(shared)@ == old(shared)@.after_cancel(*old(registration)),
            *final(registration) is None,
            waker == old(shared)@.waiters.parked(*old(registration)),
            final(shared)@.sent == old(shared)@.sent,
            final(shared)@.cursors == old(shared)@.cursors,
            final(shared)@.senders == old(shared)@.senders,
            final(shared)@.waiters.parked(*old(registration)) is None,
            final(shared)@.waiters.epoch == old(shared)@.waiters.epoch,
            waker is None ==> final(shared)@ == old(shared)@,
            waker is Some ==> final(shared)@.waiters.wakers.len() + 1
                == old(shared)@.waiters.wakers.len(),
            forall|other: WaitRegistration|
                *old(registration) is Some && other.key() != (*old(registration))->0.key()
                    ==> #[trigger] final(shared)@.waiters.parked(Some(other)) == old(shared)@.waiters.parked(Some(other)),
            final(shared).peak() == old(shared).peak(),
    {
        shared.inner.unregister_waker(registration)
    }

    /// Re-subscribes to the channel, returning a new receiver that starts receiving messages from
    /// the *current* tail of the channel.
    ///
    /// This is useful if the receiver wants to jump to the latest message, skipping everything in
    /// between. The original receiver is unchanged and continues to retain its own backlog until
    /// it consumes those messages or leaves.
    pub fn resubscribe(&self, shared: &mut Shared<T>) -> (receiver: Receiver<T>)
        requires
            old(shared).wf(),
        ensures
            final(shared).wf(),
            !old(shared)@.active(receiver@),
            final(shared)@ == old(shared)@.after_subscribe(receiver@),
            final(shared)@.cursors == old(shared)@.cursors.insert(
                receiver@,
                old(shared)@.sent.len(),
            ),
            final(shared)@.unread(receiver@).len() == 0,
            forall|k: int| #[trigger]
                old(shared)@.active(k) ==> final(shared)@.unread(k) == old(shared)@.unread(k),
            final(shared)@.retained() == old(shared)@.retained(),
            final(shared)@.cursors.dom().len() == old(shared)@.cursors.dom().len() + 1,
            final(shared)@.sent == old(shared)@.sent,
            final(shared)@.senders == old(shared)@.senders,
            final(shared)@.waiters == old(shared)@.waiters,
            final(shared).peak() == old(shared).peak(),
    {
        proof {
            shared.lemma_view();
            lemma_cursors_insert(shared.inner.receivers@, shared.inner.tail);
            law_subscribe_starts_at_the_tail(shared@, shared.inner.receivers@.next_index());
        }
        let head = shared.inner.tail;
        let key = shared.inner.insert_receiver(head);
        Receiver { key, messages: PhantomData }
    }

    /// Returns the number of messages this receiver can still read.
    ///
    /// This count is specific to this receiver, unlike [`Sender::buffer_len`], which reports the
    /// shared backlog retained by the slowest active receiver.
    pub fn len(&self, shared: &Shared<T>) -> (len: usize)
        requires
            shared.wf(),
            shared@.active(self@),
        ensures
            len == shared@.unread(self@).len(),
            len == shared@.sent.len() - shared@.cursors[self@],
    {
        proof {
            shared.lemma_view();
        }
        let head = self.cursor(shared);
        assert(shared.inner.buffer@.len() == shared.inner.buffer.len());
        (shared.inner.tail - head) as usize
    }

    /// Returns `true` if this receiver has no currently available messages.
    pub fn is_empty(&self, shared: &Shared<T>) -> (empty: bool)
        requires
            shared.wf(),
            shared@.active(self@),
        ensures
            empty <==> shared@.unread(self@).len() == 0,
    {
        self.len(shared) == 0
    }
}

impl<T: Clone> Receiver<T> {
    /// Attempts to receive the next value for this receiver without blocking.
    pub fn try_recv(&mut self, shared: &mut Shared<T>) -> (received: Result<T, TryRecvError>)
        requires
            old(shared).wf(),
            old(shared)@.active(old(self)@),
        ensures
            *final(self) == *old(self),
            final(shared).wf(),
            received is Ok <==> old(shared)@.unread(old(self)@).len() > 0,
            match received {
                Ok(value) => {
                    &&& old(shared)@.unread(old(self)@).len() > 0
                    &&& final(shared)@ == old(shared)@.after_receive(old(self)@)
                    &&& final(shared)@.unread(old(self)@) == old(shared)@.unread(old(self)@).skip(1)
                    &&& final(shared)@.cursors == old(shared)@.cursors.insert(
                        old(self)@,
                        old(shared)@.cursors[old(self)@] + 1,
                    )
                    &&& final(shared)@.sent == old(shared)@.sent
                    &&& final(shared)@.senders == old(shared)@.senders
                    &&& final(shared)@.waiters == old(shared)@.waiters
                    &&& final(shared).peak() == (if final(shared)@.retained().len() == 0 {
                        0
                    } else {
                        old(shared).peak()
                    })
                    &&& cloned(old(shared)@.unread(old(self)@)[0], value)
                },
                Err(TryRecvError::Empty) => {
                    &&& old(shared)@.unread(old(self)@).len() == 0
                    &&& old(shared)@.senders > 0
                    &&& *final(shared) == *old(shared)
                },
                Err(TryRecvError::Disconnected) => {
                    &&& old(shared)@.unread(old(self)@).len() == 0
                    &&& old(shared)@.senders == 0
                    &&& *final(shared) == *old(shared)
                },
            },
    {
        proof {
            shared.lemma_view();
            assert(shared@.active(self@));
        }
        match self.try_recv_shared(shared) {
            Ok((message, reclaimed)) => Ok(take_msg(message, reclaimed)),
            Err(error) => Err(error),
        }
    }
}

/// Drops the reclaimed backlog, then yields the received message.
///
/// A non-empty backlog means this receive drained `msg` from the buffer, so once the backlog is
/// dropped this receive holds the only reference and the payload can be moved out instead of
/// cloned. A channel with a single receiver therefore never clones a payload.
pub fn take_msg<T: Clone>(msg: Arc<T>, reclaimed: Vec<Arc<T>>) -> (value: T)
    ensures
        cloned(*msg, value),
        reclaimed@.len() == 0 ==> strictly_cloned(*msg, value),
{
    let sole_owner = discard(reclaimed);
    if !sole_owner {
        return (*msg).clone();
    }
    owned_or_cloned(arc_try_unwrap(msg))
}

/// Yields a message that may have been the last reference to its payload.
///
/// The payload is moved out when it was. Another receiver can still hold an in-flight reference to
/// the same message, so the clone remains the fallback.
pub fn owned_or_cloned<T: Clone>(unwrapped: Result<T, Arc<T>>) -> (value: T)
    ensures
        match unwrapped {
            Ok(owned) => value == owned,
            Err(shared) => strictly_cloned(*shared, value),
        },
{
    match unwrapped {
        Ok(value) => value,
        Err(shared) => (*shared).clone(),
    }
}

/// Drops the messages and tells whether there were any.
fn discard<A>(messages: Vec<A>) -> (any: bool)
    ensures
        any <==> messages@.len() > 0,
{
    !messages.is_empty()
}

} // verus!
