//! What a channel is: the messages sent so far, and how far each receiver has read.

use std::sync::Arc;
use std::task::Waker;

use vstd::prelude::*;

use crate::broadcast::unbounded::inner::payloads;
use crate::internal::waitset::WaitRegistration;
use crate::internal::waitset::WaitSetView;

verus! {

/// The abstract state of a channel.
///
/// The version of a message is its position in `sent`.
#[verifier::ext_equal]
pub struct ChannelView<T> {
    /// Every message sent so far, in the order of sending.
    pub sent: Seq<T>,
    /// For each active receiver, the version that it reads next.
    pub cursors: Map<int, nat>,
    /// The number of active senders.
    pub senders: nat,
    /// The receivers that wait for a message.
    pub waiters: WaitSetView<Waker>,
}

impl<T> ChannelView<T> {
    /// A channel with one sender and the one receiver `receiver`, and without messages.
    pub open spec fn initial(receiver: int) -> Self {
        ChannelView {
            sent: Seq::empty(),
            cursors: Map::empty().insert(receiver, 0),
            senders: 1,
            waiters: WaitSetView::empty(),
        }
    }

    /// There are finitely many receivers, and none has read past the last message.
    pub open spec fn wf(self) -> bool {
        &&& self.cursors.dom().finite()
        &&& forall|k: int| #[trigger] self.active(k) ==> self.cursors[k] <= self.tail()
        &&& self.waiters.wf()
    }

    /// The version that the next message gets.
    pub open spec fn tail(self) -> nat {
        self.sent.len()
    }

    /// Whether `k` is an active receiver.
    pub open spec fn active(self, k: int) -> bool {
        self.cursors.contains_key(k)
    }

    /// Whether no receiver is active.
    pub open spec fn no_receivers(self) -> bool {
        forall|k: int| !#[trigger] self.active(k)
    }

    /// The messages that receiver `k` can still read, in order.
    pub open spec fn unread(self, k: int) -> Seq<T> {
        self.sent.skip(self.cursors[k] as int)
    }

    /// Whether `version` is the cursor of the slowest receiver.
    pub open spec fn is_slowest(self, version: nat) -> bool {
        &&& exists|k: int| #[trigger] self.active(k) && self.cursors[k] == version
        &&& forall|k: int| #[trigger] self.active(k) ==> version <= self.cursors[k]
    }

    /// The first version that some receiver has not read, or the tail when there is no receiver.
    pub open spec fn head(self) -> nat {
        if self.no_receivers() {
            self.tail()
        } else {
            choose|version: nat| self.is_slowest(version)
        }
    }

    /// The messages that the channel keeps, in order.
    pub open spec fn retained(self) -> Seq<T> {
        self.sent.skip(self.head() as int)
    }

    /// The channel after `message` was sent. Every waiting receiver is notified.
    pub open spec fn after_send(self, message: T) -> Self {
        ChannelView { sent: self.sent.push(message), waiters: self.waiters.drained(), ..self }
    }

    /// The channel after one more sender joined.
    pub open spec fn after_clone_sender(self) -> Self {
        ChannelView { senders: self.senders + 1, ..self }
    }

    /// The channel after a sender left. The last one notifies every waiting receiver.
    pub open spec fn after_drop_sender(self) -> Self {
        ChannelView {
            senders: (self.senders - 1) as nat,
            waiters: if self.senders == 1 {
                self.waiters.drained()
            } else {
                self.waiters
            },
            ..self
        }
    }

    /// The channel after receiver `k` joined at the tail.
    pub open spec fn after_subscribe(self, k: int) -> Self {
        ChannelView { cursors: self.cursors.insert(k, self.tail()), ..self }
    }

    /// The channel after receiver `k` joined at the position of receiver `from`.
    pub open spec fn after_clone_receiver(self, from: int, k: int) -> Self {
        ChannelView { cursors: self.cursors.insert(k, self.cursors[from]), ..self }
    }

    /// The channel after receiver `k` read its next message.
    pub open spec fn after_receive(self, k: int) -> Self {
        ChannelView { cursors: self.cursors.insert(k, self.cursors[k] + 1), ..self }
    }

    /// Whether `message` and `reclaimed` are what receiver `k` gets from its next receive: the
    /// message at its cursor, and the messages that nobody else has yet to read.
    pub open spec fn delivers(self, k: int, message: Arc<T>, reclaimed: Seq<Arc<T>>) -> bool {
        &&& *message == self.sent[self.cursors[k] as int]
        &&& payloads(reclaimed) == self.sent.subrange(
            self.head() as int,
            self.after_receive(k).head() as int,
        )
        &&& reclaimed.len() > 0 ==> reclaimed[0] == message
    }

    /// The channel after receiver `k` left.
    pub open spec fn after_drop_receiver(self, k: int) -> Self {
        ChannelView { cursors: self.cursors.remove(k), ..self }
    }

    /// The channel after a receiver parked `waker` to wait for a message.
    pub open spec fn after_park(self, registration: Option<WaitRegistration>, waker: Waker) -> Self {
        ChannelView { waiters: self.waiters.register(registration, waker), ..self }
    }

    /// The channel after a receiver gave up waiting.
    pub open spec fn after_cancel(self, registration: Option<WaitRegistration>) -> Self {
        ChannelView { waiters: self.waiters.unregister(registration), ..self }
    }
}

/// Some receiver is the slowest, as soon as there is one.
proof fn lemma_slowest_exists<T>(view: ChannelView<T>, k: int)
    requires
        view.active(k),
    ensures
        exists|version: nat| view.is_slowest(version),
    decreases view.cursors[k],
{
    if exists|j: int| #[trigger] view.active(j) && view.cursors[j] < view.cursors[k] {
        let j = choose|j: int| #[trigger] view.active(j) && view.cursors[j] < view.cursors[k];
        lemma_slowest_exists(view, j);
    } else {
        assert(view.is_slowest(view.cursors[k]));
    }
}

/// The channel keeps messages from the cursor of the slowest receiver on, and none when there is
/// no receiver.
pub proof fn law_head_is_the_slowest_cursor<T>(view: ChannelView<T>)
    ensures
        view.no_receivers() ==> view.head() == view.tail(),
        !view.no_receivers() ==> view.is_slowest(view.head()),
{
    if !view.no_receivers() {
        let k = choose|k: int| view.active(k);
        lemma_slowest_exists(view, k);
    }
}

/// A slowest cursor is the position from which the channel keeps messages.
pub proof fn lemma_head_is<T>(view: ChannelView<T>, version: nat)
    requires
        view.is_slowest(version),
    ensures
        view.head() == version,
{
    law_head_is_the_slowest_cursor(view);
    let k = choose|k: int| #[trigger] view.active(k) && view.cursors[k] == version;
    assert(view.active(k));
    let head = view.head();
    let j = choose|j: int| #[trigger] view.active(j) && view.cursors[j] == head;
    assert(view.active(j));
}

} // verus!
