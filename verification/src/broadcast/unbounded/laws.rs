//! What holds of every channel, whatever its senders and receivers do.

use std::sync::Arc;
use std::task::Waker;

use vstd::calc;
use vstd::prelude::*;

use crate::broadcast::unbounded::inner::payloads;
use crate::broadcast::unbounded::inner::shrink_decision;
use crate::broadcast::unbounded::inner::MIN_RETAINED_CAPACITY;
use crate::broadcast::unbounded::model::law_head_is_the_slowest_cursor;
use crate::broadcast::unbounded::model::lemma_head_is;
use crate::broadcast::unbounded::model::ChannelView;
use crate::internal::arena::law_key_is_its_index;
use crate::internal::counting::count;
use crate::internal::waitset::law_drain_empties_the_set;
use crate::internal::waitset::law_drain_reaches_every_waiter;
use crate::internal::waitset::law_register_adds_at_most_one;
use crate::internal::waitset::law_register_keeps_others;
use crate::internal::waitset::law_registered_waker_is_parked;
use crate::internal::waitset::law_unregister_keeps_others;
use crate::internal::waitset::law_unregister_takes_out_one;
use crate::internal::waitset::law_wait_set_stays_consistent;
use crate::internal::waitset::WaitRegistration;

verus! {

/// One operation of a sender or a receiver.
pub enum ChannelOp<T> {
    Send { message: T },
    CloneSender,
    DropSender,
    Subscribe { receiver: int },
    CloneReceiver { from: int, receiver: int },
    Receive { receiver: int },
    DropReceiver { receiver: int },
    Park { receiver: int, registration: Option<WaitRegistration>, waker: Waker },
    Cancel { registration: Option<WaitRegistration> },
}

impl<T> ChannelView<T> {
    /// Whether the operation can happen: it takes a sender to send or to leave as a sender, an
    /// active receiver to receive, to wait or to leave as a receiver, and a new receiver gets a
    /// name that no active one has.
    pub open spec fn allows(self, op: ChannelOp<T>) -> bool {
        match op {
            ChannelOp::Send { .. } => self.senders > 0,
            ChannelOp::CloneSender => self.senders > 0,
            ChannelOp::DropSender => self.senders > 0,
            ChannelOp::Subscribe { receiver } => !self.active(receiver),
            ChannelOp::CloneReceiver { from, receiver } => self.active(from) && !self.active(
                receiver,
            ),
            ChannelOp::Receive { receiver } => self.active(receiver),
            ChannelOp::DropReceiver { receiver } => self.active(receiver),
            ChannelOp::Park { receiver, .. } => self.active(receiver),
            ChannelOp::Cancel { .. } => true,
        }
    }

    /// The channel after the operation. A receive without an unread message changes nothing, and a
    /// receiver parks only when it has no unread message and there is still a sender.
    pub open spec fn step(self, op: ChannelOp<T>) -> Self {
        match op {
            ChannelOp::Send { message } => self.after_send(message),
            ChannelOp::CloneSender => self.after_clone_sender(),
            ChannelOp::DropSender => self.after_drop_sender(),
            ChannelOp::Subscribe { receiver } => self.after_subscribe(receiver),
            ChannelOp::CloneReceiver { from, receiver } => self.after_clone_receiver(
                from,
                receiver,
            ),
            ChannelOp::Receive { receiver } => if self.unread(receiver).len() > 0 {
                self.after_receive(receiver)
            } else {
                self
            },
            ChannelOp::DropReceiver { receiver } => self.after_drop_receiver(receiver),
            ChannelOp::Park { receiver, registration, waker } => if self.unread(receiver).len() == 0
                && self.senders > 0 {
                self.after_park(registration, waker)
            } else {
                self
            },
            ChannelOp::Cancel { registration } => self.after_cancel(registration),
        }
    }

    /// The messages that receiver `k` reads by the operation.
    pub open spec fn reads(self, op: ChannelOp<T>, k: int) -> Seq<T> {
        if op == (ChannelOp::<T>::Receive { receiver: k }) && self.unread(k).len() > 0 {
            seq![self.unread(k)[0]]
        } else {
            Seq::empty()
        }
    }

    /// The channel after a series of operations.
    pub open spec fn run(self, ops: Seq<ChannelOp<T>>) -> Self
        decreases ops.len(),
    {
        if ops.len() == 0 {
            self
        } else {
            self.run(ops.drop_last()).step(ops.last())
        }
    }

    /// Whether each operation of the series can happen when its turn comes.
    pub open spec fn allows_all(self, ops: Seq<ChannelOp<T>>) -> bool
        decreases ops.len(),
    {
        ops.len() > 0 ==> self.allows_all(ops.drop_last()) && self.run(ops.drop_last()).allows(
            ops.last(),
        )
    }

    /// The messages that receiver `k` reads during a series of operations, in order.
    pub open spec fn all_reads(self, ops: Seq<ChannelOp<T>>, k: int) -> Seq<T>
        decreases ops.len(),
    {
        if ops.len() == 0 {
            Seq::empty()
        } else {
            self.all_reads(ops.drop_last(), k) + self.run(ops.drop_last()).reads(ops.last(), k)
        }
    }
}

/// The messages that an operation sends.
pub open spec fn sends<T>(op: ChannelOp<T>) -> Seq<T> {
    match op {
        ChannelOp::Send { message } => seq![message],
        _ => Seq::empty(),
    }
}

/// The messages that a series of operations sends, in order.
pub open spec fn all_sends<T>(ops: Seq<ChannelOp<T>>) -> Seq<T>
    decreases ops.len(),
{
    if ops.len() == 0 {
        Seq::empty()
    } else {
        all_sends(ops.drop_last()) + sends(ops.last())
    }
}

/// The number of receivers that a series of operations adds.
pub open spec fn joins<T>(ops: Seq<ChannelOp<T>>) -> nat {
    count(ops, |op: ChannelOp<T>| op is Subscribe || op is CloneReceiver)
}

/// The number of receivers that a series of operations takes out.
pub open spec fn leaves<T>(ops: Seq<ChannelOp<T>>) -> nat {
    count(ops, |op: ChannelOp<T>| op is DropReceiver)
}

/// The number of senders that a series of operations adds.
pub open spec fn sender_joins<T>(ops: Seq<ChannelOp<T>>) -> nat {
    count(ops, |op: ChannelOp<T>| op is CloneSender)
}

/// The number of senders that a series of operations takes out.
pub open spec fn sender_leaves<T>(ops: Seq<ChannelOp<T>>) -> nat {
    count(ops, |op: ChannelOp<T>| op is DropSender)
}

/// The same series of operations without those that only wait or give up waiting.
pub open spec fn without_waits<T>(ops: Seq<ChannelOp<T>>) -> Seq<ChannelOp<T>>
    decreases ops.len(),
{
    if ops.len() == 0 {
        ops
    } else if ops.last() is Park || ops.last() is Cancel {
        without_waits(ops.drop_last())
    } else {
        without_waits(ops.drop_last()).push(ops.last())
    }
}

/// Whether receiver `k` stays active throughout a series of operations.
pub open spec fn keeps<T>(ops: Seq<ChannelOp<T>>, k: int) -> bool {
    forall|i: int|
        0 <= i < ops.len() ==> #[trigger] ops[i] != (ChannelOp::<T>::DropReceiver { receiver: k })
}

/// An operation keeps a channel consistent.
pub proof fn law_step_keeps_consistency<T>(view: ChannelView<T>, op: ChannelOp<T>)
    requires
        view.wf(),
        view.allows(op),
    ensures
        view.step(op).wf(),
{
    let after = view.step(op);
    match op {
        ChannelOp::Park { receiver: _, registration, waker } => {
            law_wait_set_stays_consistent(view.waiters, registration, waker);
        },
        ChannelOp::Cancel { registration } => {
            law_wait_set_stays_consistent(view.waiters, registration, arbitrary());
        },
        ChannelOp::CloneReceiver { from, receiver: _ } => {
            assert(view.active(from));
        },
        _ => {},
    }
    assert forall|k: int| #[trigger] after.active(k) implies after.cursors[k] <= after.tail() by {
        assert(view.active(k) ==> view.cursors[k] <= view.tail());
    }
}

/// A channel stays consistent over any series of operations.
pub proof fn law_run_keeps_consistency<T>(view: ChannelView<T>, ops: Seq<ChannelOp<T>>)
    requires
        view.wf(),
        view.allows_all(ops),
    ensures
        view.run(ops).wf(),
    decreases ops.len(),
{
    if ops.len() > 0 {
        law_run_keeps_consistency(view, ops.drop_last());
        law_step_keeps_consistency(view.run(ops.drop_last()), ops.last());
    }
}

/// Versions count the messages sent, by whichever sender and whether there is a receiver or not, and
/// nothing else: the log grows by exactly the messages of the sends.
pub proof fn law_versions_count_the_sends<T>(view: ChannelView<T>, ops: Seq<ChannelOp<T>>)
    ensures
        view.run(ops).sent == view.sent + all_sends(ops),
        view.run(ops).tail() == view.tail() + all_sends(ops).len(),
    decreases ops.len(),
{
    if ops.len() > 0 {
        law_versions_count_the_sends(view, ops.drop_last());
    }
    assert(view.run(ops).sent =~= view.sent + all_sends(ops));
}

/// The number of receivers is the number there was, plus those that joined, minus those that left.
/// Sends, receives and waits, and the coming and going of senders, do not change it.
pub proof fn law_receiver_count_follows_joins_and_leaves<T>(
    view: ChannelView<T>,
    ops: Seq<ChannelOp<T>>,
)
    requires
        view.wf(),
        view.allows_all(ops),
    ensures
        view.run(ops).cursors.dom().len() == view.cursors.dom().len() + joins(ops) - leaves(ops),
    decreases ops.len(),
{
    if ops.len() > 0 {
        let init = ops.drop_last();
        let middle = view.run(init);
        let after = view.run(ops);
        law_receiver_count_follows_joins_and_leaves(view, init);
        law_run_keeps_consistency(view, init);
        match ops.last() {
            ChannelOp::Subscribe { receiver } => {
                assert(after.cursors.dom() =~= middle.cursors.dom().insert(receiver));
            },
            ChannelOp::CloneReceiver { from: _, receiver } => {
                assert(after.cursors.dom() =~= middle.cursors.dom().insert(receiver));
            },
            ChannelOp::DropReceiver { receiver } => {
                assert(after.cursors.dom() =~= middle.cursors.dom().remove(receiver));
            },
            ChannelOp::Receive { receiver } => {
                assert(after.cursors.dom() =~= middle.cursors.dom());
            },
            _ => {},
        }
    }
}

/// The number of senders is the number there was, plus those that were cloned, minus those that left.
/// Nothing that receivers do, and no send, changes it.
pub proof fn law_sender_count_follows_clones_and_leaves<T>(
    view: ChannelView<T>,
    ops: Seq<ChannelOp<T>>,
)
    requires
        view.allows_all(ops),
    ensures
        view.run(ops).senders == view.senders + sender_joins(ops) - sender_leaves(ops),
    decreases ops.len(),
{
    if ops.len() > 0 {
        law_sender_count_follows_clones_and_leaves(view, ops.drop_last());
    }
}

/// The channel is closed exactly when every sender has left: those that there were at the start, and
/// those that were cloned since.
pub proof fn law_channel_closes_when_every_sender_has_left<T>(
    view: ChannelView<T>,
    ops: Seq<ChannelOp<T>>,
)
    requires
        view.allows_all(ops),
    ensures
        view.run(ops).senders == 0 <==> sender_leaves(ops) == view.senders + sender_joins(ops),
{
    law_sender_count_follows_clones_and_leaves(view, ops);
}

/// One more sender is one more sender: the messages, the receivers and who waits are as before.
pub proof fn law_cloned_sender_counts<T>(view: ChannelView<T>)
    ensures
        view.after_clone_sender().senders == view.senders + 1,
        view.after_clone_sender().sent == view.sent,
        view.after_clone_sender().cursors == view.cursors,
        view.after_clone_sender().waiters == view.waiters,
{
}

/// Every leave of a sender counts. The messages and the receivers are as before, and so is who waits
/// unless it was the last sender: then nobody is parked any more.
pub proof fn law_leaving_sender_counts<T>(
    view: ChannelView<T>,
    registration: Option<WaitRegistration>,
)
    requires
        view.senders > 0,
    ensures
        view.after_drop_sender().senders + 1 == view.senders,
        view.after_drop_sender().sent == view.sent,
        view.after_drop_sender().cursors == view.cursors,
        view.senders > 1 ==> view.after_drop_sender().waiters == view.waiters,
        view.senders == 1 ==> view.after_drop_sender().waiters.parked(registration) is None
            && view.after_drop_sender().waiters.epoch == view.waiters.epoch + 1,
{
    law_drain_empties_the_set(view.waiters, registration);
}

/// A new channel has one sender, one receiver that has nothing to read, no message, and nobody who
/// waits.
pub proof fn law_new_channel_is_empty<T>(receiver: int, registration: Option<WaitRegistration>)
    ensures
        ChannelView::<T>::initial(receiver).sent == Seq::<T>::empty(),
        ChannelView::<T>::initial(receiver).senders == 1,
        ChannelView::<T>::initial(receiver).cursors == map![receiver => 0nat],
        ChannelView::<T>::initial(receiver).unread(receiver).len() == 0,
        ChannelView::<T>::initial(receiver).retained().len() == 0,
        ChannelView::<T>::initial(receiver).waiters.parked(registration) is None,
        ChannelView::<T>::initial(receiver).waiters.epoch == 0,
{
    let view = ChannelView::<T>::initial(receiver);
    assert(view.cursors =~= map![receiver => 0nat]);
    assert(view.active(receiver));
    assert(view.wf()) by {
        assert(view.cursors.dom() =~= Set::<int>::empty().insert(receiver));
    }
    law_retained_is_the_longest_backlog(view);
    let k = choose|k: int| #[trigger] view.active(k) && view.unread(k) == view.retained();
    assert(k == receiver);
}

/// What a receiver has yet to read is what was sent from its cursor on: the message at position `i`
/// of its backlog is the one `i` versions after its cursor, and the last one is the latest sent.
pub proof fn law_backlog_is_what_was_sent_since<T>(view: ChannelView<T>, k: int)
    requires
        view.wf(),
        view.active(k),
    ensures
        view.unread(k).len() == view.sent.len() - view.cursors[k],
        view.tail() == view.sent.len(),
        forall|i: int|
            0 <= i < view.unread(k).len() ==> #[trigger] view.unread(k)[i] == view.sent[view.cursors[k]
                + i],
        view.unread(k).len() > 0 ==> view.unread(k).last() == view.sent.last(),
{
}

/// A receive hands out the oldest message that its receiver has not read. What is reclaimed along
/// with it, followed by what is still retained, is what was retained before, and it starts with the
/// message handed out whenever there is any.
pub proof fn law_receive_delivers_the_oldest_unread<T>(
    view: ChannelView<T>,
    k: int,
    message: Arc<T>,
    reclaimed: Seq<Arc<T>>,
)
    requires
        view.wf(),
        view.active(k),
        view.unread(k).len() > 0,
        view.delivers(k, message, reclaimed),
    ensures
        *message == view.unread(k)[0],
        view.unread(k) == seq![*message] + view.after_receive(k).unread(k),
        view.reads(ChannelOp::Receive { receiver: k }, k) == seq![*message],
        payloads(reclaimed) + view.after_receive(k).retained() == view.retained(),
        reclaimed.len() > 0 ==> reclaimed[0] == message,
        reclaimed.len() <= 1,
        reclaimed.len() == 1 <==> forall|j: int| #[trigger]
            view.active(j) && j != k ==> view.unread(j).len() < view.unread(k).len(),
{
    let after = view.after_receive(k);
    law_step_keeps_consistency(view, ChannelOp::Receive { receiver: k });
    law_receive_takes_nothing_from_others(view, k);
    law_head_is_the_slowest_cursor(view);
    law_head_is_the_slowest_cursor(after);
    law_retained_is_the_longest_backlog(view);
    assert(view.active(k) && after.active(k));
    assert(view.unread(k) =~= seq![*message] + after.unread(k));
    let head = view.head();
    let slowest = choose|j: int| #[trigger] view.active(j) && view.cursors[j] == head;
    let later = after.head();
    let next = choose|j: int| #[trigger] after.active(j) && after.cursors[j] == later;
    assert(view.active(next));
    assert(after.active(slowest));
    assert(payloads(reclaimed).len() == reclaimed.len());
    assert(payloads(reclaimed) + after.retained() =~= view.retained());
    assert(view.retained().len() == reclaimed.len() + after.retained().len());
    if forall|j: int| #[trigger]
        view.active(j) && j != k ==> view.unread(j).len() < view.unread(k).len() {
        assert(slowest == k);
        assert forall|j: int| #[trigger] view.active(j) && j != k implies head < view.cursors[j] by {
            assert(view.unread(j).len() < view.unread(k).len());
        }
        assert(is_only_slowest(view, k));
    } else {
        let j = choose|j: int| #[trigger]
            view.active(j) && j != k && !(view.unread(j).len() < view.unread(k).len());
        assert(!(view.head() < view.cursors[j]) || view.cursors[k] != view.head());
    }
}

/// A receive concerns only cursors: the messages, the senders and who waits are as before.
pub proof fn law_receive_moves_one_cursor<T>(view: ChannelView<T>, k: int)
    ensures
        view.after_receive(k).sent == view.sent,
        view.after_receive(k).senders == view.senders,
        view.after_receive(k).waiters == view.waiters,
        view.after_receive(k).cursors == view.cursors.insert(k, view.cursors[k] + 1),
{
}

/// Whatever the senders and receivers of a new channel have done, the channel is consistent, the
/// next version is the number of messages sent since it was made, and the numbers of receivers and
/// of senders are one each, plus those that joined, minus those that left.
pub proof fn law_new_channel_counts_from_the_start<T>(receiver: int, ops: Seq<ChannelOp<T>>)
    requires
        ChannelView::<T>::initial(receiver).allows_all(ops),
    ensures
        ChannelView::<T>::initial(receiver).run(ops).wf(),
        ChannelView::<T>::initial(receiver).run(ops).sent == all_sends(ops),
        ChannelView::<T>::initial(receiver).run(ops).tail() == all_sends(ops).len(),
        ChannelView::<T>::initial(receiver).run(ops).cursors.dom().len() == 1 + joins(ops) - leaves(
            ops,
        ),
        ChannelView::<T>::initial(receiver).run(ops).senders == 1 + sender_joins(ops)
            - sender_leaves(ops),
{
    let view = ChannelView::<T>::initial(receiver);
    assert(view.cursors.dom() =~= Set::<int>::empty().insert(receiver));
    assert(view.wf());
    law_run_keeps_consistency(view, ops);
    law_versions_count_the_sends(view, ops);
    law_receiver_count_follows_joins_and_leaves(view, ops);
    law_sender_count_follows_clones_and_leaves(view, ops);
    assert(view.sent + all_sends(ops) =~= all_sends(ops));
}

/// What one operation does to the backlog of a receiver that stays: what it reads comes off the
/// front, what is sent goes to the end.
proof fn lemma_step_backlog<T>(view: ChannelView<T>, op: ChannelOp<T>, k: int)
    requires
        view.wf(),
        view.allows(op),
        view.active(k),
        op != (ChannelOp::<T>::DropReceiver { receiver: k }),
    ensures
        view.step(op).active(k),
        view.reads(op, k) + view.step(op).unread(k) == view.unread(k) + sends(op),
{
    let after = view.step(op);
    match op {
        ChannelOp::Send { message } => {
            assert(after.unread(k) =~= view.unread(k).push(message));
        },
        ChannelOp::Receive { receiver } => {
            if receiver == k && view.unread(k).len() > 0 {
                assert(seq![view.unread(k)[0]] + after.unread(k) =~= view.unread(k));
            }
        },
        _ => {},
    }
    assert(view.reads(op, k) + after.unread(k) =~= view.unread(k) + sends(op));
}

/// No message is lost, duplicated or reordered: over any series of operations during which a
/// receiver stays active, what it reads, followed by what it can still read, is what it could read
/// before, followed by every message sent since, by whichever sender.
pub proof fn law_every_message_is_received_once_in_order<T>(
    view: ChannelView<T>,
    ops: Seq<ChannelOp<T>>,
    k: int,
)
    requires
        view.wf(),
        view.active(k),
        view.allows_all(ops),
        keeps(ops, k),
    ensures
        view.run(ops).wf(),
        view.run(ops).active(k),
        view.all_reads(ops, k) + view.run(ops).unread(k) == view.unread(k) + all_sends(ops),
    decreases ops.len(),
{
    if ops.len() == 0 {
        assert(view.all_reads(ops, k) + view.run(ops).unread(k) =~= view.unread(k) + all_sends(
            ops,
        ));
    } else {
        let init = ops.drop_last();
        let op = ops.last();
        let middle = view.run(init);
        assert(ops[ops.len() - 1] == op);
        assert forall|i: int| 0 <= i < init.len() implies #[trigger] init[i] != (ChannelOp::<
            T,
        >::DropReceiver { receiver: k }) by {
            assert(ops[i] == init[i]);
        }
        law_every_message_is_received_once_in_order(view, init, k);
        law_step_keeps_consistency(middle, op);
        lemma_step_backlog(middle, op, k);
        calc! {
            (==)
            view.all_reads(ops, k) + view.run(ops).unread(k); {
                assert(view.all_reads(ops, k) + view.run(ops).unread(k) =~= view.all_reads(init, k)
                    + (middle.reads(op, k) + view.run(ops).unread(k)));
            }
            view.all_reads(init, k) + (middle.unread(k) + sends(op)); {
                assert(view.all_reads(init, k) + (middle.unread(k) + sends(op)) =~= (
                view.all_reads(init, k) + middle.unread(k)) + sends(op));
            }
            (view.unread(k) + all_sends(init)) + sends(op); {
                assert((view.unread(k) + all_sends(init)) + sends(op) =~= view.unread(k)
                    + all_sends(ops));
            }
            view.unread(k) + all_sends(ops);
        }
    }
}

/// A receiver that started without a backlog and has nothing left to read has read exactly what was
/// sent in the meantime, in the order of sending.
pub proof fn law_drained_receiver_has_read_everything<T>(
    view: ChannelView<T>,
    ops: Seq<ChannelOp<T>>,
    k: int,
)
    requires
        view.wf(),
        view.active(k),
        view.unread(k).len() == 0,
        view.allows_all(ops),
        keeps(ops, k),
        view.run(ops).unread(k).len() == 0,
    ensures
        view.all_reads(ops, k) == all_sends(ops),
{
    law_every_message_is_received_once_in_order(view, ops, k);
    let reads = view.all_reads(ops, k);
    let sent = all_sends(ops);
    assert(reads + view.run(ops).unread(k) =~= reads);
    assert(view.unread(k) + sent =~= sent);
}

/// A receiver that subscribes reads exactly the messages sent from then on, in order, and none sent
/// before.
pub proof fn law_subscriber_reads_what_is_sent_after<T>(
    view: ChannelView<T>,
    ops: Seq<ChannelOp<T>>,
    k: int,
)
    requires
        view.wf(),
        !view.active(k),
        view.after_subscribe(k).allows_all(ops),
        keeps(ops, k),
    ensures
        view.after_subscribe(k).all_reads(ops, k) + view.after_subscribe(k).run(ops).unread(k)
            == all_sends(ops),
{
    let joined = view.after_subscribe(k);
    law_step_keeps_consistency(view, ChannelOp::Subscribe { receiver: k });
    law_every_message_is_received_once_in_order(joined, ops, k);
    assert(joined.unread(k) + all_sends(ops) =~= all_sends(ops));
}

/// A message sent while there are receivers goes to the end of the backlog of each of them, and to
/// the end of what is retained. The senders and receivers stay the same, and nobody waits any more.
pub proof fn law_send_reaches_every_receiver<T>(view: ChannelView<T>, message: T)
    requires
        view.wf(),
    ensures
        forall|k: int| #[trigger]
            view.active(k) ==> view.after_send(message).unread(k) == view.unread(k).push(message),
        !view.no_receivers() ==> view.after_send(message).retained() == view.retained().push(
            message,
        ),
        view.after_send(message).cursors == view.cursors,
        view.after_send(message).sent == view.sent.push(message),
        view.after_send(message).senders == view.senders,
        forall|r: Option<WaitRegistration>| (#[trigger]
            view.after_send(message).waiters.parked(r)) is None,
        view.after_send(message).waiters.epoch == view.waiters.epoch + 1,
{
    let after = view.after_send(message);
    assert forall|r: Option<WaitRegistration>| (#[trigger] after.waiters.parked(r)) is None by {
        law_drain_empties_the_set(view.waiters, r);
    }
    assert forall|k: int| #[trigger] view.active(k) implies after.unread(k) == view.unread(k).push(
        message,
    ) by {
        assert(after.unread(k) =~= view.unread(k).push(message));
    }
    if !view.no_receivers() {
        law_head_is_the_slowest_cursor(view);
        let head = view.head();
        let slowest = choose|k: int| #[trigger] view.active(k) && view.cursors[k] == head;
        assert(after.active(slowest));
        assert forall|k: int| #[trigger] after.active(k) implies head <= after.cursors[k] by {
            assert(view.active(k));
        }
        assert(after.is_slowest(head));
        lemma_head_is(after, head);
        assert(after.retained() =~= view.retained().push(message));
    }
}

/// Two receivers that start from the same position read the same messages in the same order: what
/// the one reads is a beginning of what the other reads, or the other way round.
pub proof fn law_receivers_agree<T>(
    view: ChannelView<T>,
    ops: Seq<ChannelOp<T>>,
    a: int,
    b: int,
)
    requires
        view.wf(),
        view.active(a),
        view.active(b),
        view.cursors[a] == view.cursors[b],
        view.allows_all(ops),
        keeps(ops, a),
        keeps(ops, b),
    ensures
        forall|i: int|
            0 <= i < view.all_reads(ops, a).len() && i < view.all_reads(ops, b).len()
                ==> #[trigger] view.all_reads(ops, a)[i] == view.all_reads(ops, b)[i],
{
    law_every_message_is_received_once_in_order(view, ops, a);
    law_every_message_is_received_once_in_order(view, ops, b);
    let reads_a = view.all_reads(ops, a);
    let reads_b = view.all_reads(ops, b);
    let whole = view.unread(a) + all_sends(ops);
    assert forall|i: int| 0 <= i < reads_a.len() && i < reads_b.len() implies #[trigger] reads_a[i]
        == reads_b[i] by {
        assert((reads_a + view.run(ops).unread(a))[i] == reads_a[i]);
        assert((reads_b + view.run(ops).unread(b))[i] == reads_b[i]);
        assert(whole[i] == reads_a[i]);
    }
}

/// Once every sender has left, nothing is sent any more: a receiver reads its backlog and no more,
/// and no sender ever comes back.
pub proof fn law_disconnect_is_final<T>(view: ChannelView<T>, ops: Seq<ChannelOp<T>>, k: int)
    requires
        view.wf(),
        view.senders == 0,
        view.allows_all(ops),
    ensures
        view.run(ops).senders == 0,
        view.run(ops).sent == view.sent,
        all_sends(ops) == Seq::<T>::empty(),
        view.active(k) && keeps(ops, k) ==> view.all_reads(ops, k) + view.run(ops).unread(k)
            == view.unread(k),
    decreases ops.len(),
{
    if ops.len() > 0 {
        law_disconnect_is_final(view, ops.drop_last(), k);
    }
    if view.active(k) && keeps(ops, k) {
        law_every_message_is_received_once_in_order(view, ops, k);
        assert(view.unread(k) + Seq::<T>::empty() =~= view.unread(k));
    }
}

/// The shared backlog is the backlog of the slowest receiver: some receiver has all of it unread,
/// and none has more. Without receivers it is empty.
pub proof fn law_retained_is_the_longest_backlog<T>(view: ChannelView<T>)
    requires
        view.wf(),
    ensures
        view.no_receivers() ==> view.retained().len() == 0,
        !view.no_receivers() ==> exists|k: int| #[trigger]
            view.active(k) && view.unread(k) == view.retained(),
        forall|k: int| #[trigger]
            view.active(k) ==> view.unread(k).len() <= view.retained().len(),
{
    law_head_is_the_slowest_cursor(view);
    if !view.no_receivers() {
        let head = view.head();
        let k = choose|k: int| #[trigger] view.active(k) && view.cursors[k] == head;
        assert(view.active(k) && view.unread(k) == view.retained());
    }
}

/// Whether receiver `k` is slower than every other receiver.
pub open spec fn is_only_slowest<T>(view: ChannelView<T>, k: int) -> bool {
    &&& view.cursors[k] == view.head()
    &&& forall|j: int| #[trigger] view.active(j) && j != k ==> view.head() < view.cursors[j]
}

/// A receive takes the first message off the backlog of its receiver and nothing from any other.
/// What is retained loses its first message when the receiver was the only slowest one, and stays
/// the same otherwise. The receivers stay the same.
pub proof fn law_receive_takes_nothing_from_others<T>(view: ChannelView<T>, k: int)
    requires
        view.wf(),
        view.active(k),
        view.unread(k).len() > 0,
    ensures
        view.after_receive(k).unread(k) == view.unread(k).skip(1),
        forall|j: int| #[trigger]
            view.active(j) && j != k ==> view.after_receive(k).unread(j) == view.unread(j),
        view.after_receive(k).cursors.dom() == view.cursors.dom(),
        is_only_slowest(view, k) ==> view.after_receive(k).retained() == view.retained().skip(1),
        !is_only_slowest(view, k) ==> view.after_receive(k).retained() == view.retained(),
        view.after_receive(k).retained().len() == view.retained().len() - (if is_only_slowest(
            view,
            k,
        ) {
            1int
        } else {
            0int
        }),
{
    law_head_is_the_slowest_cursor(view);
    let after = view.after_receive(k);
    let head = view.head();
    assert(after.cursors.dom() =~= view.cursors.dom());
    assert(after.unread(k) =~= view.unread(k).skip(1));
    assert(after.active(k));
    if is_only_slowest(view, k) {
        assert forall|j: int| #[trigger] after.active(j) implies head + 1 <= after.cursors[j] by {
            assert(view.active(j));
        }
        assert(after.is_slowest(head + 1));
        lemma_head_is(after, head + 1);
        assert(after.retained() =~= view.retained().skip(1));
    } else {
        if view.cursors[k] == head {
            let other = choose|j: int| #[trigger]
                view.active(j) && j != k && !(head < view.cursors[j]);
            assert(after.active(other));
        } else {
            let other = choose|j: int| #[trigger] view.active(j) && view.cursors[j] == head;
            assert(after.active(other));
        }
        assert forall|j: int| #[trigger] after.active(j) implies head <= after.cursors[j] by {
            assert(view.active(j));
        }
        assert(after.is_slowest(head));
        lemma_head_is(after, head);
    }
}

/// The receive of a sole receiver reclaims its own message and nothing else, so the message can be
/// handed out without cloning it.
pub proof fn law_sole_receiver_reclaims_its_message<T>(
    view: ChannelView<T>,
    k: int,
    message: Arc<T>,
    reclaimed: Seq<Arc<T>>,
)
    requires
        view.wf(),
        view.active(k),
        forall|j: int| #[trigger] view.active(j) ==> j == k,
        view.unread(k).len() > 0,
        view.delivers(k, message, reclaimed),
    ensures
        reclaimed == seq![message],
{
    let after = view.after_receive(k);
    assert(view.is_slowest(view.cursors[k]));
    lemma_head_is(view, view.cursors[k]);
    assert forall|j: int| #[trigger] after.active(j) implies j == k by {
        if j != k {
            assert(view.active(j));
        }
    }
    assert(after.active(k));
    assert(after.is_slowest(after.cursors[k]));
    lemma_head_is(after, after.cursors[k]);
    assert(payloads(reclaimed).len() == reclaimed.len());
    assert(reclaimed =~= seq![message]);
}

/// A receiver that leaves releases its backlog: what is retained afterwards is the longest backlog
/// of the receivers that remain, and nothing when none remains. Their backlogs are as before, and
/// there is one receiver less.
pub proof fn law_leaving_receiver_releases_its_backlog<T>(view: ChannelView<T>, k: int)
    requires
        view.wf(),
        view.active(k),
    ensures
        view.after_drop_receiver(k).wf(),
        view.after_drop_receiver(k).cursors == view.cursors.remove(k),
        view.after_drop_receiver(k).sent == view.sent,
        view.after_drop_receiver(k).senders == view.senders,
        view.after_drop_receiver(k).waiters == view.waiters,
        view.after_drop_receiver(k).cursors.dom().len() + 1 == view.cursors.dom().len(),
        forall|j: int| #[trigger]
            view.active(j) && j != k ==> view.after_drop_receiver(k).unread(j) == view.unread(j)
                && view.unread(j).len() <= view.after_drop_receiver(k).retained().len(),
        (exists|j: int| #[trigger] view.active(j) && j != k) ==> exists|j: int| #[trigger]
            view.active(j) && j != k && view.unread(j) == view.after_drop_receiver(k).retained(),
        (forall|j: int| #[trigger] view.active(j) ==> j == k) ==> view.after_drop_receiver(
            k,
        ).retained().len() == 0,
        view.after_drop_receiver(k).retained().len() <= view.retained().len(),
{
    let after = view.after_drop_receiver(k);
    assert forall|j: int| #[trigger] after.active(j) implies view.active(j) && after.cursors[j]
        == view.cursors[j] && j != k by {}
    assert(after.cursors.dom() =~= view.cursors.dom().remove(k));
    law_retained_is_the_longest_backlog(view);
    law_retained_is_the_longest_backlog(after);
    assert forall|j: int| #[trigger] view.active(j) && j != k implies after.unread(j) == view.unread(
        j,
    ) && view.unread(j).len() <= after.retained().len() by {
        assert(after.active(j));
    }
    if !after.no_receivers() {
        let j = choose|j: int| #[trigger] after.active(j) && after.unread(j) == after.retained();
        assert(view.active(j));
        assert(view.unread(j) == after.retained());
    } else {
        assert forall|j: int| #[trigger] view.active(j) implies j == k by {
            assert(!after.active(j));
        }
    }
}

/// A cloned receiver has the same backlog as the one it was cloned from, and there is one receiver
/// more. No other backlog changes, and neither does what is retained.
pub proof fn law_clone_shares_the_backlog<T>(view: ChannelView<T>, from: int, k: int)
    requires
        view.wf(),
        view.active(from),
        !view.active(k),
    ensures
        view.after_clone_receiver(from, k).unread(k) == view.unread(from),
        view.after_clone_receiver(from, k).cursors == view.cursors.insert(k, view.cursors[from]),
        view.after_clone_receiver(from, k).sent == view.sent,
        view.after_clone_receiver(from, k).senders == view.senders,
        view.after_clone_receiver(from, k).waiters == view.waiters,
        forall|j: int| #[trigger]
            view.active(j) ==> view.after_clone_receiver(from, k).unread(j) == view.unread(j),
        view.after_clone_receiver(from, k).retained() == view.retained(),
        view.after_clone_receiver(from, k).cursors.dom().len() == view.cursors.dom().len() + 1,
{
    let after = view.after_clone_receiver(from, k);
    assert(after.cursors.dom() =~= view.cursors.dom().insert(k));
    law_head_is_the_slowest_cursor(view);
    let head = view.head();
    let slowest = choose|j: int| #[trigger] view.active(j) && view.cursors[j] == head;
    assert(after.active(slowest));
    assert forall|j: int| #[trigger] after.active(j) implies head <= after.cursors[j] by {
        if j != k {
            assert(view.active(j));
        }
    }
    assert(after.is_slowest(head));
    lemma_head_is(after, head);
}

/// A receiver that subscribes starts without a backlog, and there is one receiver more. No other
/// backlog changes, and neither does what is retained.
pub proof fn law_subscribe_starts_at_the_tail<T>(view: ChannelView<T>, k: int)
    requires
        view.wf(),
        !view.active(k),
    ensures
        view.after_subscribe(k).unread(k).len() == 0,
        view.after_subscribe(k).cursors == view.cursors.insert(k, view.sent.len()),
        view.after_subscribe(k).sent == view.sent,
        view.after_subscribe(k).senders == view.senders,
        view.after_subscribe(k).waiters == view.waiters,
        forall|j: int| #[trigger]
            view.active(j) ==> view.after_subscribe(k).unread(j) == view.unread(j),
        view.after_subscribe(k).retained() == view.retained(),
        view.after_subscribe(k).cursors.dom().len() == view.cursors.dom().len() + 1,
{
    let after = view.after_subscribe(k);
    assert(after.cursors.dom() =~= view.cursors.dom().insert(k));
    law_head_is_the_slowest_cursor(view);
    let head = view.head();
    assert(after.active(k));
    if !view.no_receivers() {
        let slowest = choose|j: int| #[trigger] view.active(j) && view.cursors[j] == head;
        assert(after.active(slowest));
    }
    assert forall|j: int| #[trigger] after.active(j) implies head <= after.cursors[j] by {
        if j != k {
            assert(view.active(j));
        } else if !view.no_receivers() {
            let slowest = choose|j: int| #[trigger] view.active(j) && view.cursors[j] == head;
            assert(view.active(slowest));
        }
    }
    assert(after.is_slowest(head));
    lemma_head_is(after, head);
}

/// A message sent while there is no receiver is not retained, and a receiver that joins later does
/// not see it.
pub proof fn law_send_without_receivers_retains_nothing<T>(
    view: ChannelView<T>,
    message: T,
    k: int,
)
    requires
        view.wf(),
        view.no_receivers(),
    ensures
        view.after_send(message).retained().len() == 0,
        view.after_send(message).after_subscribe(k).unread(k).len() == 0,
{
    let after = view.after_send(message);
    assert forall|j: int| !#[trigger] after.active(j) by {
        assert(!view.active(j));
    }
}

/// No wake-up is missed: the waker of a receiver that found nothing and parked is among those that
/// the next message, or the leave of the last sender, hands out for waking.
pub proof fn law_parked_receiver_is_woken<T>(
    view: ChannelView<T>,
    before: Option<WaitRegistration>,
    after: Option<WaitRegistration>,
    waker: Waker,
)
    requires
        view.wf(),
        view.waiters.registered(before, after),
    ensures
        view.after_park(before, waker).waiters.parked(after) == Some(waker),
        view.after_park(before, waker).waiters.all_parked().contains(waker),
{
    law_registered_waker_is_parked(view.waiters, before, after, waker);
    law_drain_reaches_every_waiter(view.after_park(before, waker).waiters, after);
}

/// Whether an operation leaves the waiter with this registration alone: it neither parks nor
/// cancels under the slot of that registration.
pub open spec fn spares<T>(op: ChannelOp<T>, registration: WaitRegistration) -> bool {
    match op {
        ChannelOp::Park { receiver: _, registration: other, waker: _ } => other is Some
            ==> other->0.key() != registration.key(),
        ChannelOp::Cancel { registration: other } => other is Some ==> other->0.key()
            != registration.key(),
        _ => true,
    }
}

/// A parked receiver stays parked, with its own waker, until the waiters are notified or it gives
/// up itself: whatever the others do in between, the notification still reaches it.
pub proof fn law_parked_receiver_stays_parked<T>(
    view: ChannelView<T>,
    registration: WaitRegistration,
    ops: Seq<ChannelOp<T>>,
)
    requires
        view.wf(),
        view.waiters.parked(Some(registration)) is Some,
        view.allows_all(ops),
        forall|i: int| 0 <= i < ops.len() ==> spares(#[trigger] ops[i], registration),
        view.run(ops).waiters.epoch == view.waiters.epoch,
    ensures
        view.run(ops).wf(),
        view.run(ops).waiters.parked(Some(registration)) == view.waiters.parked(
            Some(registration),
        ),
        view.run(ops).waiters.all_parked().contains(view.waiters.parked(Some(registration))->0),
    decreases ops.len(),
{
    if ops.len() > 0 {
        let init = ops.drop_last();
        let op = ops.last();
        let middle = view.run(init);
        lemma_epoch_never_falls(view, init);
        assert(ops[ops.len() - 1] == op);
        assert forall|i: int| 0 <= i < init.len() implies spares(
            #[trigger] init[i],
            registration,
        ) by {
            assert(ops[i] == init[i]);
        }
        law_parked_receiver_stays_parked(view, registration, init);
        law_step_keeps_consistency(middle, op);
        lemma_spared_waiter_stays(middle, op, registration);
    }
    law_drain_reaches_every_waiter(view.run(ops).waiters, Some(registration));
}

proof fn lemma_spared_waiter_stays<T>(
    view: ChannelView<T>,
    op: ChannelOp<T>,
    registration: WaitRegistration,
)
    requires
        view.wf(),
        view.waiters.parked(Some(registration)) is Some,
        spares(op, registration),
        view.step(op).waiters.epoch == view.waiters.epoch,
    ensures
        view.step(op).waiters.parked(Some(registration)) == view.waiters.parked(
            Some(registration),
        ),
{
    broadcast use law_key_is_its_index;

}

/// A notification wakes a parked receiver once: after a message, or after the last sender left, the
/// registration is spent, whatever happens next. Giving it up then disturbs nobody.
pub proof fn law_woken_receiver_is_no_longer_parked<T>(
    view: ChannelView<T>,
    registration: Option<WaitRegistration>,
    notification: ChannelOp<T>,
    ops: Seq<ChannelOp<T>>,
)
    requires
        view.waiters.parked(registration) is Some,
        notification is Send || (notification is DropSender && view.senders == 1),
    ensures
        view.step(notification).run(ops).waiters.parked(registration) is None,
        view.step(notification).run(ops).after_cancel(registration) == view.step(notification).run(
            ops,
        ),
{
    lemma_epoch_never_falls(view.step(notification), ops);
}

proof fn lemma_epoch_never_falls<T>(view: ChannelView<T>, ops: Seq<ChannelOp<T>>)
    ensures
        view.run(ops).waiters.epoch >= view.waiters.epoch,
    decreases ops.len(),
{
    if ops.len() > 0 {
        lemma_epoch_never_falls(view, ops.drop_last());
    }
}

/// A receiver whose wait is over leaves no waker behind: once the receiver that parked has a message
/// to read, or no sender is left, its registration is spent.
pub proof fn law_finished_wait_leaves_no_waker<T>(
    view: ChannelView<T>,
    registration: Option<WaitRegistration>,
    ops: Seq<ChannelOp<T>>,
    k: int,
)
    requires
        view.wf(),
        view.active(k),
        view.unread(k).len() == 0,
        view.senders > 0,
        view.waiters.parked(registration) is Some,
        view.allows_all(ops),
        keeps(ops, k),
        view.run(ops).unread(k).len() > 0 || view.run(ops).senders == 0,
    ensures
        view.run(ops).waiters.parked(registration) is None,
{
    law_every_message_is_received_once_in_order(view, ops, k);
    if view.run(ops).unread(k).len() > 0 {
        assert((view.all_reads(ops, k) + view.run(ops).unread(k)).len() > 0);
    }
    lemma_notification_raises_epoch(view, ops);
}

/// A message, or the leave of the last sender, counts as a notification of the waiters.
proof fn lemma_notification_raises_epoch<T>(view: ChannelView<T>, ops: Seq<ChannelOp<T>>)
    requires
        view.allows_all(ops),
    ensures
        view.run(ops).waiters.epoch >= view.waiters.epoch,
        all_sends(ops).len() > 0 ==> view.run(ops).waiters.epoch > view.waiters.epoch,
        view.senders > 0 && view.run(ops).senders == 0 ==> view.run(ops).waiters.epoch
            > view.waiters.epoch,
    decreases ops.len(),
{
    if ops.len() > 0 {
        lemma_notification_raises_epoch(view, ops.drop_last());
    }
}

/// Waiting and giving up waiting change nothing but who waits: after any series of operations, the
/// messages, the receivers, every backlog, what is retained, the senders and what each receiver has
/// read are what they would be had nobody ever waited. A receive that waited, any number of times
/// and with anything in between, and was then cancelled has therefore lost no message.
pub proof fn law_waits_change_nothing_else<T>(view: ChannelView<T>, ops: Seq<ChannelOp<T>>)
    ensures
        view.run(ops).sent == view.run(without_waits(ops)).sent,
        view.run(ops).cursors == view.run(without_waits(ops)).cursors,
        view.run(ops).senders == view.run(without_waits(ops)).senders,
        forall|k: int| #[trigger]
            view.run(ops).unread(k) == view.run(without_waits(ops)).unread(k),
        view.run(ops).retained() == view.run(without_waits(ops)).retained(),
        forall|k: int| #[trigger]
            view.all_reads(ops, k) == view.all_reads(without_waits(ops), k),
        view.allows_all(ops) ==> view.allows_all(without_waits(ops)),
    decreases ops.len(),
{
    let waited = view.run(ops);
    let plain = view.run(without_waits(ops));
    if ops.len() > 0 {
        let init = ops.drop_last();
        let op = ops.last();
        law_waits_change_nothing_else(view, init);
        let waited_init = view.run(init);
        let plain_init = view.run(without_waits(init));
        if !(op is Park || op is Cancel) {
            assert(without_waits(ops).drop_last() =~= without_waits(init));
            assert(waited_init.unread(op->Receive_receiver) == plain_init.unread(
                op->Receive_receiver,
            ));
        }
        assert forall|k: int| #[trigger]
            view.all_reads(ops, k) == view.all_reads(without_waits(ops), k) by {
            assert(view.all_reads(init, k) == view.all_reads(without_waits(init), k));
            assert(waited_init.unread(k) == plain_init.unread(k));
            if op is Park || op is Cancel {
                assert(view.all_reads(ops, k) =~= view.all_reads(init, k));
            }
        }
    }
    law_head_is_the_slowest_cursor(waited);
    law_head_is_the_slowest_cursor(plain);
    assert forall|k: int| #[trigger] waited.active(k) == plain.active(k) by {}
    if plain.no_receivers() {
        assert forall|k: int| !#[trigger] waited.active(k) by {
            assert(!plain.active(k));
        }
    } else {
        let head = plain.head();
        let k = choose|k: int| #[trigger] plain.active(k) && plain.cursors[k] == head;
        assert(waited.active(k));
        assert forall|j: int| #[trigger] waited.active(j) implies head <= waited.cursors[j] by {
            assert(plain.active(j));
        }
        assert(waited.is_slowest(head));
        lemma_head_is(waited, head);
    }
}

/// Parking and giving up change who waits and nothing else, and neither is a notification.
pub proof fn law_parking_touches_only_the_waiters<T>(
    view: ChannelView<T>,
    registration: Option<WaitRegistration>,
    waker: Waker,
)
    requires
        view.wf(),
    ensures
        view.after_park(registration, waker).sent == view.sent,
        view.after_park(registration, waker).cursors == view.cursors,
        view.after_park(registration, waker).senders == view.senders,
        view.after_park(registration, waker).waiters.epoch == view.waiters.epoch,
        view.after_cancel(registration).sent == view.sent,
        view.after_cancel(registration).cursors == view.cursors,
        view.after_cancel(registration).senders == view.senders,
        view.after_cancel(registration).waiters.epoch == view.waiters.epoch,
        view.after_cancel(registration).waiters.parked(registration) is None,
        view.waiters.parked(registration) is None ==> view.after_cancel(registration) == view,
{
    law_register_adds_at_most_one(view.waiters, registration, waker);
    law_unregister_takes_out_one(view.waiters, registration);
}

/// A receiver that parks or gives up leaves every other waiting receiver as it was: whoever was
/// parked under another slot is parked there still, with the same waker.
pub proof fn law_waiting_receivers_do_not_disturb_each_other<T>(
    view: ChannelView<T>,
    before: Option<WaitRegistration>,
    after: Option<WaitRegistration>,
    waker: Waker,
    other: WaitRegistration,
)
    requires
        view.wf(),
        view.waiters.registered(before, after),
        other.key() != after->0.key(),
    ensures
        view.after_park(before, waker).waiters.parked(Some(other)) == view.waiters.parked(
            Some(other),
        ),
        view.after_cancel(after).waiters.parked(Some(other)) == view.waiters.parked(Some(other)),
{
    law_register_keeps_others(view.waiters, before, after, waker, Some(other));
    law_unregister_keeps_others(view.waiters, after, Some(other));
}

/// A receive that is cancelled while it waits has received nothing: every backlog is as it was.
pub proof fn law_cancelled_receive_consumes_nothing<T>(
    view: ChannelView<T>,
    before: Option<WaitRegistration>,
    after: Option<WaitRegistration>,
    waker: Waker,
    k: int,
)
    requires
        view.wf(),
        view.waiters.registered(before, after),
    ensures
        view.after_park(before, waker).after_cancel(after).sent == view.sent,
        view.after_park(before, waker).after_cancel(after).cursors == view.cursors,
        view.after_park(before, waker).after_cancel(after).unread(k) == view.unread(k),
        view.after_park(before, waker).after_cancel(after).waiters.parked(after) is None,
{
    law_registered_waker_is_parked(view.waiters, before, after, waker);
}

/// A drained buffer gives memory back exactly when it has more than the least capacity and the cycle
/// that just ended used at most a quarter of it. It then keeps the larger of the least capacity and
/// room for twice the backlog of that cycle, which is less than it had.
pub proof fn law_shrinking_keeps_room_for_the_workload(capacity: usize, peak: usize)
    ensures
        match shrink_decision(capacity, peak) {
            Some(target) => MIN_RETAINED_CAPACITY <= target < capacity && 2 * peak <= target && 4
                * peak <= capacity && (target == 64 || target == 2 * peak),
            None => true,
        },
        shrink_decision(capacity, peak) is Some <==> capacity > 64 && 4 * peak <= capacity,
        4 * peak > capacity ==> shrink_decision(capacity, peak) is None,
        capacity <= MIN_RETAINED_CAPACITY ==> shrink_decision(capacity, peak) is None,
        MIN_RETAINED_CAPACITY == 64,
{
}

} // verus!
