//! The shared buffer of the channel and the cursors of its receivers.

use std::collections::VecDeque;
use std::sync::Arc;
use std::task::Waker;

use vstd::pervasive::unreached;
use vstd::prelude::*;

use crate::internal::arena::is_occupied;
use crate::internal::arena::Arena;
use crate::internal::arena::ArenaKey;
use crate::internal::arena::ArenaValues;
use crate::internal::arena::ArenaView;
use crate::internal::counting::count;
use crate::internal::counting::lemma_count_implied;
use crate::internal::counting::lemma_count_push;
use crate::internal::counting::lemma_count_update;
use crate::internal::counting::lemma_count_zero;
use crate::internal::std_items::deque_capacity;
use crate::internal::std_items::deque_shrink_to;
use crate::internal::waitset::WaitRegistration;
use crate::internal::waitset::WaitSet;
use crate::internal::waitset::WaitSetView;

verus! {

/// Retained capacity below which the shared buffer is never shrunk back.
pub const MIN_RETAINED_CAPACITY: usize = 64;

/// The payload behind a shared message.
pub open spec fn payload<T>(message: Arc<T>) -> T {
    *message
}

/// The payloads behind a sequence of shared messages.
pub open spec fn payloads<T>(messages: Seq<Arc<T>>) -> Seq<T> {
    Seq::new(messages.len(), |i: int| *messages[i])
}

/// The predicate "this slot holds a receiver whose cursor is `version`".
pub open spec fn at_version(version: u64) -> spec_fn(Option<u64>) -> bool {
    |slot: Option<u64>| slot == Some(version)
}

/// The buffer, the receiver cursors and the parked receivers of one channel.
pub struct Inner<T> {
    /// Messages whose versions are in the range `[head, tail)`.
    ///
    /// Each message is held behind an `Arc` so that a receive can hand the payload out while the
    /// channel is locked, and clone or drop it once the lock is released.
    pub(super) buffer: VecDeque<Arc<T>>,
    /// The version of the first message in `buffer`.
    pub(super) head: u64,
    /// The number of active receivers whose cursor equals `head`.
    pub(super) head_receivers: usize,
    /// The next message version to assign.
    pub(super) tail: u64,
    /// Cursor for each active receiver.
    pub(super) receivers: Arena<u64>,
    /// The largest backlog retained since the buffer was last empty.
    pub(super) peak_len: usize,
    /// Receivers parked until the next message or disconnect.
    pub(super) waiters: WaitSet<Waker>,
    /// Every message that was ever sent, the position being the version.
    pub(super) sent: Ghost<Seq<T>>,
}

impl<T> Inner<T> {
    /// The buffer holds the versions `[head, tail)`, and no cursor lies outside of that range.
    pub(super) closed spec fn consistent(&self) -> bool {
        &&& self.receivers.wf()
        &&& self.waiters.wf()
        &&& self.sent@.len() == self.tail
        &&& self.head <= self.tail
        &&& payloads(self.buffer@) == self.sent@.subrange(self.head as int, self.tail as int)
        &&& forall|i: int|
            0 <= i < self.receivers@.slots.len() ==> match #[trigger] self.receivers@.slots[i] {
                Some(cursor) => self.head <= cursor <= self.tail,
                None => true,
            }
        &&& self.buffer@.len() <= self.peak_len
        &&& self.buffer@.len() == 0 ==> self.peak_len == 0
    }

    /// The number of receivers whose cursor equals `head`.
    pub(super) closed spec fn at_head(&self) -> nat {
        count(self.receivers@.slots, at_version(self.head))
    }

    /// The channel state is consistent, `head_receivers` is exact, and `head` is the slowest
    /// cursor, or the tail when there is no receiver.
    pub(super) closed spec fn wf(&self) -> bool {
        &&& self.consistent()
        &&& self.head_receivers == self.at_head()
        &&& self.head_receivers == 0 ==> self.receivers@.len() == 0 && self.head == self.tail
    }

    /// Whether only the buffer bookkeeping differs from `before`.
    pub(super) open spec fn same_log(&self, before: &Self) -> bool {
        &&& self.tail == before.tail
        &&& self.sent@ == before.sent@
        &&& self.waiters == before.waiters
    }

    /// Whether the peak backlog is the one of `before`, or was reset because the buffer is empty.
    pub(super) open spec fn peak_kept(&self, before: &Self) -> bool {
        self.peak_len == (if self.buffer@.len() == 0 {
            0
        } else {
            before.peak_len
        })
    }

    /// Whether `reclaimed` holds what left the buffer since `before`, oldest first.
    pub(super) open spec fn reclaimed_since(&self, before: &Self, reclaimed: Seq<Arc<T>>) -> bool {
        &&& before.head <= self.head
        &&& payloads(reclaimed) == self.sent@.subrange(before.head as int, self.head as int)
    }

    /// Creates the state of a channel with one receiver and no messages.
    pub(super) fn new() -> (created: (Self, ArenaKey))
        ensures
            created.0.wf(),
            created.0.receivers@ == ArenaView::<u64>::empty().insert(0),
            created.1.index() == 0,
            created.0.tail == 0,
            created.0.sent@ == Seq::<T>::empty(),
            created.0.waiters@ == WaitSetView::<Waker>::empty(),
            created.0.peak_len == 0,
    {
        let mut receivers = Arena::new();
        let key = receivers.insert(0);
        let inner = Inner {
            buffer: VecDeque::new(),
            head: 0,
            head_receivers: 1,
            tail: 0,
            receivers,
            peak_len: 0,
            waiters: WaitSet::new(),
            sent: Ghost(Seq::empty()),
        };
        proof {
            assert(payloads(inner.buffer@) =~= inner.sent@.subrange(0, 0));
            lemma_count_push(Seq::<Option<u64>>::empty(), Some(0u64), at_version(0));
        }
        (inner, key)
    }

    /// Adds a receiver whose cursor is `head`.
    pub(super) fn insert_receiver(&mut self, head: u64) -> (key: ArenaKey)
        requires
            old(self).wf(),
            old(self).head <= head <= old(self).tail,
        ensures
            final(self).wf(),
            key.index() == old(self).receivers@.next_index(),
            final(self).receivers@ == old(self).receivers@.insert(head),
            final(self).same_log(old(self)),
            final(self).head == old(self).head,
            final(self).peak_len == old(self).peak_len,
    {
        let ghost before = *self;
        let key = self.receivers.insert(head);
        proof {
            let slots = before.receivers@.slots;
            before.receivers.lemma_view_wf();
            self.receivers.lemma_view_wf();
            lemma_count_zero(before.receivers@.slots, is_occupied());
            if before.receivers@.free.len() == 0 {
                lemma_count_push(slots, Some(head), at_version(self.head));
            } else {
                lemma_count_update(
                    slots,
                    before.receivers@.free[0],
                    Some(head),
                    at_version(self.head),
                );
            }
            lemma_count_implied(self.receivers@.slots, at_version(self.head), is_occupied());
        }
        if head == self.head {
            self.head_receivers = self.head_receivers + 1;
        }
        key
    }

    /// Takes a receiver out, and with it the messages that only it had not read.
    pub(super) fn remove_receiver(&mut self, key: ArenaKey) -> (reclaimed: Vec<Arc<T>>)
        requires
            old(self).wf(),
            old(self).receivers@.contains(key),
        ensures
            final(self).wf(),
            final(self).receivers@ == old(self).receivers@.remove(key),
            final(self).same_log(old(self)),
            final(self).peak_kept(old(self)),
            final(self).reclaimed_since(old(self), reclaimed@),
    {
        let ghost before = *self;
        let head = self.receivers.remove(key);
        proof {
            lemma_count_update(
                before.receivers@.slots,
                key.index(),
                None,
                at_version(self.head),
            );
        }
        if head == self.head {
            self.release_head_receiver()
        } else {
            proof {
                lemma_nothing_reclaimed(self.sent@, self.head as int);
            }
            Vec::new()
        }
    }

    /// Moves the cursor of a receiver forward to `next_head`.
    fn advance_receiver(&mut self, key: ArenaKey, next_head: u64) -> (reclaimed: Vec<Arc<T>>)
        requires
            old(self).wf(),
            old(self).receivers@.contains(key),
            old(self).receivers@.get(key)->0 < next_head <= old(self).tail,
        ensures
            final(self).wf(),
            final(self).receivers@ == old(self).receivers@.set(key, next_head),
            final(self).same_log(old(self)),
            final(self).peak_kept(old(self)),
            final(self).reclaimed_since(old(self), reclaimed@),
            reclaimed@.len() > 0 ==> old(self).receivers@.get(key) == Some(old(self).head),
    {
        let ghost before = *self;
        let mut head = next_head;
        match self.receivers.get_mut(key) {
            Some(cursor) => {
                std::mem::swap(cursor, &mut head);
            },
            None => {},
        }
        proof {
            lemma_count_update(
                before.receivers@.slots,
                key.index(),
                Some(next_head),
                at_version(self.head),
            );
        }
        if head == self.head {
            self.release_head_receiver()
        } else {
            proof {
                lemma_nothing_reclaimed(self.sent@, self.head as int);
            }
            Vec::new()
        }
    }

    /// Notes that one receiver left the position `head`, and reclaims once none is left there.
    fn release_head_receiver(&mut self) -> (reclaimed: Vec<Arc<T>>)
        requires
            old(self).consistent(),
            old(self).head_receivers == old(self).at_head() + 1,
        ensures
            final(self).wf(),
            final(self).receivers == old(self).receivers,
            final(self).same_log(old(self)),
            final(self).peak_kept(old(self)),
            final(self).reclaimed_since(old(self), reclaimed@),
    {
        self.head_receivers = self.head_receivers - 1;
        if self.head_receivers == 0 {
            self.reclaim_consumed()
        } else {
            proof {
                lemma_nothing_reclaimed(self.sent@, self.head as int);
            }
            Vec::new()
        }
    }

    /// Appends a message, or hands it back when there is no receiver to read it.
    pub(super) fn publish(&mut self, message: Arc<T>) -> (unsent: Option<Arc<T>>)
        requires
            old(self).wf(),
            old(self).tail < u64::MAX,
        ensures
            final(self).wf(),
            final(self).tail == old(self).tail + 1,
            final(self).sent@ == old(self).sent@.push(*message),
            final(self).receivers == old(self).receivers,
            final(self).waiters == old(self).waiters,
            final(self).peak_len == (if old(self).receivers@.len() > 0 && final(self).buffer@.len()
                > old(self).peak_len {
                final(self).buffer@.len()
            } else {
                old(self).peak_len as nat
            }),
            unsent == (if old(self).receivers@.len() == 0 {
                Some(message)
            } else {
                None
            }),
    {
        let ghost before = *self;
        self.tail = self.tail + 1;
        self.sent = Ghost(self.sent@.push(payload(message)));
        proof {
            assert(payloads(before.buffer@).len() == before.buffer@.len());
        }
        if self.receivers.is_empty() {
            // Nobody will read this message, so `head` moves along and nothing is buffered.
            self.head = self.tail;
            proof {
                lemma_count_zero(self.receivers@.slots, is_occupied());
                lemma_count_implied(
                    self.receivers@.slots,
                    at_version(before.head),
                    is_occupied(),
                );
                lemma_count_implied(self.receivers@.slots, at_version(self.head), is_occupied());
                assert(payloads(self.buffer@) =~= self.sent@.subrange(
                    self.head as int,
                    self.tail as int,
                ));
                assert forall|i: int| 0 <= i < self.receivers@.slots.len() implies match #[trigger] self.receivers@.slots[i] {
                    Some(cursor) => self.head <= cursor <= self.tail,
                    None => true,
                } by {
                    assert(!is_occupied()(self.receivers@.slots[i]));
                }
            }
            Some(message)
        } else {
            self.buffer.push_back(message);
            if self.peak_len < self.buffer.len() {
                self.peak_len = self.buffer.len();
            }
            proof {
                assert(payloads(self.buffer@) =~= payloads(before.buffer@).push(*message));
                assert(payloads(self.buffer@) =~= self.sent@.subrange(
                    self.head as int,
                    self.tail as int,
                ));
            }
            None
        }
    }

    /// Takes the wakers of all parked receivers.
    pub(super) fn take_wakers(&mut self) -> (wakers: ArenaValues<Waker>)
        requires
            old(self).wf(),
            old(self).waiters@.epoch < u128::MAX,
        ensures
            final(self).wf(),
            *final(self) == (Inner { waiters: final(self).waiters, ..*old(self) }),
            final(self).waiters@ == old(self).waiters@.drained(),
            wakers@ == old(self).waiters@.all_parked(),
    {
        self.waiters.take_wakers()
    }

    /// Parks a receiver.
    pub(super) fn register_waker(
        &mut self,
        registration: &mut Option<WaitRegistration>,
        waker: Waker,
    ) -> (replaced: Option<Waker>)
        requires
            old(self).wf(),
        ensures
            final(self).wf(),
            *final(self) == (Inner { waiters: final(self).waiters, ..*old(self) }),
            final(self).waiters@ == old(self).waiters@.register(*old(registration), waker),
            old(self).waiters@.registered(*old(registration), *final(registration)),
            replaced == old(self).waiters@.parked(*old(registration)),
            *final(registration) is Some,
            final(self).waiters@.parked(*final(registration)) == Some(waker),
            forall|other: WaitRegistration|
                other.key() != (*final(registration))->0.key() ==> #[trigger] final(self).waiters@.parked(Some(other)) == old(self).waiters@.parked(Some(other)),
            final(self).waiters@.epoch == old(self).waiters@.epoch,
            final(self).waiters@.wakers.len() == old(self).waiters@.wakers.len() + (
            if replaced is Some {
                0nat
            } else {
                1nat
            }),
    {
        self.waiters.register_waker(registration, waker)
    }

    /// Takes the waker of one parked receiver.
    pub(super) fn unregister_waker(&mut self, registration: &mut Option<WaitRegistration>) -> (waker:
        Option<Waker>)
        requires
            old(self).wf(),
        ensures
            final(self).wf(),
            *final(self) == (Inner { waiters: final(self).waiters, ..*old(self) }),
            final(self).waiters@ == old(self).waiters@.unregister(*old(registration)),
            *final(registration) is None,
            waker == old(self).waiters@.parked(*old(registration)),
            final(self).waiters@.parked(*old(registration)) is None,
            forall|other: WaitRegistration|
                *old(registration) is Some && other.key() != (*old(registration))->0.key()
                    ==> #[trigger] final(self).waiters@.parked(Some(other)) == old(self).waiters@.parked(Some(other)),
            final(self).waiters@.epoch == old(self).waiters@.epoch,
            waker is None ==> final(self).waiters@ == old(self).waiters@,
            waker is Some ==> final(self).waiters@.wakers.len() + 1 == old(self).waiters@.wakers.len(),
    {
        self.waiters.unregister_waker(registration)
    }

    /// What a consistent channel state guarantees about its parts.
    pub(super) proof fn lemma_parts(&self)
        requires
            self.wf(),
        ensures
            self.receivers.wf(),
            self.waiters.wf(),
            self.sent@.len() == self.tail,
            self.head <= self.tail,
            self.buffer@.len() == self.tail - self.head,
            payloads(self.buffer@) == self.sent@.subrange(self.head as int, self.tail as int),
            forall|i: int|
                0 <= i < self.receivers@.slots.len() ==> match #[trigger] self.receivers@.slots[i] {
                    Some(cursor) => self.head <= cursor <= self.tail,
                    None => true,
                },
            self.receivers@.len() == 0 ==> self.head == self.tail,
            self.receivers@.len() > 0 ==> self.receivers@.slots.contains(Some(self.head)),
            self.buffer@.len() <= self.peak_len,
            self.buffer@.len() == 0 ==> self.peak_len == 0,
    {
        let slots = self.receivers@.slots;
        assert(payloads(self.buffer@).len() == self.buffer@.len());
        lemma_count_implied(slots, at_version(self.head), is_occupied());
        lemma_count_zero(slots, at_version(self.head));
        if self.receivers@.len() > 0 {
            assert(exists|i: int| 0 <= i < slots.len() && at_version(self.head)(slots[i]));
        }
    }

    /// Reads the next message of a receiver, if there is one, and moves its cursor past it.
    ///
    /// A receive that reclaims anything reclaims its own message first: only a cursor at `head`
    /// can let messages go, and the message at `head` is then the one that was read.
    pub(super) fn receive(&mut self, key: ArenaKey) -> (received: Option<(Arc<T>, Vec<Arc<T>>)>)
        requires
            old(self).wf(),
            old(self).receivers@.contains(key),
        ensures
            final(self).wf(),
            match received {
                Some((message, reclaimed)) => {
                    let cursor = old(self).receivers@.get(key)->0;
                    &&& cursor < old(self).tail
                    &&& *message == old(self).sent@[cursor as int]
                    &&& final(self).receivers@ == old(self).receivers@.set(key, (cursor + 1) as u64)
                    &&& final(self).same_log(old(self))
                    &&& final(self).peak_kept(old(self))
                    &&& final(self).reclaimed_since(old(self), reclaimed@)
                    &&& reclaimed@.len() > 0 ==> reclaimed@[0] == message
                },
                None => old(self).receivers@.get(key) == Some(old(self).tail) && *final(self)
                    == *old(self),
            },
    {
        let head = match self.receivers.get(key) {
            Some(cursor) => *cursor,
            None => unreached(),
        };
        proof {
            assert(self.receivers@.slots[key.index()] == Some(head));
            assert(payloads(self.buffer@).len() == self.buffer@.len());
        }
        if head < self.tail {
            let offset = (head - self.head) as usize;
            proof {
                assert(payloads(self.buffer@)[offset as int] == *self.buffer@[offset as int]);
            }
            let message = self.buffer[offset].clone();
            let reclaimed = self.advance_receiver(key, head + 1);
            proof {
                if reclaimed@.len() > 0 {
                    assert(payloads(reclaimed@).len() == reclaimed@.len());
                    assert(payloads(reclaimed@)[0] == *reclaimed@[0]);
                }
            }
            Some((message, reclaimed))
        } else {
            None
        }
    }

    /// Ends a fill-and-drain cycle when the buffer is empty: forgets the peak of that cycle, and
    /// decides by it to which capacity a buffer with the given capacity shrinks.
    ///
    /// A buffer that still holds messages is in the middle of its cycle, and nothing changes.
    fn end_cycle(&mut self, capacity: usize) -> (target: Option<usize>)
        ensures
            *final(self) == (Inner { peak_len: final(self).peak_len, ..*old(self) }),
            final(self).peak_kept(old(self)),
            final(self).peak_len == (if old(self).buffer@.len() == 0 {
                0
            } else {
                old(self).peak_len
            }),
            target == (if old(self).buffer@.len() == 0 {
                shrink_decision(capacity, old(self).peak_len)
            } else {
                None
            }),
    {
        if self.buffer.len() != 0 {
            return None;
        }
        let peak = self.peak_len;
        self.peak_len = 0;
        shrink_target(capacity, peak)
    }

    /// Returns the allocation grown for a stalled receiver once that backlog is gone.
    ///
    /// The decision is made only when the buffer drains completely, and against the peak of the
    /// cycle that just ended: a channel that repeatedly fills and drains keeps its allocation, and
    /// only once a full cycle stays small does the buffer give memory back. The capacity that
    /// results is up to the allocator and left open.
    fn shrink_buffer(&mut self)
        ensures
            *final(self) == (Inner {
                buffer: final(self).buffer,
                peak_len: final(self).peak_len,
                ..*old(self)
            }),
            final(self).buffer@ == old(self).buffer@,
            final(self).peak_kept(old(self)),
    {
        let capacity = deque_capacity(&self.buffer);
        if let Some(target) = self.end_cycle(capacity) {
            deque_shrink_to(&mut self.buffer, target);
        }
    }

    /// Moves `head` up to the slowest cursor and takes the messages in between out of the buffer.
    fn reclaim_consumed(&mut self) -> (reclaimed: Vec<Arc<T>>)
        requires
            old(self).consistent(),
        ensures
            final(self).wf(),
            final(self).receivers == old(self).receivers,
            final(self).same_log(old(self)),
            final(self).peak_kept(old(self)),
            final(self).reclaimed_since(old(self), reclaimed@),
    {
        let mut next_head = self.tail;
        let mut head_receivers: usize = 0;
        let total = self.receivers.slot_count();
        let mut index: usize = 0;
        let ghost slots = self.receivers@.slots;
        proof {
            assert(slots.take(0) =~= Seq::empty());
        }
        while index < total
            invariant
                self.consistent(),
                slots == self.receivers@.slots,
                total == slots.len(),
                index <= total,
                self.head <= next_head <= self.tail,
                forall|i: int|
                    0 <= i < index ==> match #[trigger] slots[i] {
                        Some(cursor) => next_head <= cursor,
                        None => true,
                    },
                head_receivers == count(slots.take(index as int), at_version(next_head)),
                next_head < self.tail ==> head_receivers > 0,
                head_receivers <= index,
            decreases total - index,
        {
            let ghost seen = slots.take(index as int);
            proof {
                assert(slots.take(index + 1) =~= seen.push(slots[index as int]));
                lemma_count_push(seen, slots[index as int], at_version(next_head));
            }
            if let Some(cursor) = self.receivers.value_at(index) {
                if *cursor < next_head {
                    next_head = *cursor;
                    head_receivers = 1;
                    proof {
                        lemma_count_push(seen, slots[index as int], at_version(next_head));
                        lemma_count_zero(seen, at_version(next_head));
                        assert forall|i: int| 0 <= i < seen.len() implies !at_version(next_head)(
                            #[trigger] seen[i],
                        ) by {
                            assert(seen[i] == slots[i]);
                        }
                    }
                } else if *cursor == next_head {
                    head_receivers = head_receivers + 1;
                }
            }
            index = index + 1;
        }
        proof {
            assert(slots.take(index as int) =~= slots);
        }
        let ghost before = *self;
        let consumed = (next_head - self.head) as usize;
        let mut reclaimed: Vec<Arc<T>> = Vec::with_capacity(consumed);
        proof {
            assert(payloads(self.buffer@).len() == self.buffer@.len());
            assert(self.buffer@.subrange(0, 0) =~= Seq::empty());
        }
        let mut taken: usize = 0;
        while taken < consumed
            invariant
                taken <= consumed <= before.buffer@.len(),
                self.buffer@ == before.buffer@.skip(taken as int),
                reclaimed@ == before.buffer@.take(taken as int),
                *self == (Inner { buffer: self.buffer, ..before }),
            decreases consumed - taken,
        {
            match self.buffer.pop_front() {
                Some(message) => {
                    reclaimed.push(message);
                },
                None => {},
            }
            proof {
                assert(self.buffer@ =~= before.buffer@.skip(taken + 1));
                assert(reclaimed@ =~= before.buffer@.take(taken + 1));
            }
            taken = taken + 1;
        }
        self.head = next_head;
        self.head_receivers = head_receivers;
        self.shrink_buffer();
        proof {
            assert(payloads(self.buffer@) =~= self.sent@.subrange(
                self.head as int,
                self.tail as int,
            )) by {
                assert forall|i: int| 0 <= i < self.buffer@.len() implies *(
                #[trigger] self.buffer@[i]) == self.sent@[self.head + i] by {
                    assert(payloads(before.buffer@)[consumed + i] == *before.buffer@[consumed + i]);
                }
            }
            assert(payloads(reclaimed@) =~= self.sent@.subrange(
                before.head as int,
                self.head as int,
            )) by {
                assert forall|i: int| 0 <= i < reclaimed@.len() implies *(#[trigger] reclaimed@[i])
                    == self.sent@[before.head + i] by {
                    assert(payloads(before.buffer@)[i] == *before.buffer@[i]);
                }
            }
            if self.head_receivers == 0 {
                lemma_count_zero(slots, at_version(self.tail));
                lemma_count_zero(slots, is_occupied());
                assert forall|i: int| 0 <= i < slots.len() implies !is_occupied()(
                    #[trigger] slots[i],
                ) by {
                    assert(!at_version(self.tail)(slots[i]));
                }
            }
        }
        reclaimed
    }
}

/// No messages lie between a version and itself.
proof fn lemma_nothing_reclaimed<T>(sent: Seq<T>, head: int)
    requires
        0 <= head <= sent.len(),
    ensures
        payloads(Seq::<Arc<T>>::empty()) == sent.subrange(head, head),
{
    assert(payloads(Seq::<Arc<T>>::empty()) =~= sent.subrange(head, head));
}

/// The capacity that a drained buffer shrinks to: twice the peak of the cycle that just ended, but
/// not below the least capacity; nothing when the cycle used more than a quarter of the capacity.
pub open spec fn shrink_decision(capacity: usize, peak: usize) -> Option<usize> {
    if capacity > MIN_RETAINED_CAPACITY && peak <= capacity / 4 {
        if 2 * peak > MIN_RETAINED_CAPACITY {
            Some((2 * peak) as usize)
        } else {
            Some(MIN_RETAINED_CAPACITY)
        }
    } else {
        None
    }
}

/// Decides whether a drained buffer gives memory back, and down to which capacity.
///
/// `capacity` is what the buffer has allocated, `peak` the largest backlog of the cycle that just
/// ended.
pub fn shrink_target(capacity: usize, peak: usize) -> (target: Option<usize>)
    ensures
        target == shrink_decision(capacity, peak),
        target is Some <==> capacity > 64 && 4 * peak <= capacity,
        target is Some ==> target->0 >= 64 && target->0 >= 2 * peak,
        target is Some ==> target->0 == 64 || target->0 == 2 * peak,
{
    if capacity > MIN_RETAINED_CAPACITY && peak <= capacity / 4 {
        let doubled = peak * 2;
        if doubled > MIN_RETAINED_CAPACITY {
            Some(doubled)
        } else {
            Some(MIN_RETAINED_CAPACITY)
        }
    } else {
        None
    }
}

} // verus!
