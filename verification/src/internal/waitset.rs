//! Parked waiters, each represented by the waker that resumes it.

use vstd::prelude::*;

use crate::internal::arena::law_insert_then_get;
use crate::internal::arena::law_key_is_its_index;
use crate::internal::arena::law_remove_keeps_others;
use crate::internal::arena::law_set_changes_only_its_key;
use crate::internal::arena::law_values_are_the_occupied_slots;
use crate::internal::arena::lemma_insert_wf;
use crate::internal::arena::lemma_remove_wf;
use crate::internal::arena::occupied_values;
use crate::internal::arena::Arena;
use crate::internal::arena::ArenaKey;
use crate::internal::arena::ArenaValues;
use crate::internal::arena::ArenaView;

verus! {

/// Names the slot of one parked waiter until the wait set is drained.
pub struct WaitRegistration {
    key: ArenaKey,
    epoch: u128,
}

impl WaitRegistration {
    /// The slot that holds the waker.
    pub closed spec fn key(self) -> ArenaKey {
        self.key
    }

    /// The number of times that the wait set had been drained when this registration was made.
    pub closed spec fn epoch(self) -> nat {
        self.epoch as nat
    }
}

/// What a [`WaitSet`] holds: the parked wakers, and how often it has been drained.
#[verifier::ext_equal]
pub struct WaitSetView<W> {
    pub wakers: ArenaView<W>,
    pub epoch: nat,
}

impl<W> WaitSetView<W> {
    /// A wait set without waiters that has never been drained.
    pub open spec fn empty() -> Self {
        WaitSetView { wakers: ArenaView::empty(), epoch: 0 }
    }

    /// The slots of the parked wakers are consistent.
    pub open spec fn wf(self) -> bool {
        self.wakers.wf()
    }

    /// The waker parked under `registration`; none once the set was drained.
    pub open spec fn parked(self, registration: Option<WaitRegistration>) -> Option<W> {
        match registration {
            Some(registration) => if registration.epoch() == self.epoch {
                self.wakers.get(registration.key())
            } else {
                None
            },
            None => None,
        }
    }

    /// The set after `waker` was parked under `registration`, replacing the one parked there.
    pub open spec fn register(self, registration: Option<WaitRegistration>, waker: W) -> Self {
        if self.parked(registration) is Some {
            WaitSetView { wakers: self.wakers.set(registration->0.key(), waker), ..self }
        } else {
            WaitSetView { wakers: self.wakers.insert(waker), ..self }
        }
    }

    /// Whether `after` is the registration that a waiter holds once it was parked.
    pub open spec fn registered(
        self,
        before: Option<WaitRegistration>,
        after: Option<WaitRegistration>,
    ) -> bool {
        if self.parked(before) is Some {
            after == before
        } else {
            after is Some && after->0.epoch() == self.epoch && after->0.key().index()
                == self.wakers.next_index()
        }
    }

    /// The set after the waiter under `registration` left.
    pub open spec fn unregister(self, registration: Option<WaitRegistration>) -> Self {
        if self.parked(registration) is Some {
            WaitSetView { wakers: self.wakers.remove(registration->0.key()), ..self }
        } else {
            self
        }
    }

    /// The set after every waiter was taken out.
    pub open spec fn drained(self) -> Self {
        WaitSetView { wakers: ArenaView::empty(), epoch: self.epoch + 1 }
    }

    /// Every parked waker, in slot order.
    pub open spec fn all_parked(self) -> Seq<W> {
        occupied_values(self.wakers.slots)
    }
}

/// The waiters that the next notification resumes.
pub struct WaitSet<W> {
    wakers: Arena<W>,
    /// The number of drains so far. A registration from an earlier count no longer names a slot.
    epoch: u128,
}

impl<W> View for WaitSet<W> {
    type V = WaitSetView<W>;

    closed spec fn view(&self) -> WaitSetView<W> {
        WaitSetView { wakers: self.wakers@, epoch: self.epoch as nat }
    }
}

impl<W> WaitSet<W> {
    /// The slots of the parked wakers are consistent.
    pub closed spec fn wf(&self) -> bool {
        self.wakers.wf()
    }

    /// The model of a consistent wait set is consistent.
    pub proof fn lemma_view_wf(&self)
        requires
            self.wf(),
        ensures
            self@.wf(),
    {
        self.wakers.lemma_view_wf();
    }

    /// Creates a wait set without waiters.
    pub fn new() -> (set: Self)
        ensures
            set.wf(),
            set@ == WaitSetView::<W>::empty(),
            forall|r: Option<WaitRegistration>| (#[trigger] set@.parked(r)) is None,
            set@.epoch == 0,
    {
        WaitSet { wakers: Arena::new(), epoch: 0 }
    }

    /// Tells whether `registration` still names a parked waiter.
    fn is_parked(&self, registration: &Option<WaitRegistration>) -> (parked: bool)
        ensures
            parked <==> self@.parked(*registration) is Some,
    {
        match registration {
            Some(registration) => registration.epoch == self.epoch && self.wakers.get(
                registration.key,
            ).is_some(),
            None => false,
        }
    }

    /// Parks `waker`, in the slot that `registration` names or in a new one.
    ///
    /// Returns the waker that was parked there before.
    pub fn register_waker(
        &mut self,
        registration: &mut Option<WaitRegistration>,
        waker: W,
    ) -> (replaced: Option<W>)
        requires
            old(self).wf(),
        ensures
            final(self).wf(),
            final(self)@ == old(self)@.register(*old(registration), waker),
            old(self)@.registered(*old(registration), *final(registration)),
            replaced == old(self)@.parked(*old(registration)),
            *final(registration) is Some,
            final(self)@.parked(*final(registration)) == Some(waker),
            forall|other: WaitRegistration|
                other.key() != (*final(registration))->0.key() ==> #[trigger] final(self)@.parked(
                    Some(other),
                ) == old(self)@.parked(Some(other)),
            final(self)@.epoch == old(self)@.epoch,
            final(self)@.wakers.len() == old(self)@.wakers.len() + (if replaced is Some {
                0nat
            } else {
                1nat
            }),
            replaced is Some ==> *final(registration) == *old(registration),
            replaced is None ==> old(self)@.wakers.get((*final(registration))->0.key()) is None,
    {
        let ghost before = self@;
        let ghost claimed = *registration;
        proof {
            self.lemma_view_wf();
            assert forall|after: Option<WaitRegistration>| #[trigger]
                before.registered(claimed, after) implies before.register(claimed, waker).parked(
                after,
            ) == Some(waker) && (forall|other: WaitRegistration|
                other.key() != after->0.key() ==> #[trigger] before.register(claimed, waker).parked(
                    Some(other),
                ) == before.parked(Some(other))) by {
                law_registered_waker_is_parked(before, claimed, after, waker);
                assert forall|other: WaitRegistration|
                    other.key() != after->0.key() implies #[trigger] before.register(
                    claimed,
                    waker,
                ).parked(Some(other)) == before.parked(Some(other)) by {
                    law_register_keeps_others(before, claimed, after, waker, Some(other));
                }
            }
            law_register_adds_at_most_one(before, claimed, waker);
        }
        if self.is_parked(registration) {
            let mut replaced = waker;
            match registration {
                Some(current) => match self.wakers.get_mut(current.key) {
                    Some(slot) => {
                        std::mem::swap(slot, &mut replaced);
                    },
                    None => {},
                },
                None => {},
            }
            Some(replaced)
        } else {
            let key = self.wakers.insert(waker);
            *registration = Some(WaitRegistration { key, epoch: self.epoch });
            None
        }
    }

    /// Removes the waiter that `registration` names and clears the registration.
    ///
    /// Returns its waker, or `None` when the set was drained in the meantime.
    pub fn unregister_waker(&mut self, registration: &mut Option<WaitRegistration>) -> (waker:
        Option<W>)
        requires
            old(self).wf(),
        ensures
            final(self).wf(),
            final(self)@ == old(self)@.unregister(*old(registration)),
            *final(registration) is None,
            waker == old(self)@.parked(*old(registration)),
            final(self)@.parked(*old(registration)) is None,
            forall|other: WaitRegistration|
                *old(registration) is Some && other.key() != (*old(registration))->0.key()
                    ==> #[trigger] final(self)@.parked(Some(other)) == old(self)@.parked(
                    Some(other),
                ),
            final(self)@.epoch == old(self)@.epoch,
            waker is None ==> final(self)@ == old(self)@,
            waker is Some ==> final(self)@.wakers.len() + 1 == old(self)@.wakers.len(),
    {
        let ghost before = self@;
        let ghost claimed = *registration;
        proof {
            self.lemma_view_wf();
            if claimed is Some {
                assert forall|other: WaitRegistration|
                    other.key() != claimed->0.key() implies #[trigger] before.unregister(
                    claimed,
                ).parked(Some(other)) == before.parked(Some(other)) by {
                    law_unregister_keeps_others(before, claimed, Some(other));
                }
            }
            law_unregister_takes_out_one(before, claimed);
        }
        let parked = self.is_parked(registration);
        match registration.take() {
            Some(current) => if parked {
                Some(self.wakers.remove(current.key))
            } else {
                None
            },
            None => None,
        }
    }

    /// Takes every parked waker out and retires their registrations.
    pub fn take_wakers(&mut self) -> (wakers: ArenaValues<W>)
        requires
            old(self).wf(),
            old(self)@.epoch < u128::MAX,
        ensures
            final(self).wf(),
            final(self)@ == old(self)@.drained(),
            wakers@ == old(self)@.all_parked(),
            wakers@ == occupied_values(old(self)@.wakers.slots),
            wakers@.len() == old(self)@.wakers.len(),
            forall|r: Option<WaitRegistration>|
                (#[trigger] old(self)@.parked(r)) is Some ==> wakers@.contains(
                    old(self)@.parked(r)->0,
                ),
            forall|r: Option<WaitRegistration>| (#[trigger] final(self)@.parked(r)) is None,
            final(self)@.epoch == old(self)@.epoch + 1,
    {
        proof {
            self.lemma_view_wf();
            assert forall|r: Option<WaitRegistration>|
                (#[trigger] self@.parked(r)) is Some implies self@.all_parked().contains(
                self@.parked(r)->0,
            ) by {
                law_drain_reaches_every_waiter(self@, r);
            }
            law_drain_reaches_every_waiter(self@, None);
        }
        self.epoch = self.epoch + 1;
        self.wakers.take_all()
    }
}

/// Parking, leaving and draining keep the slots of the parked wakers consistent.
pub proof fn law_wait_set_stays_consistent<W>(
    view: WaitSetView<W>,
    registration: Option<WaitRegistration>,
    waker: W,
)
    requires
        view.wf(),
    ensures
        view.register(registration, waker).wf(),
        view.unregister(registration).wf(),
        view.drained().wf(),
{
    if view.parked(registration) is Some {
        lemma_remove_wf(view.wakers, registration->0.key());
    } else {
        lemma_insert_wf(view.wakers, waker);
    }
}

/// A waiter that was just parked is found under the registration it was given, with its own waker.
pub proof fn law_registered_waker_is_parked<W>(
    view: WaitSetView<W>,
    before: Option<WaitRegistration>,
    after: Option<WaitRegistration>,
    waker: W,
)
    requires
        view.wf(),
        view.registered(before, after),
    ensures
        view.register(before, waker).wf(),
        view.register(before, waker).parked(after) == Some(waker),
{
    if view.parked(before) is None {
        law_insert_then_get(view.wakers, waker, after->0.key());
    }
}

/// Parking a waiter leaves every other registration as it was, parked or not.
pub proof fn law_register_keeps_others<W>(
    view: WaitSetView<W>,
    before: Option<WaitRegistration>,
    after: Option<WaitRegistration>,
    waker: W,
    other: Option<WaitRegistration>,
)
    requires
        view.wf(),
        view.registered(before, after),
        other is Some ==> other->0.key() != after->0.key(),
    ensures
        view.register(before, waker).parked(other) == view.parked(other),
{
    broadcast use law_key_is_its_index;

}

/// Parking adds a waiter only when none was parked under the registration; otherwise it takes that
/// waiter's place. It is no notification: the registrations made so far stay valid.
pub proof fn law_register_adds_at_most_one<W>(
    view: WaitSetView<W>,
    registration: Option<WaitRegistration>,
    waker: W,
)
    requires
        view.wf(),
    ensures
        view.register(registration, waker).wakers.len() == view.wakers.len() + (if view.parked(
            registration,
        ) is Some {
            0nat
        } else {
            1nat
        }),
        view.register(registration, waker).epoch == view.epoch,
{
    if view.parked(registration) is Some {
        law_set_changes_only_its_key(view.wakers, registration->0.key(), waker);
    } else {
        lemma_insert_wf(view.wakers, waker);
    }
}

/// A waiter gets a slot of its own: a registration that was made for a newly parked waiter names a
/// slot in which nobody was parked, and is valid until the next drain.
pub proof fn law_new_waiter_gets_its_own_slot<W>(
    view: WaitSetView<W>,
    before: Option<WaitRegistration>,
    after: Option<WaitRegistration>,
)
    requires
        view.wf(),
        view.registered(before, after),
    ensures
        after is Some,
        after->0.epoch() == view.epoch,
        view.parked(before) is Some ==> after == before,
        view.parked(before) is None ==> view.wakers.get(after->0.key()) is None,
{
    if view.parked(before) is None && view.wakers.slots.len() > 0 && view.wakers.free.len() > 0 {
        assert(view.wakers.slots[view.wakers.free[0]] is None);
    }
}

/// A waiter that leaves is taken out once, under its own registration. Without a parked waiter under
/// the registration nothing changes. Leaving is no notification.
pub proof fn law_unregister_takes_out_one<W>(
    view: WaitSetView<W>,
    registration: Option<WaitRegistration>,
)
    requires
        view.wf(),
    ensures
        view.unregister(registration).parked(registration) is None,
        view.parked(registration) is Some ==> view.unregister(registration).wakers.len() + 1
            == view.wakers.len(),
        view.parked(registration) is None ==> view.unregister(registration) == view,
        view.unregister(registration).epoch == view.epoch,
{
    if view.parked(registration) is Some {
        law_remove_keeps_others(view.wakers, registration->0.key());
    }
}

/// A waiter is found under a registration only while the set was not drained since, and then it is
/// the one in the slot that the registration names.
pub proof fn law_registration_is_valid_until_drained<W>(
    view: WaitSetView<W>,
    registration: WaitRegistration,
)
    ensures
        registration.epoch() == view.epoch ==> view.parked(Some(registration)) == view.wakers.get(
            registration.key(),
        ),
        registration.epoch() != view.epoch ==> view.parked(Some(registration)) is None,
        view.parked(None) is None,
{
}

/// After a drain nobody is parked, under any registration, and the drain is counted.
pub proof fn law_drain_empties_the_set<W>(
    view: WaitSetView<W>,
    registration: Option<WaitRegistration>,
)
    ensures
        view.drained().parked(registration) is None,
        view.drained().all_parked().len() == 0,
        view.drained().wakers.len() == 0,
        view.drained().epoch == view.epoch + 1,
        WaitSetView::<W>::empty().parked(registration) is None,
        WaitSetView::<W>::empty().all_parked().len() == 0,
        WaitSetView::<W>::empty().epoch == 0,
{
}

/// A waiter that leaves is no longer parked, and every other parked waiter stays where it was.
pub proof fn law_unregister_keeps_others<W>(
    view: WaitSetView<W>,
    registration: Option<WaitRegistration>,
    other: Option<WaitRegistration>,
)
    requires
        view.wf(),
        registration is Some,
        other is Some,
        other->0.key() != registration->0.key(),
    ensures
        view.unregister(registration).wf(),
        view.unregister(registration).parked(registration) is None,
        view.unregister(registration).parked(other) == view.parked(other),
{
    if view.parked(registration) is Some {
        law_remove_keeps_others(view.wakers, registration->0.key());
    }
}

/// A drain hands out the waker of every parked waiter, no more wakers than waiters, no waker that was
/// not parked, and all of them in the order of their slots.
pub proof fn law_drain_reaches_every_waiter<W>(
    view: WaitSetView<W>,
    registration: Option<WaitRegistration>,
)
    requires
        view.wf(),
    ensures
        view.parked(registration) is Some ==> view.all_parked().contains(
            view.parked(registration)->0,
        ),
        view.all_parked().len() == view.wakers.len(),
        view.all_parked() == occupied_values(view.wakers.slots),
        forall|j: int|
            0 <= j < view.all_parked().len() ==> view.wakers.slots.contains(
                Some(#[trigger] view.all_parked()[j]),
            ),
{
    law_values_are_the_occupied_slots(view.wakers.slots);
}

/// Once a wait set was drained, a registration made before names no waiter in it, however many
/// waiters were parked since: giving the registration up changes nothing.
pub proof fn law_drain_retires_registrations<W>(
    view: WaitSetView<W>,
    registration: Option<WaitRegistration>,
    later: WaitSetView<W>,
)
    requires
        view.parked(registration) is Some,
        later.epoch >= view.drained().epoch,
    ensures
        later.parked(registration) is None,
        later.unregister(registration) == later,
{
}

} // verus!
