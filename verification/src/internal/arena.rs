//! Reusable slot storage addressed by stable keys.

use vstd::pervasive::unreached;
use vstd::prelude::*;

use crate::internal::counting::count;
use crate::internal::counting::lemma_count_bound;
use crate::internal::counting::lemma_count_push;
use crate::internal::counting::lemma_count_update;
use crate::internal::counting::lemma_count_zero;
use crate::internal::std_items::vec_capacity;

verus! {

/// A stable index into an [`Arena`] for as long as its slot remains occupied.
#[derive(Clone, Copy, Debug, Eq, PartialEq, Structural)]
pub struct ArenaKey(usize);

impl ArenaKey {
    /// The index of the slot that this key names.
    pub closed spec fn index(self) -> int {
        self.0 as int
    }

    /// Encodes this key as a number that is never zero.
    ///
    /// No arena holds `usize::MAX` slots before it hands a key out, so every key that an arena
    /// returned can be encoded.
    pub fn encode(self) -> (encoded: usize)
        requires
            self.index() < usize::MAX,
        ensures
            encoded == self.index() + 1,
            encoded != 0,
    {
        self.0 + 1
    }

    /// Decodes a key produced by [`Self::encode`].
    pub fn decode(encoded: usize) -> (key: Self)
        requires
            encoded != 0,
        ensures
            key.index() == encoded - 1,
    {
        ArenaKey(encoded - 1)
    }
}

/// Two keys with the same index are the same key.
pub broadcast proof fn law_key_is_its_index(a: ArenaKey, b: ArenaKey)
    requires
        #[trigger] a.index() == #[trigger] b.index(),
    ensures
        a == b,
{
}

/// What an [`Arena`] holds: the value of each slot, and the vacant slots in the order in which
/// insertions reuse them.
#[verifier::ext_equal]
pub struct ArenaView<T> {
    pub slots: Seq<Option<T>>,
    pub free: Seq<int>,
}

/// The values of the occupied slots, in slot order.
pub open spec fn occupied_values<T>(slots: Seq<Option<T>>) -> Seq<T>
    decreases slots.len(),
{
    if slots.len() == 0 {
        Seq::empty()
    } else {
        match slots.last() {
            Some(value) => occupied_values(slots.drop_last()).push(value),
            None => occupied_values(slots.drop_last()),
        }
    }
}

/// The predicate "this slot is occupied".
pub open spec fn is_occupied<T>() -> spec_fn(Option<T>) -> bool {
    |slot: Option<T>| slot is Some
}

impl<T> ArenaView<T> {
    /// An arena without slots.
    pub open spec fn empty() -> Self {
        ArenaView { slots: Seq::empty(), free: Seq::empty() }
    }

    /// The free list names exactly the vacant slots, each once.
    pub open spec fn wf(self) -> bool {
        &&& forall|j: int|
            0 <= j < self.free.len() ==> 0 <= #[trigger] self.free[j] < self.slots.len()
                && self.slots[self.free[j]] is None
        &&& forall|i: int|
            0 <= i < self.slots.len() && (#[trigger] self.slots[i]) is None ==> self.free.contains(
                i,
            )
        &&& self.free.no_duplicates()
    }

    /// Whether `key` names an occupied slot.
    pub open spec fn contains(self, key: ArenaKey) -> bool {
        0 <= key.index() < self.slots.len() && self.slots[key.index()] is Some
    }

    /// The value stored under `key`.
    pub open spec fn get(self, key: ArenaKey) -> Option<T> {
        if 0 <= key.index() < self.slots.len() {
            self.slots[key.index()]
        } else {
            None
        }
    }

    /// The number of occupied slots.
    pub open spec fn len(self) -> nat {
        count(self.slots, is_occupied())
    }

    /// The slot that the next insertion uses: the most recently vacated one, or a new one.
    pub open spec fn next_index(self) -> int {
        if self.free.len() == 0 {
            self.slots.len() as int
        } else {
            self.free[0]
        }
    }

    /// The arena after `value` went into the next slot.
    pub open spec fn insert(self, value: T) -> Self {
        if self.free.len() == 0 {
            ArenaView { slots: self.slots.push(Some(value)), free: self.free }
        } else {
            ArenaView {
                slots: self.slots.update(self.free[0], Some(value)),
                free: self.free.drop_first(),
            }
        }
    }

    /// The arena after the value under `key` was replaced.
    pub open spec fn set(self, key: ArenaKey, value: T) -> Self {
        ArenaView { slots: self.slots.update(key.index(), Some(value)), free: self.free }
    }

    /// The arena after the slot of `key` was vacated.
    pub open spec fn remove(self, key: ArenaKey) -> Self {
        ArenaView {
            slots: self.slots.update(key.index(), None),
            free: seq![key.index()] + self.free,
        }
    }
}

/// An insertion keeps the free list exact and adds one value.
pub proof fn lemma_insert_wf<T>(view: ArenaView<T>, value: T)
    requires
        view.wf(),
    ensures
        view.insert(value).wf(),
        view.insert(value).len() == view.len() + 1,
        view.insert(value).len() <= view.insert(value).slots.len(),
{
    let after = view.insert(value);
    lemma_count_bound(after.slots, is_occupied());
    if view.free.len() == 0 {
        lemma_count_push(view.slots, Some(value), is_occupied());
    } else {
        let first = view.free[0];
        lemma_count_update(view.slots, first, Some(value), is_occupied());
        assert forall|i: int|
            0 <= i < after.slots.len() && (#[trigger] after.slots[i]) is None implies after.free.contains(
            i,
        ) by {
            assert(view.slots[i] is None);
            let j = view.free.index_of(i);
            assert(view.free[j] == i);
            assert(after.free[j - 1] == i);
        }
    }
}

/// A removal keeps the free list exact and takes one value away.
pub proof fn lemma_remove_wf<T>(view: ArenaView<T>, key: ArenaKey)
    requires
        view.wf(),
        view.contains(key),
    ensures
        view.remove(key).wf(),
        view.remove(key).len() == view.len() - 1,
{
    let after = view.remove(key);
    let index = key.index();
    lemma_count_update(view.slots, index, None, is_occupied());
    assert(!view.free.contains(index));
    assert(after.free[0] == index);
    assert forall|i: int|
        0 <= i < after.slots.len() && (#[trigger] after.slots[i]) is None implies after.free.contains(
        i,
    ) by {
        if i != index {
            assert(view.slots[i] is None);
            let j = view.free.index_of(i);
            assert(view.free[j] == i);
            assert(after.free[j + 1] == i);
        }
    }
}

enum Slot<T> {
    Occupied(T),
    Vacant(usize),
}

impl<T> Slot<T> {
    spec fn value(self) -> Option<T> {
        match self {
            Slot::Occupied(value) => Some(value),
            Slot::Vacant(_) => None,
        }
    }
}

/// Minimal reusable storage for internal waiter state.
pub struct Arena<T> {
    slots: Vec<Slot<T>>,
    /// The next reusable slot, or `slots.len()` when every slot is occupied.
    next_vacant: usize,
    len: usize,
    /// The vacant slots, in the order of the list that starts at `next_vacant`.
    free: Ghost<Seq<int>>,
}

impl<T> View for Arena<T> {
    type V = ArenaView<T>;

    closed spec fn view(&self) -> ArenaView<T> {
        ArenaView {
            slots: Seq::new(self.slots@.len(), |i: int| self.slots@[i].value()),
            free: self.free@,
        }
    }
}

impl<T> Arena<T> {
    /// The slot that follows position `j` of the free list, or the number of slots at its end.
    spec fn successor(&self, j: int) -> int {
        if j + 1 < self.free@.len() {
            self.free@[j + 1]
        } else {
            self.slots@.len() as int
        }
    }

    /// The stored free list and length agree with the model.
    pub closed spec fn wf(&self) -> bool {
        &&& self@.wf()
        &&& self.len == self@.len()
        &&& self.next_vacant == self@.next_index()
        &&& forall|j: int|
            0 <= j < self.free@.len() ==> (#[trigger] self.slots@[self.free@[j]])
                == Slot::<T>::Vacant(self.successor(j) as usize)
        &&& self.slots@.len() <= usize::MAX
    }

    /// Whether `after` is this arena with `value` stored in the slot of `key`.
    spec fn is_set(&self, key: ArenaKey, value: T, after: &Self) -> bool {
        &&& after.slots@ == self.slots@.update(key.index(), Slot::Occupied(value))
        &&& after.next_vacant == self.next_vacant
        &&& after.len == self.len
        &&& after.free == self.free
    }

    /// Replacing the value of an occupied slot leaves the bookkeeping as it was.
    broadcast proof fn lemma_set(&self, key: ArenaKey, value: T, after: Self)
        requires
            self.wf(),
            self@.contains(key),
            self.is_set(key, value, &after),
        ensures
            #![trigger after.wf(), self@.set(key, value)]
            after.wf(),
            after@ == self@.set(key, value),
    {
        lemma_count_update(self@.slots, key.index(), Some(value), is_occupied());
        assert(after@ =~= self@.set(key, value));
    }

    /// The model of a consistent arena is consistent, and its slots fit in memory.
    pub proof fn lemma_view_wf(&self)
        requires
            self.wf(),
        ensures
            self@.wf(),
            self@.len() <= self@.slots.len() <= usize::MAX,
    {
        lemma_count_bound(self@.slots, is_occupied());
    }

    /// Creates an arena without slots.
    pub fn new() -> (arena: Self)
        ensures
            arena.wf(),
            arena@ == ArenaView::<T>::empty(),
            forall|key: ArenaKey| (#[trigger] arena@.get(key)) is None,
            arena@.len() == 0,
            arena@.next_index() == 0,
    {
        let arena = Arena { slots: Vec::new(), next_vacant: 0, len: 0, free: Ghost(Seq::empty()) };
        assert(arena@ =~= ArenaView::<T>::empty());
        arena
    }

    /// Creates an arena without slots that has room for `capacity` of them.
    ///
    /// What the arena holds does not depend on `capacity`, which only decides when it allocates. How
    /// much room the allocator gives is left open.
    pub fn with_capacity(capacity: usize) -> (arena: Self)
        ensures
            arena.wf(),
            arena@ == ArenaView::<T>::empty(),
            forall|key: ArenaKey| (#[trigger] arena@.get(key)) is None,
            arena@.len() == 0,
            arena@.next_index() == 0,
    {
        let arena = Arena {
            slots: Vec::with_capacity(capacity),
            next_vacant: 0,
            len: 0,
            free: Ghost(Seq::empty()),
        };
        assert(arena@ =~= ArenaView::<T>::empty());
        arena
    }

    /// Stores `value` in the most recently vacated slot, or in a new one when none is vacant.
    pub fn insert(&mut self, value: T) -> (key: ArenaKey)
        requires
            old(self).wf(),
        ensures
            final(self).wf(),
            key.index() == old(self)@.next_index(),
            final(self)@ == old(self)@.insert(value),
            key.index() < usize::MAX,
            old(self)@.get(key) is None,
            final(self)@.get(key) == Some(value),
            forall|other: ArenaKey|
                other != key ==> #[trigger] final(self)@.get(other) == old(self)@.get(other),
            final(self)@.len() == old(self)@.len() + 1,
            final(self)@.slots.len() == (if old(self)@.slots.contains(None) {
                old(self)@.slots.len()
            } else {
                old(self)@.slots.len() + 1
            }),
    {
        let key = self.next_vacant;
        let ghost before = *self;
        proof {
            lemma_insert_wf(self@, value);
            law_insert_then_get(self@, value, ArenaKey(key));
            law_vacant_slots_are_used_first(self@, value);
        }
        if key == self.slots.len() {
            self.slots.push(Slot::Occupied(value));
            self.next_vacant = self.slots.len();
        } else {
            self.next_vacant = match &self.slots[key] {
                Slot::Vacant(next) => *next,
                Slot::Occupied(_) => unreached(),
            };
            self.slots.set(key, Slot::Occupied(value));
            self.free = Ghost(self.free@.drop_first());
        }
        proof {
            assert(self@ =~= before@.insert(value));
        }
        self.len = self.len + 1;
        ArenaKey(key)
    }

    /// Returns the number of slots that the arena has room for without allocating.
    pub fn capacity(&self) -> (capacity: usize)
        ensures
            capacity >= self@.slots.len(),
    {
        vec_capacity(&self.slots)
    }

    /// Returns the value stored under `key`, if its slot is occupied.
    pub fn get(&self, key: ArenaKey) -> (value: Option<&T>)
        ensures
            value == (match self@.get(key) {
                Some(stored) => Some(&stored),
                None => None,
            }),
    {
        if key.0 < self.slots.len() {
            match &self.slots[key.0] {
                Slot::Occupied(value) => Some(value),
                Slot::Vacant(_) => None,
            }
        } else {
            None
        }
    }

    /// Returns the value stored under `key` for modification, if its slot is occupied.
    pub fn get_mut(&mut self, key: ArenaKey) -> (value: Option<&mut T>)
        requires
            old(self).wf(),
        ensures
            final(self).wf(),
            match value {
                Some(stored) => {
                    &&& old(self)@.get(key) == Some(*stored)
                    &&& final(self)@ == old(self)@.set(key, *final(stored))
                },
                None => old(self)@.get(key) is None && *final(self) == *old(self),
            },
    {
        broadcast use Arena::lemma_set;

        if self.get(key).is_none() {
            return None;
        }
        match &mut self.slots[key.0] {
            Slot::Occupied(value) => {
                let ghost _after = old(self)@.set(key, *final(value));
                Some(value)
            },
            Slot::Vacant(_) => unreached(),
        }
    }

    /// Returns the number of occupied slots.
    pub fn len(&self) -> (len: usize)
        requires
            self.wf(),
        ensures
            len == self@.len(),
    {
        self.len
    }

    /// Returns `true` if no slot is occupied.
    pub fn is_empty(&self) -> (empty: bool)
        requires
            self.wf(),
        ensures
            empty <==> self@.len() == 0,
    {
        self.len == 0
    }

    /// Returns the number of slots, occupied or vacant.
    pub fn slot_count(&self) -> (slots: usize)
        ensures
            slots == self@.slots.len(),
    {
        self.slots.len()
    }

    /// Returns the value in the slot with the given index, if that slot is occupied.
    pub fn value_at(&self, index: usize) -> (value: Option<&T>)
        requires
            index < self@.slots.len(),
        ensures
            value == (match self@.slots[index as int] {
                Some(stored) => Some(&stored),
                None => None,
            }),
    {
        match &self.slots[index] {
            Slot::Occupied(value) => Some(value),
            Slot::Vacant(_) => None,
        }
    }

    /// Returns every stored value, in slot order.
    pub fn values(&self) -> (values: Vec<&T>)
        ensures
            values@.len() == occupied_values(self@.slots).len(),
            forall|i: int|
                0 <= i < values@.len() ==> *(#[trigger] values@[i]) == occupied_values(
                    self@.slots,
                )[i],
    {
        let mut values: Vec<&T> = Vec::new();
        let total = self.slots.len();
        let mut index: usize = 0;
        while index < total
            invariant
                total == self@.slots.len(),
                index <= total,
                values@.len() == occupied_values(self@.slots.take(index as int)).len(),
                forall|i: int|
                    0 <= i < values@.len() ==> *(#[trigger] values@[i]) == occupied_values(
                        self@.slots.take(index as int),
                    )[i],
            decreases total - index,
        {
            proof {
                assert(self@.slots.take(index + 1).drop_last() =~= self@.slots.take(index as int));
            }
            if let Some(value) = self.value_at(index) {
                values.push(value);
            }
            index = index + 1;
        }
        proof {
            assert(self@.slots.take(index as int) =~= self@.slots);
        }
        values
    }

    /// Vacates the slot of `key` and returns the value that was in it.
    pub fn remove(&mut self, key: ArenaKey) -> (value: T)
        requires
            old(self).wf(),
            old(self)@.contains(key),
        ensures
            final(self).wf(),
            old(self)@.get(key) == Some(value),
            final(self)@ == old(self)@.remove(key),
            final(self)@.get(key) is None,
            forall|other: ArenaKey|
                other != key ==> #[trigger] final(self)@.get(other) == old(self)@.get(other),
            final(self)@.len() + 1 == old(self)@.len(),
            final(self)@.slots.len() == old(self)@.slots.len(),
            final(self)@.next_index() == key.index(),
    {
        let index = key.0;
        let ghost before = *self;
        proof {
            lemma_remove_wf(self@, key);
            law_remove_keeps_others(self@, key);
        }
        let mut slot = Slot::Vacant(self.next_vacant);
        std::mem::swap(&mut slot, &mut self.slots[index]);
        self.len = self.len - 1;
        self.next_vacant = index;
        self.free = Ghost(seq![index as int] + self.free@);
        proof {
            assert(self@ =~= before@.remove(key));
        }
        match slot {
            Slot::Occupied(value) => value,
            Slot::Vacant(_) => unreached(),
        }
    }

    /// Takes every occupied value while retaining the allocation for reuse.
    pub fn take_all(&mut self) -> (values: ArenaValues<T>)
        requires
            old(self).wf(),
        ensures
            final(self).wf(),
            final(self)@ == ArenaView::<T>::empty(),
            values@ == occupied_values(old(self)@.slots),
            values@.len() == old(self)@.len(),
            forall|key: ArenaKey| (#[trigger] final(self)@.get(key)) is None,
            final(self)@.len() == 0,
            final(self)@.next_index() == 0,
    {
        let len = self.len;
        let total = self.slots.len();
        let mut first: Option<T> = None;
        let mut rest: Vec<T> = Vec::new();
        let mut index: usize = 0;
        let ghost slots = self@.slots;
        proof {
            assert(slots.take(0) =~= Seq::empty());
        }
        while index < total
            invariant
                total == slots.len(),
                self.slots@.len() == total,
                index <= total,
                forall|i: int|
                    index <= i < total ==> (#[trigger] self.slots@[i]).value() == slots[i],
                len == count(slots, is_occupied()),
                first is None ==> rest@.len() == 0,
                values_of(first, rest@) == occupied_values(slots.take(index as int)),
            decreases total - index,
        {
            let mut slot = Slot::Vacant(0);
            std::mem::swap(&mut slot, &mut self.slots[index]);
            proof {
                assert(slots.take(index + 1).drop_last() =~= slots.take(index as int));
                assert(slots.take(index + 1).last() == slots[index as int]);
            }
            if let Slot::Occupied(value) = slot {
                if first.is_none() {
                    first = Some(value);
                    assert(values_of(first, rest@) =~= values_of(None, rest@).push(value));
                } else {
                    if rest.is_empty() {
                        proof {
                            lemma_count_zero(slots, is_occupied());
                        }
                        rest.reserve(len - 1);
                    }
                    let ghost before = rest@;
                    rest.push(value);
                    assert(values_of(first, rest@) =~= values_of(first, before).push(value));
                }
            }
            index = index + 1;
        }
        self.slots.clear();
        self.next_vacant = 0;
        self.len = 0;
        self.free = Ghost(Seq::empty());
        proof {
            assert(slots.take(index as int) =~= slots);
            assert(self@ =~= ArenaView::<T>::empty());
            law_values_are_the_occupied_slots(slots);
        }
        ArenaValues { first, rest }
    }
}

/// The values of an [`ArenaValues`], the inline one in front.
spec fn values_of<T>(first: Option<T>, rest: Seq<T>) -> Seq<T> {
    match first {
        Some(value) => seq![value] + rest,
        None => rest,
    }
}

/// Values extracted from an [`Arena`], storing the common single-value case inline.
#[derive(Debug)]
pub struct ArenaValues<T> {
    first: Option<T>,
    rest: Vec<T>,
}

impl<T> View for ArenaValues<T> {
    type V = Seq<T>;

    closed spec fn view(&self) -> Seq<T> {
        values_of(self.first, self.rest@)
    }
}

impl<T> ArenaValues<T> {
    /// Returns the values as a vector, in the order in which they were extracted.
    pub fn into_vec(self) -> (values: Vec<T>)
        ensures
            values@ == self@,
    {
        let mut values = self.rest;
        if let Some(value) = self.first {
            values.insert(0, value);
            assert(values@ =~= self@);
        }
        values
    }
}

impl<T> IntoIterator for ArenaValues<T> {
    type Item = T;

    type IntoIter = std::vec::IntoIter<T>;

    fn into_iter(self) -> (iter: std::vec::IntoIter<T>)
        ensures
            vstd::std_specs::iter::IteratorSpec::remaining(&iter) == self@,
    {
        self.into_vec().into_iter()
    }
}

/// Decoding undoes encoding.
pub proof fn law_decode_undoes_encode(key: ArenaKey, encoded: usize, decoded: ArenaKey)
    requires
        encoded == key.index() + 1,
        decoded.index() == encoded - 1,
    ensures
        decoded == key,
{
}

/// A key handed out by an insertion was vacant before and holds the inserted value after; every
/// other key keeps what it held.
pub proof fn law_insert_then_get<T>(view: ArenaView<T>, value: T, key: ArenaKey)
    requires
        view.wf(),
        key.index() == view.next_index(),
    ensures
        !view.contains(key),
        view.insert(value).wf(),
        view.insert(value).get(key) == Some(value),
        forall|other: ArenaKey|
            other != key ==> #[trigger] view.insert(value).get(other) == view.get(other),
        view.insert(value).len() == view.len() + 1,
{
    lemma_insert_wf(view, value);
    assert forall|other: ArenaKey| other != key implies #[trigger] view.insert(value).get(other)
        == view.get(other) by {
        assert(other.index() != key.index());
    }
}

/// A removal vacates its own key and leaves every other key as it was.
pub proof fn law_remove_keeps_others<T>(view: ArenaView<T>, key: ArenaKey)
    requires
        view.wf(),
        view.contains(key),
    ensures
        view.remove(key).wf(),
        !view.remove(key).contains(key),
        forall|other: ArenaKey|
            other != key ==> #[trigger] view.remove(key).get(other) == view.get(other),
        view.remove(key).len() + 1 == view.len(),
        view.remove(key).slots.len() == view.slots.len(),
        view.remove(key).next_index() == key.index(),
{
    lemma_remove_wf(view, key);
    assert forall|other: ArenaKey| other != key implies #[trigger] view.remove(key).get(other)
        == view.get(other) by {
        assert(other.index() != key.index());
    }
}

/// The insertion that follows a removal reuses the removed key, and then the arena is as if the
/// value had been replaced.
pub proof fn law_removed_slot_is_reused<T>(view: ArenaView<T>, key: ArenaKey, value: T)
    requires
        view.wf(),
        view.contains(key),
    ensures
        view.remove(key).next_index() == key.index(),
        view.remove(key).insert(value) == view.set(key, value),
{
    let removed = view.remove(key);
    assert(removed.free.drop_first() =~= view.free);
    assert(removed.insert(value).slots =~= view.set(key, value).slots);
}

/// Replacing a value changes what its own key holds and nothing else: every other key holds what it
/// held, as many slots are occupied, and the next insertion uses the same slot as before.
pub proof fn law_set_changes_only_its_key<T>(view: ArenaView<T>, key: ArenaKey, value: T)
    requires
        view.wf(),
        view.contains(key),
    ensures
        view.set(key, value).wf(),
        view.set(key, value).get(key) == Some(value),
        forall|other: ArenaKey|
            other != key ==> #[trigger] view.set(key, value).get(other) == view.get(other),
        view.set(key, value).len() == view.len(),
        view.set(key, value).slots.len() == view.slots.len(),
        view.set(key, value).next_index() == view.next_index(),
        view.set(key, value).free == view.free,
{
    let after = view.set(key, value);
    lemma_count_update(view.slots, key.index(), Some(value), is_occupied());
    assert forall|other: ArenaKey| other != key implies #[trigger] after.get(other) == view.get(
        other,
    ) by {
        assert(other.index() != key.index());
    }
    assert forall|i: int|
        0 <= i < after.slots.len() && (#[trigger] after.slots[i]) is None implies after.free.contains(
        i,
    ) by {
        assert(view.slots[i] is None);
    }
}

/// A new slot is made only when every slot is occupied; otherwise an insertion fills a vacant one.
pub proof fn law_vacant_slots_are_used_first<T>(view: ArenaView<T>, value: T)
    requires
        view.wf(),
    ensures
        view.slots.contains(None) ==> 0 <= view.next_index() < view.slots.len()
            && view.slots[view.next_index()] is None && view.insert(value).slots.len()
            == view.slots.len(),
        !view.slots.contains(None) ==> view.next_index() == view.slots.len() && view.insert(
            value,
        ).slots.len() == view.slots.len() + 1,
{
    if view.slots.contains(None) {
        let i = view.slots.index_of(None);
        assert(view.slots[i] is None);
        assert(view.free.contains(i));
    } else if view.free.len() > 0 {
        let first = view.free[0];
        assert(view.slots[first] is None);
        assert(view.slots.contains(view.slots[first]));
    }
}

/// An arena without slots holds nothing.
pub proof fn law_empty_arena_holds_nothing<T>()
    ensures
        ArenaView::<T>::empty().wf(),
        ArenaView::<T>::empty().len() == 0,
        ArenaView::<T>::empty().slots.len() == 0,
        ArenaView::<T>::empty().next_index() == 0,
        forall|key: ArenaKey| (#[trigger] ArenaView::<T>::empty().get(key)) is None,
{
}

/// A key names an occupied slot exactly when it holds a value.
pub proof fn law_occupied_key_holds_a_value<T>(view: ArenaView<T>, key: ArenaKey)
    ensures
        view.contains(key) <==> view.get(key) is Some,
        view.contains(key) ==> 0 <= key.index() < view.slots.len() && view.get(key)
            == view.slots[key.index()],
{
}

/// An emptied arena hands keys out from the start again, in order.
pub proof fn law_empty_arena_restarts_keys<T>(values: Seq<T>, i: int)
    requires
        0 <= i < values.len(),
    ensures
        insert_all(ArenaView::<T>::empty(), values.take(i)).next_index() == i,
        insert_all(ArenaView::<T>::empty(), values).slots[i] == Some(values[i]),
{
    lemma_insert_all(values);
    lemma_insert_all(values.take(i));
}

/// The arena after every one of `values` was inserted, in order.
pub open spec fn insert_all<T>(view: ArenaView<T>, values: Seq<T>) -> ArenaView<T>
    decreases values.len(),
{
    if values.len() == 0 {
        view
    } else {
        insert_all(view, values.drop_last()).insert(values.last())
    }
}

proof fn lemma_insert_all<T>(values: Seq<T>)
    ensures
        insert_all(ArenaView::<T>::empty(), values).free == Seq::<int>::empty(),
        insert_all(ArenaView::<T>::empty(), values).slots == Seq::new(
            values.len(),
            |i: int| Some(values[i]),
        ),
    decreases values.len(),
{
    if values.len() > 0 {
        lemma_insert_all(values.drop_last());
        assert(Seq::new(values.len(), |i: int| Some(values[i])) =~= Seq::new(
            values.drop_last().len(),
            |i: int| Some(values.drop_last()[i]),
        ).push(Some(values.last())));
    } else {
        assert(Seq::new(values.len(), |i: int| Some(values[i])) =~= Seq::empty());
    }
}

/// Values are extracted slot by slot: those of the earlier slots come first, an occupied slot gives
/// its value once, and a vacant slot gives none.
pub proof fn law_values_keep_slot_order<T>(
    earlier: Seq<Option<T>>,
    later: Seq<Option<T>>,
    value: T,
)
    ensures
        occupied_values(earlier + later) == occupied_values(earlier) + occupied_values(later),
        occupied_values(seq![Some(value)]) == seq![value],
        occupied_values(seq![None::<T>]) == Seq::<T>::empty(),
    decreases later.len(),
{
    if later.len() == 0 {
        assert(earlier + later =~= earlier);
        assert(occupied_values(earlier) + Seq::<T>::empty() =~= occupied_values(earlier));
    } else {
        law_values_keep_slot_order(earlier, later.drop_last(), value);
        assert((earlier + later).drop_last() =~= earlier + later.drop_last());
        assert((earlier + later).last() == later.last());
        assert(occupied_values(earlier + later) =~= occupied_values(earlier) + occupied_values(
            later,
        ));
    }
    let one = seq![Some(value)];
    let none = seq![None::<T>];
    assert(one.drop_last() =~= Seq::empty());
    assert(none.drop_last() =~= Seq::empty());
    reveal_with_fuel(occupied_values, 2);
    assert(occupied_values(one) =~= seq![value]);
}

/// The extracted values are as many as there are occupied slots, each is the value of a slot, and
/// the value of each occupied slot is among them.
pub proof fn law_values_are_the_occupied_slots<T>(slots: Seq<Option<T>>)
    ensures
        occupied_values(slots).len() == count(slots, is_occupied()),
        forall|i: int|
            0 <= i < slots.len() && (#[trigger] slots[i]) is Some ==> occupied_values(slots).contains(
                slots[i]->0,
            ),
        forall|j: int|
            0 <= j < occupied_values(slots).len() ==> slots.contains(
                Some(#[trigger] occupied_values(slots)[j]),
            ),
    decreases slots.len(),
{
    if slots.len() > 0 {
        let init = slots.drop_last();
        let earlier = occupied_values(init);
        let values = occupied_values(slots);
        law_values_are_the_occupied_slots(init);
        assert forall|i: int| 0 <= i < slots.len() && (#[trigger] slots[i]) is Some implies values.contains(
            slots[i]->0,
        ) by {
            if i < init.len() {
                assert(init[i] == slots[i]);
                let j = earlier.index_of(slots[i]->0);
                assert(values[j] == slots[i]->0);
            } else {
                assert(values[values.len() - 1] == slots[i]->0);
            }
        }
        assert forall|j: int| 0 <= j < values.len() implies slots.contains(
            Some(#[trigger] values[j]),
        ) by {
            if j < earlier.len() {
                assert(earlier[j] == values[j]);
                let i = init.index_of(Some(values[j]));
                assert(slots[i] == Some(values[j]));
            } else {
                assert(slots[slots.len() - 1] == Some(values[j]));
            }
        }
    }
}

} // verus!
