//! A value initialized by an asynchronous function on first access.
//!
//! [`LazyLock`] holds the value or the initializer, and decides for each caller whether the value
//! is there, whether the caller is to run the initializer, or whether an earlier run has made the
//! lock unusable. Callers take turns: whoever runs the initializer has the lock to itself until it
//! reports how the run ended.

use vstd::pervasive::unreached;
use vstd::prelude::*;

verus! {

/// What a caller that wants the value is to do.
#[derive(Clone, Copy, Debug, PartialEq, Eq, Structural)]
pub enum Admission {
    /// The value is there.
    Initialized,
    /// An initializer panicked, and the lock can no longer be used.
    Poisoned,
    /// The value is not there; the caller runs the initializer.
    Run,
}

/// The abstract state of a [`LazyLock`].
#[verifier::ext_equal]
pub struct LazyView<T, F> {
    pub value: Option<T>,
    pub initializer: Option<F>,
    pub poisoned: bool,
}

impl<T, F> LazyView<T, F> {
    /// The initializer is gone once there is a value, and there while a run may still be due.
    pub open spec fn wf(self) -> bool {
        &&& self.value is Some ==> self.initializer is None
        &&& self.admission() is Run ==> self.initializer is Some
    }

    /// What the next caller that wants the value is to do.
    pub open spec fn admission(self) -> Admission {
        if self.value is Some {
            Admission::Initialized
        } else if self.poisoned {
            Admission::Poisoned
        } else {
            Admission::Run
        }
    }

    /// The state after a run of the initializer produced `value`.
    pub open spec fn after_success(self, value: T) -> Self {
        LazyView { value: Some(value), initializer: None, ..self }
    }

    /// The state after a run that produced no value: it failed or was cancelled, and left the
    /// initializer as `initializer`.
    pub open spec fn after_failure(self, initializer: F) -> Self {
        LazyView { initializer: Some(initializer), ..self }
    }

    /// The state after a panic during a run.
    pub open spec fn after_panic(self) -> Self {
        LazyView { poisoned: true, ..self }
    }

    /// The state after the value was overwritten.
    pub open spec fn after_update(self, value: T) -> Self {
        LazyView { value: Some(value), ..self }
    }
}

/// A value initialized by an asynchronous function on first access.
///
/// If a run of the initializer is cancelled or fails, the initializer is retained, and the next
/// caller starts a new run. Initializers must therefore be safe to invoke again.
///
/// # Poisoning
///
/// A panic from the initializer permanently poisons the lock. A failed run does not.
pub struct LazyLock<T, F> {
    value: Option<T>,
    initializer: Option<F>,
    poisoned: bool,
}

impl<T, F> View for LazyLock<T, F> {
    type V = LazyView<T, F>;

    closed spec fn view(&self) -> LazyView<T, F> {
        LazyView { value: self.value, initializer: self.initializer, poisoned: self.poisoned }
    }
}

impl<T, F> LazyLock<T, F> {
    /// The value and the initializer are consistent.
    pub open spec fn wf(&self) -> bool {
        self@.wf()
    }

    /// Creates a new lazy value with the given initializer.
    pub fn new(initializer: F) -> (lazy: Self)
        ensures
            lazy.wf(),
            lazy@ == (LazyView::<T, F> {
                value: None,
                initializer: Some(initializer),
                poisoned: false,
            }),
    {
        LazyLock { value: None, initializer: Some(initializer), poisoned: false }
    }

    /// Returns a reference to the value if initialized.
    ///
    /// Returns `None` when the lock is uninitialized, initializing, or poisoned before it was
    /// initialized.
    pub fn get(this: &Self) -> (value: Option<&T>)
        ensures
            value == (match this@.value {
                Some(stored) => Some(&stored),
                None => None,
            }),
    {
        this.value.as_ref()
    }

    /// Returns a mutable reference to the value if initialized.
    pub fn get_mut(this: &mut Self) -> (value: Option<&mut T>)
        ensures
            match value {
                Some(stored) => {
                    &&& old(this)@.value == Some(*stored)
                    &&& final(this)@ == old(this)@.after_update(*final(stored))
                    &&& final(this)@.value == Some(*final(stored))
                    &&& final(this)@.initializer == old(this)@.initializer
                    &&& final(this)@.poisoned == old(this)@.poisoned
                },
                None => old(this)@.value is None && *final(this) == *old(this),
            },
    {
        this.value.as_mut()
    }

    /// Consumes the lock and returns its value or initializer.
    ///
    /// Returns `Ok(value)` when initialized and `Err(initializer)` otherwise.
    pub fn into_inner(this: Self) -> (inner: Result<T, F>)
        requires
            this.wf(),
            !this@.poisoned,
        ensures
            match inner {
                Ok(value) => this@.value == Some(value),
                Err(initializer) => this@.value is None && this@.initializer == Some(initializer),
            },
    {
        match this.value {
            Some(value) => Ok(value),
            None => match this.initializer {
                Some(initializer) => Err(initializer),
                None => unreached(),
            },
        }
    }

    /// Tells whether an initializer panicked.
    pub fn is_poisoned(&self) -> (poisoned: bool)
        ensures
            poisoned == self@.poisoned,
    {
        self.poisoned
    }

    /// Decides what a caller that wants the value is to do.
    ///
    /// A caller asks when it arrives, and again once it has its turn: the value may have come, or
    /// the lock may have been poisoned, in the meantime.
    pub fn admission(&self) -> (admission: Admission)
        ensures
            admission == self@.admission(),
            admission is Initialized <==> self@.value is Some,
            admission is Poisoned <==> self@.value is None && self@.poisoned,
            admission is Run <==> self@.value is None && !self@.poisoned,
    {
        if self.value.is_some() {
            Admission::Initialized
        } else if self.poisoned {
            Admission::Poisoned
        } else {
            Admission::Run
        }
    }

    /// Returns the initializer to a caller that is to run it.
    pub fn initializer(&mut self) -> (initializer: &mut F)
        requires
            old(self).wf(),
            old(self)@.admission() is Run,
        ensures
            old(self)@.initializer == Some(*initializer),
            final(self).wf(),
            final(self)@ == old(self)@.after_failure(*final(initializer)),
            final(self)@.initializer == Some(*final(initializer)),
            final(self)@.value is None,
            !final(self)@.poisoned,
    {
        match self.initializer.as_mut() {
            Some(initializer) => initializer,
            None => unreached(),
        }
    }

    /// Takes note of how a run of the initializer ended.
    ///
    /// A produced value is stored and the initializer dropped, so that it never runs again. An
    /// error goes to this caller only, and the next one starts a new run.
    pub fn initialize<E>(&mut self, outcome: Result<T, E>) -> (initialized: Result<&T, E>)
        requires
            old(self).wf(),
            old(self)@.admission() is Run,
        ensures
            final(self).wf(),
            match outcome {
                Ok(value) => initialized == Ok::<&T, E>(&value) && final(self)@
                    == old(self)@.after_success(value),
                Err(error) => initialized == Err::<&T, E>(error) && *final(self) == *old(self),
            },
            final(self)@.value == (match outcome {
                Ok(value) => Some(value),
                Err(_) => None,
            }),
            final(self)@.initializer == (match outcome {
                Ok(_) => None,
                Err(_) => old(self)@.initializer,
            }),
            !final(self)@.poisoned,
    {
        match outcome {
            Ok(value) => {
                self.initializer = None;
                self.value = Some(value);
                match self.value.as_ref() {
                    Some(value) => Ok(value),
                    None => unreached(),
                }
            },
            Err(error) => Err(error),
        }
    }

    /// Takes note that a run of the initializer panicked.
    pub fn poison(&mut self)
        requires
            old(self).wf(),
        ensures
            final(self).wf(),
            final(self)@ == old(self)@.after_panic(),
            final(self)@.poisoned,
            final(self)@.value == old(self)@.value,
            final(self)@.initializer == old(self)@.initializer,
    {
        self.poisoned = true;
    }
}

impl<T, F> From<T> for LazyLock<T, F> {
    /// Creates an already initialized lazy value.
    fn from(value: T) -> (lazy: Self)
        ensures
            lazy.wf(),
            lazy@ == (LazyView::<T, F> { value: Some(value), initializer: None, poisoned: false }),
    {
        LazyLock { value: Some(value), initializer: None, poisoned: false }
    }
}

impl<T, F> vstd::std_specs::convert::FromSpecImpl<T> for LazyLock<T, F> {
    open spec fn obeys_from_spec() -> bool {
        true
    }

    closed spec fn from_spec(value: T) -> Self {
        LazyLock { value: Some(value), initializer: None, poisoned: false }
    }
}

/// One thing that can happen to a lock.
pub enum LazyOp<T, F> {
    /// A run of the initializer produced a value.
    Succeed { value: T },
    /// A run of the initializer failed or was cancelled.
    Fail { initializer: F },
    /// A run of the initializer panicked.
    Panic,
    /// The value was overwritten.
    Update { value: T },
}

impl<T, F> LazyView<T, F> {
    /// Whether this can happen: a run takes a caller that was told to run the initializer, an
    /// update takes a value.
    pub open spec fn allows(self, op: LazyOp<T, F>) -> bool {
        match op {
            LazyOp::Succeed { .. } => self.admission() is Run,
            LazyOp::Fail { .. } => self.admission() is Run,
            LazyOp::Panic => self.admission() is Run,
            LazyOp::Update { .. } => self.value is Some,
        }
    }

    /// The state after it happened.
    pub open spec fn step(self, op: LazyOp<T, F>) -> Self {
        match op {
            LazyOp::Succeed { value } => self.after_success(value),
            LazyOp::Fail { initializer } => self.after_failure(initializer),
            LazyOp::Panic => self.after_panic(),
            LazyOp::Update { value } => self.after_update(value),
        }
    }

    /// The state after a series of happenings.
    pub open spec fn run(self, ops: Seq<LazyOp<T, F>>) -> Self
        decreases ops.len(),
    {
        if ops.len() == 0 {
            self
        } else {
            self.run(ops.drop_last()).step(ops.last())
        }
    }

    /// Whether each of the series can happen when its turn comes.
    pub open spec fn allows_all(self, ops: Seq<LazyOp<T, F>>) -> bool
        decreases ops.len(),
    {
        ops.len() > 0 ==> self.allows_all(ops.drop_last()) && self.run(ops.drop_last()).allows(
            ops.last(),
        )
    }
}

/// Whatever happens, the value and the initializer stay consistent.
pub proof fn law_lock_stays_consistent<T, F>(view: LazyView<T, F>, ops: Seq<LazyOp<T, F>>)
    requires
        view.wf(),
        view.allows_all(ops),
    ensures
        view.run(ops).wf(),
    decreases ops.len(),
{
    if ops.len() > 0 {
        law_lock_stays_consistent(view, ops.drop_last());
    }
}

/// The initializer produces a value at most once: after that, the value stays, every caller finds
/// it, and no run ever happens again.
pub proof fn law_value_is_initialized_once<T, F>(view: LazyView<T, F>, ops: Seq<LazyOp<T, F>>)
    requires
        view.value is Some,
        view.allows_all(ops),
    ensures
        view.run(ops).value is Some,
        view.run(ops).admission() is Initialized,
        forall|i: int| 0 <= i < ops.len() ==> #[trigger] ops[i] is Update,
    decreases ops.len(),
{
    if ops.len() > 0 {
        let init = ops.drop_last();
        law_value_is_initialized_once(view, init);
        assert forall|i: int| 0 <= i < ops.len() implies #[trigger] ops[i] is Update by {
            if i < init.len() {
                assert(init[i] == ops[i]);
            }
        }
    }
}

/// A lock is initialized, poisoned, or waiting for a run: a value counts whether or not the lock is
/// poisoned, and only a lock that has no value and is not poisoned is waiting for a run.
pub proof fn law_admission_follows_value_and_poison<T, F>(view: LazyView<T, F>)
    ensures
        view.admission() is Initialized <==> view.value is Some,
        view.admission() is Poisoned <==> view.value is None && view.poisoned,
        view.admission() is Run <==> view.value is None && !view.poisoned,
{
}

/// A successful run leaves the lock unpoisoned and holding the value that the run produced, without
/// the initializer: it can be taken apart into that value.
pub proof fn law_successful_run_keeps_its_value<T, F>(view: LazyView<T, F>, value: T)
    requires
        view.admission() is Run,
    ensures
        view.after_success(value).wf(),
        view.after_success(value).value == Some(value),
        view.after_success(value).initializer is None,
        !view.after_success(value).poisoned,
        view.after_success(value).admission() is Initialized,
{
}

/// Overwriting the value changes the value and nothing else.
pub proof fn law_update_changes_only_the_value<T, F>(view: LazyView<T, F>, value: T)
    ensures
        view.after_update(value).value == Some(value),
        view.after_update(value).initializer == view.initializer,
        view.after_update(value).poisoned == view.poisoned,
{
}

/// Only a panic poisons: whatever else happens, in whatever order, the lock is poisoned afterwards
/// exactly when it was before.
pub proof fn law_only_a_panic_poisons<T, F>(view: LazyView<T, F>, ops: Seq<LazyOp<T, F>>)
    requires
        forall|i: int| 0 <= i < ops.len() ==> !(#[trigger] ops[i] is Panic),
    ensures
        view.run(ops).poisoned == view.poisoned,
    decreases ops.len(),
{
    if ops.len() > 0 {
        let init = ops.drop_last();
        assert forall|i: int| 0 <= i < init.len() implies !(#[trigger] init[i] is Panic) by {
            assert(init[i] == ops[i]);
        }
        law_only_a_panic_poisons(view, init);
        assert(!(ops[ops.len() - 1] is Panic));
    }
}

/// A panic poisons, at whatever point of a series it happens, and nothing lifts the poison.
pub proof fn law_a_panic_poisons_for_good<T, F>(view: LazyView<T, F>, ops: Seq<LazyOp<T, F>>)
    requires
        view.poisoned || exists|i: int| 0 <= i < ops.len() && #[trigger] ops[i] is Panic,
    ensures
        view.run(ops).poisoned,
    decreases ops.len(),
{
    if ops.len() > 0 && !(ops.last() is Panic) {
        let init = ops.drop_last();
        if !view.poisoned {
            let i = choose|i: int| 0 <= i < ops.len() && #[trigger] ops[i] is Panic;
            assert(init[i] == ops[i]);
        }
        law_a_panic_poisons_for_good(view, init);
    }
}

/// The value that a happening brings, if it brings one.
pub open spec fn brings<T, F>(op: LazyOp<T, F>) -> Option<T> {
    match op {
        LazyOp::Succeed { value } => Some(value),
        LazyOp::Update { value } => Some(value),
        _ => None,
    }
}

/// The value is always the latest one that a run produced or an update wrote: what happens without
/// bringing a value leaves it as it was.
pub proof fn law_value_is_the_latest_one<T, F>(
    view: LazyView<T, F>,
    before: Seq<LazyOp<T, F>>,
    op: LazyOp<T, F>,
    after: Seq<LazyOp<T, F>>,
)
    requires
        brings(op) is Some,
        forall|i: int| 0 <= i < after.len() ==> brings(#[trigger] after[i]) is None,
    ensures
        view.run(before.push(op) + after).value == brings(op),
        view.run(after).value == view.value,
    decreases after.len(),
{
    if after.len() == 0 {
        assert((before.push(op) + after) =~= before.push(op));
        assert(before.push(op).drop_last() =~= before);
    } else {
        let init = after.drop_last();
        let ops = before.push(op) + after;
        assert forall|i: int| 0 <= i < init.len() implies brings(#[trigger] init[i]) is None by {
            assert(init[i] == after[i]);
        }
        law_value_is_the_latest_one(view, before, op, init);
        assert(ops.drop_last() =~= before.push(op) + init);
        assert(ops.last() == after.last());
        assert(brings(after[after.len() - 1]) is None);
    }
}

/// A panic during a run leaves the initializer and the value as they are; it only poisons.
pub proof fn law_panic_changes_only_the_poison<T, F>(view: LazyView<T, F>)
    ensures
        view.after_panic().poisoned,
        view.after_panic().value == view.value,
        view.after_panic().initializer == view.initializer,
{
}

/// A panic poisons the lock for good: there is no value, every caller is told, and nothing can
/// happen to the lock any more.
pub proof fn law_poison_is_permanent<T, F>(view: LazyView<T, F>)
    requires
        view.admission() is Run,
    ensures
        view.after_panic().value is None,
        view.after_panic().admission() is Poisoned,
        forall|op: LazyOp<T, F>| !#[trigger] view.after_panic().allows(op),
{
}

/// A failed or cancelled run leaves the lock usable: it is neither initialized nor poisoned, and
/// the next caller is to run the retained initializer.
pub proof fn law_failed_run_can_be_retried<T, F>(view: LazyView<T, F>, initializer: F)
    requires
        view.admission() is Run,
    ensures
        view.after_failure(initializer).wf(),
        view.after_failure(initializer).admission() is Run,
        view.after_failure(initializer).initializer == Some(initializer),
        view.after_failure(initializer).value is None,
        !view.after_failure(initializer).poisoned,
{
}

} // verus!
