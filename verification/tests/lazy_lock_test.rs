use asyncband::once::lazy_lock::Admission;
use asyncband::once::lazy_lock::LazyLock;

/// Runs the initializer once on behalf of a caller that was told to.
fn run_once<E>(lazy: &mut LazyLock<u32, fn(u32) -> Result<u32, E>>, attempt: u32) -> Result<u32, E> {
    assert_eq!(lazy.admission(), Admission::Run);
    let outcome = (lazy.initializer())(attempt);
    lazy.initialize(outcome).copied()
}

#[test]
fn force_runs_initializer_once() {
    let mut attempts = 0;
    let mut lazy: LazyLock<u32, ()> = LazyLock::new(());

    for _ in 0..32 {
        if lazy.admission() == Admission::Run {
            attempts += 1;
            assert_eq!(lazy.initialize::<()>(Ok(42)), Ok(&42));
        }
        assert_eq!(lazy.admission(), Admission::Initialized);
        assert_eq!(LazyLock::get(&lazy), Some(&42));
    }
    assert_eq!(attempts, 1);
}

#[test]
fn cancellation_restarts_initialization() {
    let mut lazy: LazyLock<u32, u32> = LazyLock::new(0);

    // The first run changes the initializer and never reports back.
    assert_eq!(lazy.admission(), Admission::Run);
    *lazy.initializer() += 1;
    assert_eq!(LazyLock::get(&lazy), None);

    assert_eq!(lazy.admission(), Admission::Run);
    *lazy.initializer() += 1;
    assert_eq!(lazy.initialize::<()>(Ok(42)), Ok(&42));
    assert_eq!(LazyLock::get(&lazy), Some(&42));
}

#[test]
fn queued_callers_retry_after_errors() {
    fn attempt(attempt: u32) -> Result<u32, &'static str> {
        if attempt < 2 { Err("retry") } else { Ok(42) }
    }

    let mut lazy: LazyLock<u32, fn(u32) -> Result<u32, &'static str>> = LazyLock::new(attempt);
    assert_eq!(run_once(&mut lazy, 0), Err("retry"));
    assert_eq!(run_once(&mut lazy, 1), Err("retry"));
    assert_eq!(run_once(&mut lazy, 2), Ok(42));
    assert_eq!(lazy.admission(), Admission::Initialized);
    assert_eq!(LazyLock::get(&lazy), Some(&42));
}

#[test]
fn panic_permanently_poisons_lock() {
    let mut lazy: LazyLock<u32, ()> = LazyLock::new(());
    assert_eq!(lazy.admission(), Admission::Run);
    assert!(!lazy.is_poisoned());
    lazy.poison();

    assert!(lazy.is_poisoned());
    assert_eq!(LazyLock::get(&lazy), None);
    assert_eq!(lazy.admission(), Admission::Poisoned);
    assert_eq!(lazy.admission(), Admission::Poisoned);
}

#[test]
fn mutable_force_updates_value() {
    let mut lazy: LazyLock<u32, ()> = LazyLock::new(());
    assert_eq!(LazyLock::get_mut(&mut lazy), None);
    assert_eq!(lazy.initialize::<()>(Ok(41)), Ok(&41));
    *LazyLock::get_mut(&mut lazy).unwrap() += 1;
    assert_eq!(LazyLock::get(&lazy), Some(&42));
}

#[test]
fn into_inner_returns_value_or_initializer() {
    let lazy: LazyLock<u32, fn() -> u32> = LazyLock::new(|| 42);
    let initializer = LazyLock::into_inner(lazy).unwrap_err();
    assert_eq!(initializer(), 42);

    let mut lazy: LazyLock<u32, fn() -> u32> = LazyLock::new(|| 42);
    let value = (lazy.initializer())();
    assert_eq!(lazy.initialize::<()>(Ok(value)), Ok(&42));
    assert!(matches!(LazyLock::into_inner(lazy), Ok(42)));
}

#[test]
fn from_creates_an_initialized_value() {
    let lazy: LazyLock<u32, ()> = LazyLock::from(42);
    assert_eq!(LazyLock::get(&lazy), Some(&42));
    assert_eq!(lazy.admission(), Admission::Initialized);
    assert!(matches!(LazyLock::into_inner(lazy), Ok(42)));
}

#[test]
fn initialized_value_outlives_a_later_panic() {
    let mut lazy: LazyLock<u32, ()> = LazyLock::from(1);
    lazy.poison();
    assert!(lazy.is_poisoned());
    assert_eq!(lazy.admission(), Admission::Initialized);
    assert_eq!(LazyLock::get(&lazy), Some(&1));
}
