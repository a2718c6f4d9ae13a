use asyncband::internal::waitset::WaitSet;

#[test]
fn drain_hands_out_every_waiter_once() {
    let mut set = WaitSet::new();
    let mut first = None;
    let mut second = None;
    assert_eq!(set.register_waker(&mut first, "first"), None);
    assert_eq!(set.register_waker(&mut second, "second"), None);

    assert_eq!(set.take_wakers().into_vec(), vec!["first", "second"]);
    assert_eq!(set.take_wakers().into_vec(), Vec::<&str>::new());
}

#[test]
fn registering_again_replaces_the_waker() {
    let mut set = WaitSet::new();
    let mut registration = None;
    assert_eq!(set.register_waker(&mut registration, 1), None);
    assert_eq!(set.register_waker(&mut registration, 2), Some(1));
    assert_eq!(set.take_wakers().into_vec(), vec![2]);
}

#[test]
fn unregistering_removes_only_its_own_waker() {
    let mut set = WaitSet::new();
    let mut first = None;
    let mut second = None;
    set.register_waker(&mut first, 1);
    set.register_waker(&mut second, 2);

    assert_eq!(set.unregister_waker(&mut first), Some(1));
    assert!(first.is_none());
    assert_eq!(set.unregister_waker(&mut first), None);
    assert_eq!(set.take_wakers().into_vec(), vec![2]);
}

#[test]
fn registration_from_before_a_drain_disturbs_nobody() {
    let mut set = WaitSet::new();
    let mut stale = None;
    set.register_waker(&mut stale, 1);
    assert_eq!(set.take_wakers().into_vec(), vec![1]);

    // The slot of the stale registration now belongs to somebody else.
    let mut current = None;
    set.register_waker(&mut current, 2);
    assert_eq!(set.unregister_waker(&mut stale), None);
    assert_eq!(set.take_wakers().into_vec(), vec![2]);
}

#[test]
fn stale_registration_gets_a_slot_of_its_own() {
    let mut set = WaitSet::new();
    let mut stale = None;
    set.register_waker(&mut stale, 1);
    set.take_wakers();

    let mut current = None;
    set.register_waker(&mut current, 2);
    assert_eq!(set.register_waker(&mut stale, 3), None);
    assert_eq!(set.take_wakers().into_vec(), vec![2, 3]);
}
