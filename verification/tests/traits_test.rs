use asyncband::broadcast;
use asyncband::once::lazy_lock::LazyLock;

#[test]
fn public_types_are_send_and_sync() {
    fn assert_send_and_sync<T: Send + Sync>() {}

    assert_send_and_sync::<LazyLock<u32, fn() -> u32>>();
    assert_send_and_sync::<broadcast::unbounded::Shared<i64>>();
    assert_send_and_sync::<broadcast::unbounded::Sender<i64>>();
    assert_send_and_sync::<broadcast::unbounded::Receiver<i64>>();
    assert_send_and_sync::<broadcast::unbounded::RecvError>();
    assert_send_and_sync::<broadcast::unbounded::TryRecvError>();
}

#[test]
fn public_types_are_unpin() {
    fn assert_unpin<T: Unpin>() {}

    assert_unpin::<LazyLock<u32, fn() -> u32>>();
    assert_unpin::<broadcast::unbounded::Shared<i64>>();
    assert_unpin::<broadcast::unbounded::Sender<i64>>();
    assert_unpin::<broadcast::unbounded::Receiver<i64>>();
    assert_unpin::<broadcast::unbounded::RecvError>();
    assert_unpin::<broadcast::unbounded::TryRecvError>();
}
