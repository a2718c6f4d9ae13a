# asyncband

Verified state machines for asynchronous synchronization primitives.

- `src/broadcast/unbounded`: a multi-producer multi-consumer broadcast channel. Each message is kept
  until every active receiver has read it or has left.
- `src/once/lazy_lock.rs`: a value that is initialized on first access, with retries after a failed or
  cancelled run and poisoning after a panic.
- `src/internal`: the slot arena and the wait set that the primitives are built on.

The library holds no lock and wakes no task. Operations take the shared state as an argument and hand
back what has to happen outside of a lock: the tasks to wake, the messages to drop. `app/` puts locks,
wakers and futures around it and offers the usual handles (`Sender`, `Receiver`, `LazyLock`), and the
benchmarks of those handles.

The channel is specified by the messages sent so far and one cursor per receiver
(`src/broadcast/unbounded/model.rs`). `src/broadcast/unbounded/laws.rs` states what holds of every
series of operations: no message is lost, duplicated or reordered, the buffer is the backlog of the
slowest receiver, and no wake-up is missed.

What is relied on without proof is collected in `src/internal/std_items.rs`.
