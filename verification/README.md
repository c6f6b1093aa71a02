# relay

A blind relay for ciphertext envelopes, verified with Verus.

- `src/store.rs`: `RelayStore`, one envelope per recipient (last write wins), and
  `Mailbox`, a bounded FIFO queue of envelopes per recipient. Both expire entries.
  Each operation has a form that takes the time explicitly (`store_at`, `pickup_at`,
  `enqueue_at`, `dequeue_at`, times in nanoseconds since the store's origin), with an exact
  contract over the spec functions `slots_after_store`, `pickup_outcome`,
  `enqueue_outcome` and `dequeue_outcome`. The forms that read the clock state that their
  effect is that of the explicit form at some clock reading, with the expiry of a stored
  envelope that reading plus the TTL's nanoseconds (`duration_nanos(ttl)`). Each store
  keeps its latest reading (`latest_reading()`), and a clocked operation's reading is never
  earlier than the one before it.
  `RelayStore` keeps finitely many slots (a type invariant, stated by its operations), so
  its count follows each operation.
- `src/laws.rs`: properties across operations (a pickup returns what was stored, the last
  write wins, how the count changes, arrival order for any number of envelopes, the depth
  bound, a zero TTL adds nothing live, recipients are independent, ...).
- `src/clock.rs`: the monotonic clock, the only unverified calls.
- `app/lib.rs`: lock-guarded handles for use from several threads.
