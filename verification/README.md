# outbound

A scheduler for outbound requests, written in Verus: priorities that rise with
age, ordered lanes, sliding rate windows, penalties after a
`RetryAfter`, latest-wins replacement, and a durable outbox on top.

- `src/` is the library. Every function carries a contract, and Verus proves it.
  - `scheduler/` is the state machine. `model.rs` says what each operation does
    to a mathematical state; `laws.rs`, `fairness.rs`, `order.rs`, `outcome.rs`,
    `history.rs` and `spending.rs` state what holds of all of them together, and
    the other files hold the executable code and the proofs.
  - `window.rs`, `heap.rs`, `idmap.rs`, `time.rs`, `text.rs` are its parts.
  - `queue/` answers commands; `outbox/` stores records and decides deliveries;
    `throttle/`, `adaptor.rs`, `classify.rs` and `payload/` turn Telegram
    requests into scheduled ones.
- `app/` runs the library on Tokio: channels, timers, stores and requests. What
  is granted, retried or stored, the library decides.
- `tests/` holds scenarios with concrete values.

Two functions are believed rather than proved: `String::push`, and the joining
of lines by `itertools`. Their contracts stand beside them, in `src/text.rs` and
`src/payload/render.rs`.
