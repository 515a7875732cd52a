# mio (poll-based selector core)

A readiness registry for a `poll(2)`-style event selector, written in Verus.

## Layout

- `src/` – the verified library.
  - `state.rs` – `SelectorState`, the sequential core: registrations in
    polling order, registration records, descriptors pending removal and the
    pending wake-up; `RegistryModel`, its abstract state; the spec function
    of every operation and the laws of the registry.
  - `selector.rs` – `Selector`, a handle on a state shared under a lock
    (clones share it), `RegistrationRecord` and `Waker`.
  - `io_source.rs` – `IoSourceState`, the registration state of one event
    source, with re-arming after `WouldBlock`.
  - `pipe.rs` – the two ends of a Unix pipe as event sources.
  - `event.rs`, `interest.rs`, `token.rs`, `error.rs` – events and their
    readiness bits, interests, tokens and errors.
- `app/` – the operating-system side: the `poll(2)` call, the `eventfd(2)`
  notification that interrupts it, pipe creation and I/O, TCP socket calls,
  and conversions to `std::io::Error`.
- `tests/` – tests of the library on concrete values.

Each operation that runs under the lock of a shared state is a thin step
(take the lock, call, release) around a function that takes the
`SelectorState` as an argument and has an exact contract: the `SelectorState`
operations themselves, and `IoSourceState::register_in`, `reregister_in`,
`deregister_in`, `rearm_in`, `release_in`, `Waker::wake_in` and
`RegistrationRecord::mark_unregistered_in` / `is_registered_in`.

A selection runs in two steps: `Selector::poll_fds` gives the set to hand to
`poll(2)`, and `Selector::select` turns what `poll(2)` reported into events.
