use std::sync::Arc;

use vstd::prelude::*;
use vstd::rwlock::{RwLock, RwLockPredicate};

use crate::error::Error;
use crate::event::Events;
use crate::interest::Interest;
use crate::state::{poll_set, PollFd, RawFd, RegistryModel, SelectorState};
use crate::token::Token;

verus! {

/// The lock predicate of a shared selector state: it stays well formed.
pub struct WellFormed;

impl RwLockPredicate<SelectorState> for WellFormed {
    open spec fn inv(self, v: SelectorState) -> bool {
        v@.wf()
    }
}

/// The selector state as shared by the handles that use it.
pub type SharedState = Arc<RwLock<SelectorState, WellFormed>>;

/// Another handle on the same shared state.
///
/// Trusted: `Arc::clone` hands out a pointer to the same allocation, so the
/// new handle designates the very lock that `state` designates.
#[verifier::external_body]
fn share(state: &SharedState) -> (r: SharedState)
    ensures
        r == *state,
{
    Arc::clone(state)
}

/// Whether two handles designate the same shared state.
///
/// Trusted: `Arc::ptr_eq` is true only when both point to the same
/// allocation, which is then one and the same lock.
#[verifier::external_body]
fn same_allocation(a: &SharedState, b: &SharedState) -> (r: bool)
    ensures
        r ==> *a == *b,
{
    Arc::ptr_eq(a, b)
}

/// A handle on a selector's registrations.
///
/// Clones made by `try_clone` share one state, which a lock guards; each
/// operation runs the corresponding `SelectorState` operation on it. As other
/// handles may act between two calls, a contract here can only say what the
/// operation yields on the state it found: some well-formed state.
pub struct Selector {
    state: SharedState,
}

impl Selector {
    /// The shared state behind this handle.
    pub closed spec fn shared(&self) -> SharedState {
        self.state
    }

    /// The lock that guards the shared state; the functions that take a
    /// `SelectorState` run on what it holds.
    pub fn lock(&self) -> (r: &RwLock<SelectorState, WellFormed>)
        ensures
            *r == *self.shared(),
    {
        &*self.state
    }

    /// Whether `other` is a handle on the same state (`false` may also mean
    /// that this could not be told).
    pub fn same_as(&self, other: &Selector) -> (r: bool)
        ensures
            r ==> self.shared() == other.shared(),
    {
        same_allocation(&self.state, &other.state)
    }

    /// A handle on record `id` of this selector's state.
    pub(crate) fn record(&self, id: usize) -> (r: RegistrationRecord)
        ensures
            r.id() == id,
            r.shared() == self.shared(),
    {
        RegistrationRecord { state: share(&self.state), id: id }
    }

    /// A selector with no registrations.
    pub fn new() -> (r: Result<Selector, Error>)
        ensures
            r is Ok,
    {
        let state = match SelectorState::new() {
            Ok(s) => s,
            Err(e) => {
                return Err(e);
            },
        };
        Ok(Selector { state: Arc::new(RwLock::new(state, Ghost(WellFormed))) })
    }

    /// Another handle on the same registrations.
    pub fn try_clone(&self) -> (r: Result<Selector, Error>)
        ensures
            r matches Ok(s) && s.shared() == self.shared(),
    {
        Ok(Selector { state: share(&self.state) })
    }

    /// The `poll(2)` set of the registrations as they are now.
    pub fn poll_fds(&self) -> (r: Vec<PollFd>)
        ensures
            exists|m: RegistryModel| m.wf() && r@ == #[trigger] poll_set(m.entries),
    {
        let handle = self.state.acquire_read();
        let st = handle.borrow();
        let r = st.poll_fds();
        assert(st@.wf() && r@ == poll_set(st@.entries));
        handle.release_read();
        r
    }

    /// Processes one round of `poll(2)` results (see `SelectorState::select`).
    pub fn select(&self, events: &mut Events, polled: &[PollFd]) -> (r: Result<(), Error>)
        ensures
            r is Ok,
            exists|m: RegistryModel|
                m.wf() && final(events)@ == #[trigger] m.select_events(polled@),
    {
        let (mut st, handle) = self.state.acquire_write();
        let ghost before = st@;
        let r = st.select(events, polled);
        assert(before.wf() && events@ == before.select_events(polled@));
        handle.release_write(st);
        r
    }

    /// Registers `fd` with `token` and `interests`; fails with
    /// `AlreadyExists` if `fd` is registered.
    pub fn register(&self, fd: RawFd, token: Token, interests: Interest) -> (r: Result<
        (),
        Error,
    >)
        ensures
            exists|m: RegistryModel|
                m.wf() && (#[trigger] m.is_registered(fd) ==> r == Err::<(), Error>(
                    Error::AlreadyExists,
                )) && (!m.is_registered(fd) ==> r == Ok::<(), Error>(())),
    {
        let (mut st, handle) = self.state.acquire_write();
        let ghost before = st@;
        let r = st.register(fd, token, interests);
        assert(before.wf() && (before.is_registered(fd) ==> r == Err::<(), Error>(
            Error::AlreadyExists,
        )) && (!before.is_registered(fd) ==> r == Ok::<(), Error>(())));
        handle.release_write(st);
        r
    }

    /// Registers `fd` with `token` and `interests` and returns the record
    /// that tells whether the registration still stands; fails with
    /// `AlreadyExists` if `fd` is registered.
    pub fn register_internal(&self, fd: RawFd, token: Token, interests: Interest) -> (r: Result<
        RegistrationRecord,
        Error,
    >)
        ensures
            exists|m: RegistryModel|
                m.wf() && (#[trigger] m.is_registered(fd) ==> r == Err::<RegistrationRecord, Error>(
                    Error::AlreadyExists,
                )) && (!m.is_registered(fd) ==> (r matches Ok(rec) && rec.id() == m.records.len()
                    && rec.shared() == self.shared())),
    {
        let (mut st, handle) = self.state.acquire_write();
        let ghost before = st@;
        let r = st.register_internal(fd, token, interests);
        handle.release_write(st);
        match r {
            Ok(id) => {
                let rec = self.record(id);
                assert(before.wf());
                assert(!before.is_registered(fd));
                assert(rec.id() == before.records.len());
                Ok(rec)
            },
            Err(e) => {
                assert(before.wf() && before.is_registered(fd));
                Err(e)
            },
        }
    }

    /// Gives the registration of `fd` a new token and interests; fails with
    /// `NotFound` if `fd` is not registered.
    pub fn reregister(&self, fd: RawFd, token: Token, interests: Interest) -> (r: Result<
        (),
        Error,
    >)
        ensures
            exists|m: RegistryModel|
                m.wf() && (#[trigger] m.is_registered(fd) ==> r == Ok::<(), Error>(())) && (
                !m.is_registered(fd) ==> r == Err::<(), Error>(Error::NotFound)),
    {
        let (mut st, handle) = self.state.acquire_write();
        let ghost before = st@;
        let r = st.reregister(fd, token, interests);
        assert(before.wf() && (before.is_registered(fd) ==> r == Ok::<(), Error>(())) && (
        !before.is_registered(fd) ==> r == Err::<(), Error>(Error::NotFound)));
        handle.release_write(st);
        r
    }

    /// Deregisters `fd`; fails with `NotFound` if `fd` is not registered.
    pub fn deregister(&self, fd: RawFd) -> (r: Result<(), Error>)
        ensures
            exists|m: RegistryModel|
                m.wf() && (#[trigger] m.is_registered(fd) ==> r == Ok::<(), Error>(())) && (
                !m.is_registered(fd) ==> r == Err::<(), Error>(Error::NotFound)),
    {
        let (mut st, handle) = self.state.acquire_write();
        let ghost before = st@;
        let r = st.deregister(fd);
        assert(before.wf() && (before.is_registered(fd) ==> r == Ok::<(), Error>(())) && (
        !before.is_registered(fd) ==> r == Err::<(), Error>(Error::NotFound)));
        handle.release_write(st);
        r
    }

    /// Requests a wake-up: the next selection reports an event with `token`.
    pub fn wake(&self, token: Token) -> (r: Result<(), Error>)
        ensures
            r is Ok,
    {
        let (mut st, handle) = self.state.acquire_write();
        let r = st.wake(token);
        handle.release_write(st);
        r
    }
}

/// The record of one registration, shared with the selector, telling whether
/// that registration still stands. The selector marks it unregistered when it
/// drops the registration itself (after a hang-up or an error), so that the
/// owner of the source does not deregister the descriptor a second time.
pub struct RegistrationRecord {
    state: SharedState,
    id: usize,
}

impl RegistrationRecord {
    /// The record's id in the selector state.
    pub closed spec fn id(&self) -> usize {
        self.id
    }

    /// The shared state the record belongs to.
    pub closed spec fn shared(&self) -> SharedState {
        self.state
    }

    /// The record's id.
    pub fn record_id(&self) -> (r: usize)
        ensures
            r == self.id(),
    {
        self.id
    }

    /// Marks the registration as no longer standing, in the state `st`
    /// (the one the record belongs to).
    pub fn mark_unregistered_in(&self, st: &mut SelectorState)
        requires
            old(st)@.wf(),
        ensures
            final(st)@.wf(),
            final(st)@ == old(st)@.record_marked(self.id()),
    {
        st.mark_record_unregistered(self.id);
    }

    /// Whether the registration still stands in the state `st`.
    pub fn is_registered_in(&self, st: &SelectorState) -> (r: bool)
        ensures
            r == st@.record_registered(self.id()),
    {
        st.is_record_registered(self.id)
    }

    /// Marks the registration as no longer standing (see
    /// `mark_unregistered_in`, which runs under the state's lock).
    pub fn mark_unregistered(&self) {
        let (mut st, handle) = self.state.acquire_write();
        self.mark_unregistered_in(&mut st);
        handle.release_write(st);
    }

    /// Whether the registration still stands (see `is_registered_in`, which
    /// runs under the state's lock).
    pub fn is_registered(&self) -> (r: bool)
        ensures
            exists|m: RegistryModel| m.wf() && r == #[trigger] m.record_registered(self.id()),
    {
        let handle = self.state.acquire_read();
        let st = handle.borrow();
        let r = self.is_registered_in(st);
        assert(st@.wf() && r == st@.record_registered(self.id()));
        handle.release_read();
        r
    }
}

/// Wakes a selector: each `wake` makes the selector's next selection report
/// an event with the waker's token.
pub struct Waker {
    selector: Selector,
    token: Token,
}

impl Waker {
    /// The token the waker's events carry.
    pub closed spec fn token(&self) -> Token {
        self.token
    }

    /// The selector the waker wakes.
    pub closed spec fn selector(&self) -> Selector {
        self.selector
    }

    /// A waker for `selector` whose events carry `token`.
    pub fn new(selector: &Selector, token: Token) -> (r: Result<Waker, Error>)
        ensures
            r matches Ok(w) && w.token() == token && w.selector().shared() == selector.shared(),
    {
        let selector = match selector.try_clone() {
            Ok(s) => s,
            Err(e) => {
                return Err(e);
            },
        };
        Ok(Waker { selector: selector, token: token })
    }

    /// Requests, in the state `st` (the one of the waker's selector), a
    /// wake-up with the waker's token.
    pub fn wake_in(&self, st: &mut SelectorState) -> (r: Result<(), Error>)
        requires
            old(st)@.wf(),
        ensures
            final(st)@.wf(),
            final(st)@ == old(st)@.woken(self.token()),
            r == Ok::<(), Error>(()),
    {
        st.wake(self.token)
    }

    /// Requests a wake-up of the selector with the waker's token (see
    /// `wake_in`, which runs under the selector's lock).
    pub fn wake(&self) -> (r: Result<(), Error>)
        ensures
            r is Ok,
    {
        let (mut st, handle) = self.selector.lock().acquire_write();
        let r = self.wake_in(&mut st);
        handle.release_write(st);
        r
    }
}

} // verus!
