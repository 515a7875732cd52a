use vstd::prelude::*;

use crate::error::Error;
use crate::interest::Interest;
use crate::selector::{RegistrationRecord, Selector, SharedState};
use crate::event::{POLLIN, POLLOUT, POLLPRI};
use crate::state::{law_reregister_polls_interests, poll_mask, RawFd, RegistryModel, SelectorState};
use crate::token::Token;

verus! {

/// What an event source remembers of its registration.
pub struct InternalState {
    selector: Selector,
    token: Token,
    interests: Interest,
    fd: RawFd,
    shared_record: RegistrationRecord,
}

/// The registration state of one event source: unregistered, or registered
/// with a selector under a token, interests and descriptor, and tracked by a
/// registration record of that selector.
pub struct IoSourceState {
    inner: Option<InternalState>,
}

/// The (token, interests, descriptor) of a registration.
pub type Registration = (Token, Interest, RawFd);

/// Whether `result` is the error of an operation that would block.
pub open spec fn would_block<R>(result: Result<R, Error>) -> bool {
    result == Err::<R, Error>(Error::WouldBlock)
}

/// The selector state and the result after an I/O operation that returned
/// `result`, for a source with registration `reg`, on selector state `m`:
/// when the operation would block, a registered source is re-registered with
/// its token and interests (which arms its readiness again); if the selector
/// no longer has the descriptor, the result is `NotFound` instead.
pub open spec fn rearm_outcome<R>(
    reg: Option<Registration>,
    m: RegistryModel,
    result: Result<R, Error>,
) -> (RegistryModel, Result<R, Error>) {
    match reg {
        Some(g) => {
            if would_block(result) {
                if m.is_registered(g.2) {
                    (m.reregistered(g.2, g.0, poll_mask(g.1)), result)
                } else {
                    (m, Err::<R, Error>(Error::NotFound))
                }
            } else {
                (m, result)
            }
        },
        None => (m, result),
    }
}

/// After an operation that would block, a source registered under token
/// `t`, interests `i` and descriptor `fd`, which the selector still holds, is
/// polled again for exactly the readiness `i` asks for, under `t`, and the
/// caller sees `WouldBlock`; if the selector no longer holds `fd`, nothing
/// changes and the caller sees `NotFound`. Any other result is passed on
/// unchanged and changes nothing.
pub proof fn law_rearm_restores_interests<R>(
    m: RegistryModel,
    t: Token,
    i: Interest,
    fd: RawFd,
    other: Result<R, Error>,
)
    requires
        m.wf(),
    ensures
        m.is_registered(fd) ==> {
            let o = rearm_outcome(Some((t, i, fd)), m, Err::<R, Error>(Error::WouldBlock));
            &&& o.1 == Err::<R, Error>(Error::WouldBlock)
            &&& o.0.is_registered(fd)
            &&& o.0.entry(fd).token == t
            &&& (o.0.entry(fd).events & POLLIN != 0) == i.wants_read()
            &&& (o.0.entry(fd).events & POLLOUT != 0) == i.wants_write()
            &&& (o.0.entry(fd).events & POLLPRI != 0) == i.wants_priority()
        },
        !m.is_registered(fd) ==> rearm_outcome(
            Some((t, i, fd)),
            m,
            Err::<R, Error>(Error::WouldBlock),
        ) == (m, Err::<R, Error>(Error::NotFound)),
        other != Err::<R, Error>(Error::WouldBlock) ==> rearm_outcome(Some((t, i, fd)), m, other)
            == (m, other),
{
    if m.is_registered(fd) {
        law_reregister_polls_interests(m, fd, t, i);
    }
}

impl IoSourceState {
    /// The source's registration, if it is registered.
    pub closed spec fn registration(&self) -> Option<Registration> {
        match self.inner {
            Some(s) => Some((s.token, s.interests, s.fd)),
            None => None,
        }
    }

    /// The id of the registration record that tracks the source's
    /// registration, if it is registered.
    pub closed spec fn record(&self) -> Option<usize> {
        match self.inner {
            Some(s) => Some(s.shared_record.id()),
            None => None,
        }
    }

    /// The shared selector state the source is registered with, if any.
    pub closed spec fn selector_state(&self) -> Option<SharedState> {
        match self.inner {
            Some(s) => Some(s.selector.shared()),
            None => None,
        }
    }

    /// The descriptor that letting go of the source deregisters from a
    /// selector in state `m`: the registered descriptor, while its record
    /// still counts as registered.
    pub closed spec fn released_fd(&self, m: RegistryModel) -> Option<RawFd> {
        match self.inner {
            Some(s) => if m.record_registered(s.shared_record.id()) {
                Some(s.fd)
            } else {
                None
            },
            None => None,
        }
    }

    /// An unregistered source.
    pub fn new() -> (r: IoSourceState)
        ensures
            r.registration() is None,
            r.record() is None,
    {
        IoSourceState { inner: None }
    }

    /// Re-arms the source in the selector state `st` (the one it is
    /// registered with) after an I/O operation that returned `result` (see
    /// `rearm_outcome`).
    pub fn rearm_in<R>(&self, st: &mut SelectorState, result: Result<R, Error>) -> (r: Result<
        R,
        Error,
    >)
        requires
            old(st)@.wf(),
        ensures
            final(st)@.wf(),
            (final(st)@, r) == rearm_outcome(self.registration(), old(st)@, result),
    {
        let blocked = match &result {
            Err(Error::WouldBlock) => true,
            _ => false,
        };
        if blocked {
            match &self.inner {
                Some(state) => {
                    match st.reregister(state.fd, state.token, state.interests) {
                        Ok(()) => {},
                        Err(e) => {
                            return Err(e);
                        },
                    }
                },
                None => {},
            }
        }
        result
    }

    /// What an I/O operation returns, after the source was re-armed if the
    /// operation would block (see `rearm_in`, which runs under the lock of
    /// the selector the source is registered with).
    ///
    /// A registration's readiness is disarmed once it is reported; when the
    /// operation that follows would block, the registration is given its
    /// interests again so that the next readiness is reported. Should that
    /// fail, its error replaces the result.
    pub fn rearm<R>(&self, result: Result<R, Error>) -> (r: Result<R, Error>)
        ensures
            exists|m: RegistryModel|
                m.wf() && r == (#[trigger] rearm_outcome(self.registration(), m, result)).1,
    {
        let blocked = match &result {
            Err(Error::WouldBlock) => true,
            _ => false,
        };
        if !blocked {
            assert(RegistryModel::empty().wf() && result == rearm_outcome(
                self.registration(),
                RegistryModel::empty(),
                result,
            ).1);
            return result;
        }
        match &self.inner {
            Some(state) => {
                let (mut st, handle) = state.selector.lock().acquire_write();
                let ghost before = st@;
                let r = self.rearm_in(&mut st, result);
                assert(before.wf() && r == rearm_outcome(self.registration(), before, result).1);
                handle.release_write(st);
                r
            },
            None => {
                assert(RegistryModel::empty().wf() && result == rearm_outcome(
                    self.registration(),
                    RegistryModel::empty(),
                    result,
                ).1);
                result
            },
        }
    }

    /// Runs the I/O operation `f` on `io`, re-arming the source if the
    /// operation would block (see `rearm`).
    pub fn do_io<T, F, R>(&self, f: F, io: &T) -> (r: Result<R, Error>) where
        F: FnOnce(&T) -> Result<R, Error>,

        requires
            f.requires((io,)),
        ensures
            exists|out: Result<R, Error>, m: RegistryModel|
                #![trigger f.ensures((io,), out), rearm_outcome(self.registration(), m, out)]
                f.ensures((io,), out) && m.wf() && r == rearm_outcome(
                    self.registration(),
                    m,
                    out,
                ).1,
    {
        let result = f(io);
        let r = self.rearm(result);
        proof {
            let m = choose|m: RegistryModel|
                m.wf() && r == (#[trigger] rearm_outcome(self.registration(), m, result)).1;
            assert(f.ensures((io,), result) && m.wf() && r == rearm_outcome(
                self.registration(),
                m,
                result,
            ).1);
        }
        r
    }

    /// Runs the I/O operation `f` on `io` and re-arms the source in the
    /// selector state `st` (the one it is registered with) if the operation
    /// would block (see `rearm_in`).
    pub fn do_io_in<T, F, R>(&self, st: &mut SelectorState, f: F, io: &T) -> (r: Result<R, Error>) where
        F: FnOnce(&T) -> Result<R, Error>,

        requires
            old(st)@.wf(),
            f.requires((io,)),
        ensures
            final(st)@.wf(),
            exists|out: Result<R, Error>|
                #[trigger] f.ensures((io,), out) && (final(st)@, r) == rearm_outcome(
                    self.registration(),
                    old(st)@,
                    out,
                ),
    {
        let result = f(io);
        self.rearm_in(st, result)
    }

    /// Registers the source, in the selector state `st` of `selector`, under
    /// `token` and `interests` for descriptor `fd`.
    ///
    /// A source that is registered already fails with `AlreadyExists`,
    /// unchanged; so does one whose descriptor the selector has registered.
    pub fn register_in(
        &mut self,
        selector: &Selector,
        st: &mut SelectorState,
        token: Token,
        interests: Interest,
        fd: RawFd,
    ) -> (r: Result<(), Error>)
        requires
            old(st)@.wf(),
        ensures
            final(st)@.wf(),
            old(self).registration() is Some ==> r == Err::<(), Error>(Error::AlreadyExists)
                && final(st)@ == old(st)@ && final(self).registration() == old(self).registration()
                && final(self).record() == old(self).record() && final(self).selector_state()
                == old(self).selector_state(),
            old(self).registration() is None && old(st)@.is_registered(fd) ==> r == Err::<
                (),
                Error,
            >(Error::AlreadyExists) && final(st)@ == old(st)@ && final(self).registration() is None,
            old(self).registration() is None && !old(st)@.is_registered(fd) ==> r == Ok::<
                (),
                Error,
            >(()) && final(st)@ == old(st)@.registered(fd, token, poll_mask(interests)) && final(self).registration() == Some((token, interests, fd)) && final(self).record() == Some(
                old(st)@.records.len() as usize,
            ) && final(self).selector_state() == Some(selector.shared()),
    {
        if self.inner.is_some() {
            return Err(Error::AlreadyExists);
        }
        let sel = match selector.try_clone() {
            Ok(s) => s,
            Err(e) => {
                return Err(e);
            },
        };
        match st.register_internal(fd, token, interests) {
            Ok(id) => {
                let shared_record = sel.record(id);
                self.inner = Some(
                    InternalState {
                        selector: sel,
                        token: token,
                        interests: interests,
                        fd: fd,
                        shared_record: shared_record,
                    },
                );
                Ok(())
            },
            Err(e) => Err(e),
        }
    }

    /// Registers the source with `selector` under `token` and `interests`
    /// for descriptor `fd` (see `register_in`, which runs under the
    /// selector's lock).
    pub fn register(&mut self, selector: &Selector, token: Token, interests: Interest, fd: RawFd) -> (r:
        Result<(), Error>)
        ensures
            old(self).registration() is Some ==> r == Err::<(), Error>(Error::AlreadyExists)
                && final(self).registration() == old(self).registration()
                && final(self).selector_state() == old(self).selector_state(),
            old(self).registration() is None ==> (r is Ok ==> final(self).registration() == Some(
                (token, interests, fd),
            ) && final(self).selector_state() == Some(selector.shared())) && (r is Err ==> r
                == Err::<(), Error>(Error::AlreadyExists) && final(self).registration() is None),
            old(self).registration() is None ==> exists|m: RegistryModel|
                m.wf() && (#[trigger] m.is_registered(fd) <==> r is Err) && (r is Ok ==> final(self).record() == Some(m.records.len() as usize)),
    {
        let (mut st, handle) = selector.lock().acquire_write();
        let ghost before = st@;
        let r = self.register_in(selector, &mut st, token, interests, fd);
        handle.release_write(st);
        proof {
            if old(self).registration() is None {
                assert(before.wf() && (before.is_registered(fd) <==> r is Err) && (r is Ok ==> self.record()
                    == Some(before.records.len() as usize)));
            }
        }
        r
    }

    /// Gives the source's registration, in the selector state `st`, a new
    /// token and interests for descriptor `fd`.
    ///
    /// An unregistered source fails with `NotFound`. If the selector has no
    /// registration for `fd`, the result is `NotFound` and nothing changes;
    /// otherwise the source keeps its descriptor and takes the new token and
    /// interests.
    pub fn reregister_in(
        &mut self,
        st: &mut SelectorState,
        token: Token,
        interests: Interest,
        fd: RawFd,
    ) -> (r: Result<(), Error>)
        requires
            old(st)@.wf(),
        ensures
            final(st)@.wf(),
            final(self).selector_state() == old(self).selector_state(),
            final(self).record() == old(self).record(),
            old(self).registration() is None ==> r == Err::<(), Error>(Error::NotFound) && final(st)@ == old(st)@ && final(self).registration() is None,
            old(self).registration() matches Some(reg) ==> (old(st)@.is_registered(fd) ==> r
                == Ok::<(), Error>(()) && final(st)@ == old(st)@.reregistered(
                fd,
                token,
                poll_mask(interests),
            ) && final(self).registration() == Some((token, interests, reg.2))) && (!old(st)@.is_registered(fd) ==> r == Err::<(), Error>(Error::NotFound) && final(st)@ == old(st)@ && final(self).registration() == old(self).registration()),
    {
        match self.inner {
            Some(ref mut state) => {
                match st.reregister(fd, token, interests) {
                    Ok(()) => {
                        state.token = token;
                        state.interests = interests;
                        Ok(())
                    },
                    Err(e) => Err(e),
                }
            },
            None => Err(Error::NotFound),
        }
    }

    /// Gives the source's registration a new token and interests, asking
    /// `selector` to re-register `fd` (see `reregister_in`, which runs under
    /// the selector's lock).
    pub fn reregister(&mut self, selector: &Selector, token: Token, interests: Interest, fd: RawFd) -> (r:
        Result<(), Error>)
        ensures
            old(self).registration() is None ==> r == Err::<(), Error>(Error::NotFound)
                && final(self).registration() is None,
            old(self).registration() matches Some(reg) ==> (r is Ok ==> final(self).registration()
                == Some((token, interests, reg.2))) && (r is Err ==> r == Err::<(), Error>(
                Error::NotFound,
            ) && final(self).registration() == old(self).registration()),
            final(self).selector_state() == old(self).selector_state(),
            old(self).registration() is Some ==> exists|m: RegistryModel|
                m.wf() && (#[trigger] m.is_registered(fd) <==> r is Ok),
    {
        let (mut st, handle) = selector.lock().acquire_write();
        let ghost before = st@;
        let r = self.reregister_in(&mut st, token, interests, fd);
        handle.release_write(st);
        proof {
            if old(self).registration() is Some {
                assert(before.wf() && (before.is_registered(fd) <==> r is Ok));
            }
        }
        r
    }

    /// Deregisters descriptor `fd` in the selector state `st` and forgets the
    /// source's registration, whose record (of that state) is marked
    /// unregistered first.
    ///
    /// Fails with `NotFound` if the selector has no registration for `fd`;
    /// the source is unregistered either way.
    pub fn deregister_in(&mut self, st: &mut SelectorState, fd: RawFd) -> (r: Result<(), Error>)
        requires
            old(st)@.wf(),
        ensures
            final(st)@.wf(),
            final(self).registration() is None,
            final(st)@ == (match old(self).record() {
                Some(id) => old(st)@.record_marked(id),
                None => old(st)@,
            }).deregistered_all(seq![fd]),
            old(st)@.is_registered(fd) ==> r == Ok::<(), Error>(()),
            !old(st)@.is_registered(fd) ==> r == Err::<(), Error>(Error::NotFound),
    {
        let taken = self.inner.take();
        match taken {
            Some(state) => {
                state.shared_record.mark_unregistered_in(st);
            },
            None => {},
        }
        st.deregister(fd)
    }

    /// Deregisters descriptor `fd` from `selector` and forgets the source's
    /// registration, whose record is marked unregistered first (see
    /// `deregister_in`, which runs under the selector's lock). A registration
    /// made with another selector has its record marked in that selector.
    ///
    /// Fails with `NotFound` if the selector has no registration for `fd`;
    /// the source is unregistered either way.
    pub fn deregister(&mut self, selector: &Selector, fd: RawFd) -> (r: Result<(), Error>)
        ensures
            final(self).registration() is None,
            exists|m: RegistryModel|
                m.wf() && (#[trigger] m.is_registered(fd) ==> r == Ok::<(), Error>(())) && (
                !m.is_registered(fd) ==> r == Err::<(), Error>(Error::NotFound)),
    {
        let elsewhere = match &self.inner {
            Some(state) => !state.selector.same_as(selector),
            None => false,
        };
        if elsewhere {
            let taken = self.inner.take();
            match taken {
                Some(state) => {
                    state.shared_record.mark_unregistered();
                },
                None => {},
            }
        }
        let (mut st, handle) = selector.lock().acquire_write();
        let ghost before = st@;
        let r = self.deregister_in(&mut st, fd);
        assert(before.wf() && (before.is_registered(fd) ==> r == Ok::<(), Error>(())) && (
        !before.is_registered(fd) ==> r == Err::<(), Error>(Error::NotFound)));
        handle.release_write(st);
        r
    }

    /// Lets go of the source's registration in the selector state `st` (the
    /// one it is registered with), as when the source is dropped: if its
    /// record still counts as registered, the descriptor is deregistered;
    /// if the selector dropped the registration itself, nothing changes.
    pub fn release_in(&mut self, st: &mut SelectorState)
        requires
            old(st)@.wf(),
        ensures
            final(st)@.wf(),
            final(self).registration() is None,
            final(self).record() is None,
            match old(self).released_fd(old(st)@) {
                Some(fd) => final(st)@ == old(st)@.deregistered_all(seq![fd]),
                None => final(st)@ == old(st)@,
            },
    {
        let taken = self.inner.take();
        match taken {
            Some(state) => {
                if state.shared_record.is_registered_in(st) {
                    let _ = st.deregister(state.fd);
                }
            },
            None => {},
        }
    }

    /// Lets go of the source's registration, as when the source is dropped
    /// (see `release_in`, which runs under the lock of the selector the
    /// source is registered with).
    pub fn release(&mut self)
        ensures
            final(self).registration() is None,
    {
        let cloned = match &self.inner {
            Some(state) => Some(state.selector.try_clone()),
            None => None,
        };
        match cloned {
            Some(Ok(sel)) => {
                let (mut st, handle) = sel.lock().acquire_write();
                self.release_in(&mut st);
                handle.release_write(st);
            },
            _ => {
                self.inner = None;
            },
        }
    }
}

} // verus!
