use vstd::prelude::*;

use crate::error::Error;
use crate::interest::Interest;
use crate::io_source::{rearm_outcome, IoSourceState, Registration};
use crate::selector::Selector;
use crate::state::{RawFd, RegistryModel, SelectorState};
use crate::token::Token;

verus! {

/// Sending end of a Unix pipe.
///
/// The descriptor is owned by the caller's I/O layer; this type tracks its
/// registration with a selector and re-arms it when an operation would block.
pub struct Sender {
    fd: RawFd,
    source: IoSourceState,
}

impl Sender {
    /// The descriptor of this end.
    pub closed spec fn fd(&self) -> RawFd {
        self.fd
    }

    /// The registration of this end, if it is registered.
    pub closed spec fn registration(&self) -> Option<Registration> {
        self.source.registration()
    }

    /// The id of the registration record that tracks this end's
    /// registration, if it is registered.
    pub closed spec fn record(&self) -> Option<usize> {
        self.source.record()
    }

    /// An unregistered end for descriptor `fd`.
    pub fn from_fd(fd: RawFd) -> (r: Sender)
        ensures
            r.fd() == fd,
            r.registration() is None,
            r.record() is None,
    {
        Sender { fd: fd, source: IoSourceState::new() }
    }

    /// The descriptor of this end.
    pub fn as_raw_fd(&self) -> (r: RawFd)
        ensures
            r == self.fd(),
    {
        self.fd
    }

    /// Gives up this end, deregistering it unless the selector dropped its
    /// registration already, and returns its descriptor.
    pub fn into_raw_fd(self) -> (r: RawFd)
        ensures
            r == self.fd(),
    {
        let mut s = self;
        s.source.release();
        s.fd
    }

    /// Lets go of this end's registration, as when it is dropped.
    pub fn release(&mut self)
        ensures
            final(self).fd() == old(self).fd(),
            final(self).registration() is None,
    {
        self.source.release();
    }

    /// Registers this end with `selector` under `token` and `interests`.
    pub fn register(&mut self, selector: &Selector, token: Token, interests: Interest) -> (r: Result<
        (),
        Error,
    >)
        ensures
            final(self).fd() == old(self).fd(),
            old(self).registration() is Some ==> r == Err::<(), Error>(Error::AlreadyExists)
                && final(self).registration() == old(self).registration(),
            old(self).registration() is None ==> (r is Ok ==> final(self).registration() == Some(
                (token, interests, old(self).fd()),
            )) && (r is Err ==> r == Err::<(), Error>(Error::AlreadyExists)
                && final(self).registration() is None),
            old(self).registration() is None ==> exists|m: RegistryModel|
                m.wf() && (#[trigger] m.is_registered(old(self).fd()) <==> r is Err) && (r is Ok
                    ==> final(self).record() == Some(m.records.len() as usize)),
    {
        self.source.register(selector, token, interests, self.fd)
    }

    /// Gives this end's registration a new token and interests.
    pub fn reregister(&mut self, selector: &Selector, token: Token, interests: Interest) -> (r:
        Result<(), Error>)
        ensures
            final(self).fd() == old(self).fd(),
            old(self).registration() is None ==> r == Err::<(), Error>(Error::NotFound)
                && final(self).registration() is None,
            old(self).registration() matches Some(reg) ==> (r is Ok ==> final(self).registration()
                == Some((token, interests, reg.2))) && (r is Err ==> r == Err::<(), Error>(
                Error::NotFound,
            ) && final(self).registration() == old(self).registration()),
    {
        self.source.reregister(selector, token, interests, self.fd)
    }

    /// Deregisters this end from `selector`.
    pub fn deregister(&mut self, selector: &Selector) -> (r: Result<(), Error>)
        ensures
            final(self).fd() == old(self).fd(),
            final(self).registration() is None,
            exists|m: RegistryModel|
                m.wf() && (#[trigger] m.is_registered(old(self).fd()) ==> r == Ok::<(), Error>(()))
                    && (!m.is_registered(old(self).fd()) ==> r == Err::<(), Error>(
                    Error::NotFound,
                )),
    {
        self.source.deregister(selector, self.fd)
    }

    /// Runs the I/O operation `f` on this end and re-arms its registration in
    /// the selector state `st` (the one it is registered with) if the
    /// operation would block.
    pub fn try_io_in<F, T>(&self, st: &mut SelectorState, f: F) -> (r: Result<T, Error>) where
        F: FnOnce() -> Result<T, Error>,

        requires
            old(st)@.wf(),
            f.requires(()),
        ensures
            final(st)@.wf(),
            exists|out: Result<T, Error>|
                #[trigger] f.ensures((), out) && (final(st)@, r) == rearm_outcome(
                    self.registration(),
                    old(st)@,
                    out,
                ),
    {
        let result = f();
        self.source.rearm_in(st, result)
    }

    /// Runs the I/O operation `f` on this end, re-arming the registration if
    /// the operation would block.
    pub fn try_io<F, T>(&self, f: F) -> (r: Result<T, Error>) where
        F: FnOnce() -> Result<T, Error>,

        requires
            f.requires(()),
        ensures
            exists|out: Result<T, Error>, m: RegistryModel|
                #![trigger f.ensures((), out), rearm_outcome(self.registration(), m, out)]
                f.ensures((), out) && m.wf() && r == rearm_outcome(self.registration(), m, out).1,
    {
        let result = f();
        let r = self.source.rearm(result);
        proof {
            let m = choose|m: RegistryModel|
                m.wf() && r == (#[trigger] rearm_outcome(self.registration(), m, result)).1;
            assert(f.ensures((), result) && m.wf() && r == rearm_outcome(
                self.registration(),
                m,
                result,
            ).1);
        }
        r
    }
}

/// Receiving end of a Unix pipe.
///
/// The descriptor is owned by the caller's I/O layer; this type tracks its
/// registration with a selector and re-arms it when an operation would block.
pub struct Receiver {
    fd: RawFd,
    source: IoSourceState,
}

impl Receiver {
    /// The descriptor of this end.
    pub closed spec fn fd(&self) -> RawFd {
        self.fd
    }

    /// The registration of this end, if it is registered.
    pub closed spec fn registration(&self) -> Option<Registration> {
        self.source.registration()
    }

    /// The id of the registration record that tracks this end's
    /// registration, if it is registered.
    pub closed spec fn record(&self) -> Option<usize> {
        self.source.record()
    }

    /// An unregistered end for descriptor `fd`.
    pub fn from_fd(fd: RawFd) -> (r: Receiver)
        ensures
            r.fd() == fd,
            r.registration() is None,
            r.record() is None,
    {
        Receiver { fd: fd, source: IoSourceState::new() }
    }

    /// The descriptor of this end.
    pub fn as_raw_fd(&self) -> (r: RawFd)
        ensures
            r == self.fd(),
    {
        self.fd
    }

    /// Gives up this end, deregistering it unless the selector dropped its
    /// registration already, and returns its descriptor.
    pub fn into_raw_fd(self) -> (r: RawFd)
        ensures
            r == self.fd(),
    {
        let mut s = self;
        s.source.release();
        s.fd
    }

    /// Lets go of this end's registration, as when it is dropped.
    pub fn release(&mut self)
        ensures
            final(self).fd() == old(self).fd(),
            final(self).registration() is None,
    {
        self.source.release();
    }

    /// Registers this end with `selector` under `token` and `interests`.
    pub fn register(&mut self, selector: &Selector, token: Token, interests: Interest) -> (r: Result<
        (),
        Error,
    >)
        ensures
            final(self).fd() == old(self).fd(),
            old(self).registration() is Some ==> r == Err::<(), Error>(Error::AlreadyExists)
                && final(self).registration() == old(self).registration(),
            old(self).registration() is None ==> (r is Ok ==> final(self).registration() == Some(
                (token, interests, old(self).fd()),
            )) && (r is Err ==> r == Err::<(), Error>(Error::AlreadyExists)
                && final(self).registration() is None),
            old(self).registration() is None ==> exists|m: RegistryModel|
                m.wf() && (#[trigger] m.is_registered(old(self).fd()) <==> r is Err) && (r is Ok
                    ==> final(self).record() == Some(m.records.len() as usize)),
    {
        self.source.register(selector, token, interests, self.fd)
    }

    /// Gives this end's registration a new token and interests.
    pub fn reregister(&mut self, selector: &Selector, token: Token, interests: Interest) -> (r:
        Result<(), Error>)
        ensures
            final(self).fd() == old(self).fd(),
            old(self).registration() is None ==> r == Err::<(), Error>(Error::NotFound)
                && final(self).registration() is None,
            old(self).registration() matches Some(reg) ==> (r is Ok ==> final(self).registration()
                == Some((token, interests, reg.2))) && (r is Err ==> r == Err::<(), Error>(
                Error::NotFound,
            ) && final(self).registration() == old(self).registration()),
    {
        self.source.reregister(selector, token, interests, self.fd)
    }

    /// Deregisters this end from `selector`.
    pub fn deregister(&mut self, selector: &Selector) -> (r: Result<(), Error>)
        ensures
            final(self).fd() == old(self).fd(),
            final(self).registration() is None,
            exists|m: RegistryModel|
                m.wf() && (#[trigger] m.is_registered(old(self).fd()) ==> r == Ok::<(), Error>(()))
                    && (!m.is_registered(old(self).fd()) ==> r == Err::<(), Error>(
                    Error::NotFound,
                )),
    {
        self.source.deregister(selector, self.fd)
    }

    /// Runs the I/O operation `f` on this end and re-arms its registration in
    /// the selector state `st` (the one it is registered with) if the
    /// operation would block.
    pub fn try_io_in<F, T>(&self, st: &mut SelectorState, f: F) -> (r: Result<T, Error>) where
        F: FnOnce() -> Result<T, Error>,

        requires
            old(st)@.wf(),
            f.requires(()),
        ensures
            final(st)@.wf(),
            exists|out: Result<T, Error>|
                #[trigger] f.ensures((), out) && (final(st)@, r) == rearm_outcome(
                    self.registration(),
                    old(st)@,
                    out,
                ),
    {
        let result = f();
        self.source.rearm_in(st, result)
    }

    /// Runs the I/O operation `f` on this end, re-arming the registration if
    /// the operation would block.
    pub fn try_io<F, T>(&self, f: F) -> (r: Result<T, Error>) where
        F: FnOnce() -> Result<T, Error>,

        requires
            f.requires(()),
        ensures
            exists|out: Result<T, Error>, m: RegistryModel|
                #![trigger f.ensures((), out), rearm_outcome(self.registration(), m, out)]
                f.ensures((), out) && m.wf() && r == rearm_outcome(self.registration(), m, out).1,
    {
        let result = f();
        let r = self.source.rearm(result);
        proof {
            let m = choose|m: RegistryModel|
                m.wf() && r == (#[trigger] rearm_outcome(self.registration(), m, result)).1;
            assert(f.ensures((), result) && m.wf() && r == rearm_outcome(
                self.registration(),
                m,
                result,
            ).1);
        }
        r
    }
}

} // verus!
