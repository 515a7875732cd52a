use mio::error::Error;
use mio::event::{Event, POLLHUP, POLLIN, POLLOUT};
use mio::interest::Interest;
use mio::io_source::IoSourceState;
use mio::pipe::{Receiver, Sender};
use mio::selector::{Selector, Waker};
use mio::state::PollFd;
use mio::token::Token;

fn ready(fd: i32, revents: u16) -> PollFd {
    PollFd { fd, events: 0, revents }
}

fn select(s: &Selector, polled: &[PollFd]) -> Vec<Event> {
    let mut events = Vec::new();
    s.select(&mut events, polled).unwrap();
    events
}

#[test]
fn clones_share_registrations() {
    let a = Selector::new().unwrap();
    let b = a.try_clone().unwrap();
    assert_eq!(b.register(3, Token(1), Interest::readable()), Ok(()));
    assert_eq!(a.register(3, Token(2), Interest::readable()), Err(Error::AlreadyExists));
    assert_eq!(a.reregister(3, Token(2), Interest::writable()), Ok(()));
    assert_eq!(b.poll_fds(), vec![PollFd { fd: 3, events: POLLOUT, revents: 0 }]);
    assert_eq!(a.deregister(3), Ok(()));
    assert_eq!(b.deregister(3), Err(Error::NotFound));
    assert_eq!(b.reregister(3, Token(2), Interest::writable()), Err(Error::NotFound));
}

#[test]
fn selector_select_reports_events() {
    let s = Selector::new().unwrap();
    s.register(5, Token(8), Interest::writable()).unwrap();
    assert_eq!(select(&s, &[ready(5, POLLOUT)]), vec![Event { token: Token(8), events: POLLOUT }]);
}

#[test]
fn waker_wakes_the_shared_selector() {
    let s = Selector::new().unwrap();
    let w = Waker::new(&s, Token(42)).unwrap();
    assert_eq!(w.wake(), Ok(()));
    assert_eq!(select(&s, &[]), vec![Event { token: Token(42), events: POLLIN }]);
    assert_eq!(select(&s, &[]), vec![]);
    assert_eq!(s.wake(Token(1)), Ok(()));
    assert_eq!(select(&s, &[]), vec![Event { token: Token(1), events: POLLIN }]);
}

#[test]
fn record_tracks_selector_deregistration() {
    let s = Selector::new().unwrap();
    let rec = s.register_internal(5, Token(1), Interest::readable()).unwrap();
    assert!(rec.is_registered());
    assert_eq!(select(&s, &[ready(5, POLLHUP)]), vec![Event { token: Token(1), events: POLLHUP }]);
    assert!(!rec.is_registered());
    let rec2 = s.register_internal(5, Token(1), Interest::readable()).unwrap();
    assert!(rec2.is_registered());
    rec2.mark_unregistered();
    assert!(!rec2.is_registered());
    assert!(s.register_internal(5, Token(1), Interest::readable()).is_err());
}

#[test]
fn io_source_register_once() {
    let s = Selector::new().unwrap();
    let mut src = IoSourceState::new();
    assert_eq!(src.register(&s, Token(1), Interest::readable(), 3), Ok(()));
    assert_eq!(src.register(&s, Token(1), Interest::readable(), 3), Err(Error::AlreadyExists));
    let mut other = IoSourceState::new();
    assert_eq!(other.register(&s, Token(2), Interest::readable(), 3), Err(Error::AlreadyExists));
    assert_eq!(other.deregister(&s, 9), Err(Error::NotFound));
}

#[test]
fn io_source_reregister_and_deregister() {
    let s = Selector::new().unwrap();
    let mut src = IoSourceState::new();
    assert_eq!(src.reregister(&s, Token(1), Interest::readable(), 3), Err(Error::NotFound));
    src.register(&s, Token(1), Interest::readable(), 3).unwrap();
    assert_eq!(src.reregister(&s, Token(4), Interest::writable(), 3), Ok(()));
    assert_eq!(select(&s, &[ready(3, POLLOUT)]), vec![Event { token: Token(4), events: POLLOUT }]);
    assert_eq!(src.deregister(&s, 3), Ok(()));
    assert!(s.poll_fds().is_empty());
    assert_eq!(src.reregister(&s, Token(4), Interest::writable(), 3), Err(Error::NotFound));
    // a deregistered source can register again
    assert_eq!(src.register(&s, Token(1), Interest::readable(), 3), Ok(()));
}

#[test]
fn do_io_rearms_on_would_block() {
    let s = Selector::new().unwrap();
    let mut src = IoSourceState::new();
    src.register(&s, Token(1), Interest::readable(), 3).unwrap();
    select(&s, &[ready(3, POLLIN)]);
    assert_eq!(s.poll_fds()[0].events & POLLIN, 0);
    let r: Result<u32, Error> = src.do_io(|_x: &u32| Err(Error::WouldBlock), &0);
    assert_eq!(r, Err(Error::WouldBlock));
    assert_eq!(s.poll_fds()[0].events & POLLIN, POLLIN);
    let ok: Result<u32, Error> = src.do_io(|x: &u32| Ok(*x + 1), &41);
    assert_eq!(ok, Ok(42));
    let other: Result<u32, Error> = src.do_io(|_x: &u32| Err(Error::Os(5)), &0);
    assert_eq!(other, Err(Error::Os(5)));
}

#[test]
fn do_io_reports_rearm_failure() {
    let s = Selector::new().unwrap();
    let mut src = IoSourceState::new();
    src.register(&s, Token(1), Interest::readable(), 3).unwrap();
    // the selector drops the registration after a hang-up
    select(&s, &[ready(3, POLLHUP)]);
    let r: Result<u32, Error> = src.do_io(|_x: &u32| Err(Error::WouldBlock), &0);
    assert_eq!(r, Err(Error::NotFound));
}

#[test]
fn unregistered_do_io_passes_result_through() {
    let src = IoSourceState::new();
    let r: Result<u32, Error> = src.do_io(|_x: &u32| Err(Error::WouldBlock), &0);
    assert_eq!(r, Err(Error::WouldBlock));
}

#[test]
fn release_deregisters_unless_selector_did() {
    let s = Selector::new().unwrap();
    let mut a = IoSourceState::new();
    a.register(&s, Token(1), Interest::readable(), 3).unwrap();
    a.release();
    assert!(s.poll_fds().is_empty());

    // after a hang-up the selector dropped fd 3; another source registers it
    let mut b = IoSourceState::new();
    b.register(&s, Token(1), Interest::readable(), 3).unwrap();
    select(&s, &[ready(3, POLLHUP)]);
    let mut c = IoSourceState::new();
    c.register(&s, Token(2), Interest::writable(), 3).unwrap();
    b.release();
    // the newer registration is untouched
    assert_eq!(s.poll_fds(), vec![PollFd { fd: 3, events: POLLOUT, revents: 0 }]);
}

#[test]
fn pipe_ends_register_and_try_io() {
    let s = Selector::new().unwrap();
    let mut tx = Sender::from_fd(10);
    let mut rx = Receiver::from_fd(11);
    assert_eq!(tx.as_raw_fd(), 10);
    assert_eq!(rx.as_raw_fd(), 11);
    assert_eq!(rx.register(&s, Token(0), Interest::readable()), Ok(()));
    assert_eq!(tx.register(&s, Token(1), Interest::writable()), Ok(()));
    assert_eq!(tx.register(&s, Token(1), Interest::writable()), Err(Error::AlreadyExists));
    assert_eq!(
        select(&s, &[ready(11, POLLIN), ready(10, POLLOUT)]),
        vec![Event { token: Token(0), events: POLLIN }, Event { token: Token(1), events: POLLOUT }]
    );
    let n: Result<usize, Error> = tx.try_io(|| Ok(11));
    assert_eq!(n, Ok(11));
    let wb: Result<usize, Error> = rx.try_io(|| Err(Error::WouldBlock));
    assert_eq!(wb, Err(Error::WouldBlock));
    assert_eq!(rx.reregister(&s, Token(5), Interest::readable()), Ok(()));
    assert_eq!(rx.deregister(&s), Ok(()));
    assert_eq!(rx.deregister(&s), Err(Error::NotFound));
    assert_eq!(tx.into_raw_fd(), 10);
    assert!(s.poll_fds().is_empty());
}
