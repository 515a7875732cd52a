use mio::error::Error;
use mio::event::{Event, POLLHUP, POLLIN, POLLOUT, POLLRDHUP};
use mio::interest::Interest;
use mio::io_source::IoSourceState;
use mio::selector::{Selector, Waker};
use mio::state::{PollFd, SelectorState};
use mio::token::Token;

fn ready(fd: i32, revents: u16) -> PollFd {
    PollFd { fd, events: 0, revents }
}

fn fds(s: &SelectorState) -> Vec<i32> {
    s.poll_fds().iter().map(|p| p.fd).collect()
}

#[test]
fn register_in_hands_over_token_and_interests() {
    let sel = Selector::new().unwrap();
    let mut st = SelectorState::new().unwrap();
    let mut src = IoSourceState::new();
    assert_eq!(src.register_in(&sel, &mut st, Token(3), Interest::readable(), 5), Ok(()));
    assert_eq!(st.poll_fds(), vec![PollFd { fd: 5, events: POLLIN | POLLRDHUP, revents: 0 }]);
    assert!(st.is_record_registered(0));
    assert_eq!(
        src.register_in(&sel, &mut st, Token(4), Interest::writable(), 6),
        Err(Error::AlreadyExists)
    );
    let mut other = IoSourceState::new();
    assert_eq!(
        other.register_in(&sel, &mut st, Token(4), Interest::writable(), 5),
        Err(Error::AlreadyExists)
    );
    assert_eq!(fds(&st), vec![5]);
}

#[test]
fn rearm_in_restores_interests_after_would_block() {
    let sel = Selector::new().unwrap();
    let mut st = SelectorState::new().unwrap();
    let mut src = IoSourceState::new();
    src.register_in(&sel, &mut st, Token(3), Interest::readable(), 5).unwrap();
    let mut events = Vec::new();
    st.select(&mut events, &[ready(5, POLLIN)]).unwrap();
    assert_eq!(st.poll_fds()[0].events, POLLRDHUP);
    // a successful operation re-arms nothing
    assert_eq!(src.rearm_in(&mut st, Ok::<u32, Error>(7)), Ok(7));
    assert_eq!(st.poll_fds()[0].events, POLLRDHUP);
    // an operation that would block re-arms the registration
    assert_eq!(src.rearm_in(&mut st, Err::<u32, Error>(Error::WouldBlock)), Err(Error::WouldBlock));
    assert_eq!(st.poll_fds()[0].events, POLLIN | POLLRDHUP);
    // and the next readiness is reported again, under the source's token
    st.select(&mut events, &[ready(5, POLLIN)]).unwrap();
    assert_eq!(events, vec![Event { token: Token(3), events: POLLIN }]);
}

#[test]
fn rearm_in_reports_lost_registration() {
    let sel = Selector::new().unwrap();
    let mut st = SelectorState::new().unwrap();
    let mut src = IoSourceState::new();
    src.register_in(&sel, &mut st, Token(3), Interest::readable(), 5).unwrap();
    let mut events = Vec::new();
    st.select(&mut events, &[ready(5, POLLHUP)]).unwrap();
    assert_eq!(src.rearm_in(&mut st, Err::<u32, Error>(Error::WouldBlock)), Err(Error::NotFound));
    assert!(fds(&st).is_empty());
}

#[test]
fn reregister_in_keeps_descriptor() {
    let sel = Selector::new().unwrap();
    let mut st = SelectorState::new().unwrap();
    let mut src = IoSourceState::new();
    assert_eq!(src.reregister_in(&mut st, Token(1), Interest::readable(), 5), Err(Error::NotFound));
    src.register_in(&sel, &mut st, Token(3), Interest::readable(), 5).unwrap();
    assert_eq!(src.reregister_in(&mut st, Token(9), Interest::writable(), 5), Ok(()));
    let mut events = Vec::new();
    st.select(&mut events, &[ready(5, POLLOUT)]).unwrap();
    assert_eq!(events, vec![Event { token: Token(9), events: POLLOUT }]);
    assert_eq!(src.reregister_in(&mut st, Token(9), Interest::writable(), 8), Err(Error::NotFound));
}

#[test]
fn deregister_in_marks_record_and_deregisters() {
    let sel = Selector::new().unwrap();
    let mut st = SelectorState::new().unwrap();
    let mut src = IoSourceState::new();
    src.register_in(&sel, &mut st, Token(3), Interest::readable(), 5).unwrap();
    assert_eq!(src.deregister_in(&mut st, 5), Ok(()));
    assert!(!st.is_record_registered(0));
    assert!(fds(&st).is_empty());
    assert_eq!(src.deregister_in(&mut st, 5), Err(Error::NotFound));
}

#[test]
fn release_in_deregisters_only_standing_registration() {
    let sel = Selector::new().unwrap();
    let mut st = SelectorState::new().unwrap();
    let mut a = IoSourceState::new();
    a.register_in(&sel, &mut st, Token(3), Interest::readable(), 5).unwrap();
    a.release_in(&mut st);
    assert!(fds(&st).is_empty());
    assert!(!st.is_record_registered(0));

    let mut b = IoSourceState::new();
    b.register_in(&sel, &mut st, Token(3), Interest::readable(), 5).unwrap();
    let mut events = Vec::new();
    st.select(&mut events, &[ready(5, POLLHUP)]).unwrap();
    let mut c = IoSourceState::new();
    c.register_in(&sel, &mut st, Token(4), Interest::writable(), 5).unwrap();
    b.release_in(&mut st);
    assert_eq!(st.poll_fds(), vec![PollFd { fd: 5, events: POLLOUT, revents: 0 }]);
}

#[test]
fn waker_wake_in_uses_its_token() {
    let sel = Selector::new().unwrap();
    let mut st = SelectorState::new().unwrap();
    let w = Waker::new(&sel, Token(77)).unwrap();
    assert_eq!(w.wake_in(&mut st), Ok(()));
    let mut events = Vec::new();
    st.select(&mut events, &[]).unwrap();
    assert_eq!(events, vec![Event { token: Token(77), events: POLLIN }]);
}

#[test]
fn record_in_state_functions() {
    let sel = Selector::new().unwrap();
    let rec = sel.register_internal(5, Token(1), Interest::readable()).unwrap();
    assert_eq!(rec.record_id(), 0);
    let mut st = SelectorState::new().unwrap();
    st.register(9, Token(2), Interest::readable()).unwrap();
    assert!(rec.is_registered_in(&st));
    rec.mark_unregistered_in(&mut st);
    assert!(!rec.is_registered_in(&st));
    assert!(!st.is_record_registered(0));
}

#[test]
fn selector_same_as() {
    let a = Selector::new().unwrap();
    let b = a.try_clone().unwrap();
    let c = Selector::new().unwrap();
    assert!(a.same_as(&b));
    assert!(!a.same_as(&c));
}

#[test]
fn deregister_with_other_selector_marks_own_record() {
    let a = Selector::new().unwrap();
    let b = Selector::new().unwrap();
    let mut src = IoSourceState::new();
    src.register(&a, Token(1), Interest::readable(), 5).unwrap();
    b.register(5, Token(2), Interest::readable()).unwrap();
    assert_eq!(src.deregister(&b, 5), Ok(()));
    assert!(b.poll_fds().is_empty());
    // the registration with `a` stays, its record marked unregistered
    assert_eq!(a.poll_fds().len(), 1);
    assert_eq!(src.register(&a, Token(1), Interest::readable(), 5), Err(Error::AlreadyExists));
}

#[test]
fn deregister_all_is_stepwise_deregister() {
    let mut one = SelectorState::new().unwrap();
    let mut steps = SelectorState::new().unwrap();
    for s in [&mut one, &mut steps] {
        s.register(3, Token(1), Interest::readable()).unwrap();
        s.register(4, Token(2), Interest::readable()).unwrap();
        s.register(5, Token(3), Interest::readable()).unwrap();
    }
    assert_eq!(one.deregister_all(&[3, 5]), Ok(()));
    assert_eq!(steps.deregister(3), Ok(()));
    assert_eq!(steps.deregister(5), Ok(()));
    assert_eq!(one.poll_fds(), steps.poll_fds());
    for id in 0..3 {
        assert_eq!(one.is_record_registered(id), steps.is_record_registered(id));
    }
}

#[test]
fn records_never_return() {
    let mut s = SelectorState::new().unwrap();
    assert_eq!(s.register_internal(5, Token(1), Interest::readable()), Ok(0));
    s.deregister(5).unwrap();
    assert_eq!(s.register_internal(5, Token(1), Interest::readable()), Ok(1));
    assert!(!s.is_record_registered(0));
    assert!(s.is_record_registered(1));
    let mut events = Vec::new();
    s.select(&mut events, &[ready(5, POLLHUP)]).unwrap();
    assert!(!s.is_record_registered(1));
    assert_eq!(s.deregister(5), Err(Error::NotFound));
    // no later selection reports it
    s.select(&mut events, &[ready(5, POLLIN)]).unwrap();
    assert!(events.is_empty());
}
