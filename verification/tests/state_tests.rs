use mio::error::Error;
use mio::event::{Event, POLLERR, POLLHUP, POLLIN, POLLOUT, POLLPRI, POLLRDHUP};
use mio::interest::Interest;
use mio::state::{interests_to_poll, PollFd, SelectorState};
use mio::token::Token;

fn ready(fd: i32, revents: u16) -> PollFd {
    PollFd { fd, events: 0, revents }
}

fn fds(s: &SelectorState) -> Vec<i32> {
    s.poll_fds().iter().map(|p| p.fd).collect()
}

#[test]
fn interest_masks() {
    assert_eq!(interests_to_poll(Interest::readable()), POLLIN | POLLRDHUP);
    assert_eq!(interests_to_poll(Interest::writable()), POLLOUT);
    assert_eq!(interests_to_poll(Interest::priority()), POLLPRI);
    assert_eq!(
        interests_to_poll(Interest::readable().add(Interest::writable())),
        POLLIN | POLLRDHUP | POLLOUT
    );
}

#[test]
fn register_adds_in_order() {
    let mut s = SelectorState::new().unwrap();
    assert_eq!(s.register(3, Token(1), Interest::readable()), Ok(()));
    assert_eq!(s.register(4, Token(2), Interest::writable()), Ok(()));
    assert_eq!(
        s.poll_fds(),
        vec![
            PollFd { fd: 3, events: POLLIN | POLLRDHUP, revents: 0 },
            PollFd { fd: 4, events: POLLOUT, revents: 0 },
        ]
    );
}

#[test]
fn register_twice_is_already_exists() {
    let mut s = SelectorState::new().unwrap();
    s.register(3, Token(1), Interest::readable()).unwrap();
    let before = s.poll_fds();
    assert_eq!(s.register(3, Token(9), Interest::writable()), Err(Error::AlreadyExists));
    assert_eq!(s.poll_fds(), before);
}

#[test]
fn register_then_deregister_restores_registrations() {
    let mut s = SelectorState::new().unwrap();
    s.register(3, Token(1), Interest::readable()).unwrap();
    s.register(4, Token(2), Interest::writable()).unwrap();
    let before = s.poll_fds();
    s.register(5, Token(3), Interest::readable()).unwrap();
    assert_eq!(s.deregister(5), Ok(()));
    assert_eq!(s.poll_fds(), before);
}

#[test]
fn deregister_unregistered_is_not_found() {
    let mut s = SelectorState::new().unwrap();
    s.register(3, Token(1), Interest::readable()).unwrap();
    let before = s.poll_fds();
    assert_eq!(s.deregister(8), Err(Error::NotFound));
    assert_eq!(s.poll_fds(), before);
}

#[test]
fn deregister_moves_last_into_place() {
    let mut s = SelectorState::new().unwrap();
    s.register(3, Token(1), Interest::readable()).unwrap();
    s.register(4, Token(2), Interest::readable()).unwrap();
    s.register(5, Token(3), Interest::readable()).unwrap();
    s.deregister(3).unwrap();
    assert_eq!(fds(&s), vec![5, 4]);
}

#[test]
fn deregister_all_reports_missing_targets() {
    let mut s = SelectorState::new().unwrap();
    s.register(3, Token(1), Interest::readable()).unwrap();
    s.register(4, Token(2), Interest::readable()).unwrap();
    assert_eq!(s.deregister_all(&[4, 3]), Ok(()));
    assert!(fds(&s).is_empty());
    s.register(3, Token(1), Interest::readable()).unwrap();
    assert_eq!(s.deregister_all(&[3, 3]), Err(()));
    assert!(fds(&s).is_empty());
}

#[test]
fn reregister_updates_in_place() {
    let mut s = SelectorState::new().unwrap();
    s.register(3, Token(1), Interest::readable()).unwrap();
    s.register(4, Token(2), Interest::readable()).unwrap();
    assert_eq!(s.reregister(3, Token(5), Interest::writable()), Ok(()));
    assert_eq!(
        s.poll_fds(),
        vec![
            PollFd { fd: 3, events: POLLOUT, revents: 0 },
            PollFd { fd: 4, events: POLLIN | POLLRDHUP, revents: 0 },
        ]
    );
    let mut events = Vec::new();
    s.select(&mut events, &[ready(3, POLLOUT)]).unwrap();
    assert_eq!(events, vec![Event { token: Token(5), events: POLLOUT }]);
}

#[test]
fn reregister_unregistered_is_not_found() {
    let mut s = SelectorState::new().unwrap();
    assert_eq!(s.reregister(3, Token(5), Interest::writable()), Err(Error::NotFound));
    assert!(fds(&s).is_empty());
}

#[test]
fn records_follow_registrations() {
    let mut s = SelectorState::new().unwrap();
    assert_eq!(s.register_internal(3, Token(1), Interest::readable()), Ok(0));
    assert_eq!(s.register_internal(4, Token(2), Interest::readable()), Ok(1));
    assert!(s.is_record_registered(0));
    assert!(s.is_record_registered(1));
    assert!(!s.is_record_registered(2));
    s.deregister(3).unwrap();
    assert!(!s.is_record_registered(0));
    assert!(s.is_record_registered(1));
    s.mark_record_unregistered(1);
    assert!(!s.is_record_registered(1));
    // the descriptor stays registered until it is deregistered
    assert_eq!(fds(&s), vec![4]);
    assert_eq!(s.register_internal(3, Token(1), Interest::readable()), Ok(2));
}

#[test]
fn select_reports_and_disarms() {
    let mut s = SelectorState::new().unwrap();
    s.register(3, Token(1), Interest::readable()).unwrap();
    s.register(4, Token(2), Interest::writable()).unwrap();
    let mut events = vec![Event { token: Token(99), events: 0 }];
    s.select(&mut events, &[ready(3, POLLIN), ready(4, 0), ready(7, POLLIN)]).unwrap();
    assert_eq!(events, vec![Event { token: Token(1), events: POLLIN }]);
    assert_eq!(
        s.poll_fds(),
        vec![
            PollFd { fd: 3, events: POLLRDHUP, revents: 0 },
            PollFd { fd: 4, events: POLLOUT, revents: 0 },
        ]
    );
    // re-registering arms the descriptor again
    s.reregister(3, Token(1), Interest::readable()).unwrap();
    assert_eq!(s.poll_fds()[0].events, POLLIN | POLLRDHUP);
}

#[test]
fn select_events_keep_polled_order() {
    let mut s = SelectorState::new().unwrap();
    s.register(3, Token(1), Interest::readable()).unwrap();
    s.register(4, Token(2), Interest::readable()).unwrap();
    let mut events = Vec::new();
    s.select(&mut events, &[ready(4, POLLIN), ready(3, POLLIN | POLLPRI)]).unwrap();
    assert_eq!(
        events,
        vec![
            Event { token: Token(2), events: POLLIN },
            Event { token: Token(1), events: POLLIN | POLLPRI },
        ]
    );
}

#[test]
fn wake_is_reported_once_and_first() {
    let mut s = SelectorState::new().unwrap();
    s.register(3, Token(1), Interest::readable()).unwrap();
    assert_eq!(s.wake(Token(42)), Ok(()));
    let mut events = Vec::new();
    s.select(&mut events, &[ready(3, POLLIN)]).unwrap();
    assert_eq!(
        events,
        vec![Event { token: Token(42), events: POLLIN }, Event { token: Token(1), events: POLLIN }]
    );
    s.select(&mut events, &[]).unwrap();
    assert!(events.is_empty());
}

#[test]
fn later_wake_replaces_earlier() {
    let mut s = SelectorState::new().unwrap();
    s.wake(Token(1)).unwrap();
    s.wake(Token(2)).unwrap();
    let mut events = Vec::new();
    s.select(&mut events, &[]).unwrap();
    assert_eq!(events, vec![Event { token: Token(2), events: POLLIN }]);
}

#[test]
fn hang_up_deregisters() {
    let mut s = SelectorState::new().unwrap();
    assert_eq!(s.register_internal(3, Token(1), Interest::readable()), Ok(0));
    s.register(4, Token(2), Interest::readable()).unwrap();
    let mut events = Vec::new();
    s.select(&mut events, &[ready(3, POLLIN | POLLHUP), ready(4, POLLERR)]).unwrap();
    assert_eq!(
        events,
        vec![
            Event { token: Token(1), events: POLLIN | POLLHUP },
            Event { token: Token(2), events: POLLERR },
        ]
    );
    assert!(fds(&s).is_empty());
    assert!(!s.is_record_registered(0));
    assert_eq!(s.deregister(3), Err(Error::NotFound));
}

#[test]
fn removed_during_poll_is_ignored() {
    let mut s = SelectorState::new().unwrap();
    s.register(3, Token(1), Interest::readable()).unwrap();
    s.register(4, Token(2), Interest::readable()).unwrap();
    let _snapshot = s.poll_fds();
    s.deregister(4).unwrap();
    s.register(4, Token(7), Interest::readable()).unwrap();
    s.deregister(3).unwrap();
    let mut events = Vec::new();
    s.select(&mut events, &[ready(3, POLLIN), ready(4, POLLIN)]).unwrap();
    // 3 was removed while polling; 4 was registered again and is reported
    assert_eq!(events, vec![Event { token: Token(7), events: POLLIN }]);
    // the pending removals are consumed by the selection
    s.register(3, Token(1), Interest::readable()).unwrap();
    s.select(&mut events, &[ready(3, POLLIN)]).unwrap();
    assert_eq!(events, vec![Event { token: Token(1), events: POLLIN }]);
}

#[test]
fn select_keeps_descriptors_not_closed() {
    let mut s = SelectorState::new().unwrap();
    s.register(3, Token(1), Interest::readable()).unwrap();
    s.register(4, Token(2), Interest::readable()).unwrap();
    s.register(5, Token(3), Interest::writable()).unwrap();
    let mut events = Vec::new();
    s.select(&mut events, &[ready(3, POLLIN), ready(4, POLLHUP), ready(5, 0)]).unwrap();
    assert_eq!(fds(&s), vec![3, 5]);
    assert_eq!(s.deregister(4), Err(Error::NotFound));
    assert_eq!(s.deregister(5), Ok(()));
}

#[test]
fn events_carry_registered_tokens_only() {
    let mut s = SelectorState::new().unwrap();
    s.register(3, Token(11), Interest::readable()).unwrap();
    let mut events = Vec::new();
    s.select(&mut events, &[ready(8, POLLIN), ready(3, POLLIN | POLLOUT), ready(9, POLLERR)])
        .unwrap();
    assert_eq!(events, vec![Event { token: Token(11), events: POLLIN | POLLOUT }]);
}
