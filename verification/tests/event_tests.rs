use mio::event::{
    debug_details, is_aio, is_error, is_lio, is_priority, is_read_closed, is_readable,
    is_writable, is_write_closed, token, Event, POLLERR, POLLHUP, POLLIN, POLLNVAL, POLLOUT,
    POLLPRI, POLLRDHUP, POLLWRBAND,
};
use mio::interest::Interest;
use mio::token::Token;

fn ev(events: u16) -> Event {
    Event { token: Token(7), events }
}

#[test]
fn event_token_is_returned() {
    assert_eq!(token(&ev(POLLIN)), Token(7));
}

#[test]
fn readable_from_in_or_pri() {
    assert!(is_readable(&ev(POLLIN)));
    assert!(is_readable(&ev(POLLPRI)));
    assert!(!is_readable(&ev(POLLOUT)));
    assert!(!is_readable(&ev(0)));
}

#[test]
fn writable_from_out_only() {
    assert!(is_writable(&ev(POLLOUT)));
    assert!(is_writable(&ev(POLLOUT | POLLERR)));
    assert!(!is_writable(&ev(POLLIN)));
}

#[test]
fn error_and_priority_flags() {
    assert!(is_error(&ev(POLLERR)));
    assert!(!is_error(&ev(POLLHUP)));
    assert!(is_priority(&ev(POLLPRI)));
    assert!(!is_priority(&ev(POLLIN)));
}

#[test]
fn read_closed_on_hup_or_rdhup() {
    assert!(is_read_closed(&ev(POLLHUP)));
    assert!(is_read_closed(&ev(POLLIN | POLLRDHUP)));
    assert!(!is_read_closed(&ev(POLLIN)));
    assert!(!is_read_closed(&ev(POLLERR)));
}

#[test]
fn write_closed_cases() {
    // hang-up
    assert!(is_write_closed(&ev(POLLHUP)));
    // error on a writable pipe end
    assert!(is_write_closed(&ev(POLLOUT | POLLERR)));
    // error alone: the reading end went away
    assert!(is_write_closed(&ev(POLLERR)));
    // error together with other readiness but not writability
    assert!(!is_write_closed(&ev(POLLIN | POLLERR)));
    assert!(!is_write_closed(&ev(POLLOUT)));
}

#[test]
fn aio_and_lio_never_reported() {
    assert!(!is_aio(&ev(0xffff)));
    assert!(!is_lio(&ev(0xffff)));
}

#[test]
fn debug_details_names_flags_in_order() {
    assert_eq!(debug_details(&ev(0)), Vec::<&str>::new());
    assert_eq!(debug_details(&ev(POLLOUT | POLLIN)), vec!["POLLIN", "POLLOUT"]);
    assert_eq!(
        debug_details(&ev(POLLRDHUP | POLLWRBAND | POLLNVAL | POLLHUP | POLLERR | POLLPRI)),
        vec!["POLLPRI", "POLLERR", "POLLHUP", "POLLNVAL", "POLLWRBAND", "POLLRDHUP"]
    );
}

#[test]
fn interest_add_and_remove() {
    let rw = Interest::readable().add(Interest::writable());
    assert!(rw.is_readable());
    assert!(rw.is_writable());
    assert!(!rw.is_priority());
    let w = rw.remove(Interest::readable()).unwrap();
    assert!(!w.is_readable());
    assert!(w.is_writable());
    assert_eq!(Interest::readable().remove(Interest::readable()), None);
    assert_eq!(Interest::priority().add(Interest::priority()), Interest::priority());
}
