use redis_starter_rust::error::Error;
use redis_starter_rust::handler::{count_requests, pong_bytes, Action, Event, Handler};

fn chars(s: &str) -> Vec<char> {
    s.chars().collect()
}

fn is_reply(a: &Action) -> bool {
    matches!(a, Action::Reply(v) if v.as_slice() == b"+PONG\r\n")
}

#[test]
fn pong_bytes_are_the_acknowledgement() {
    assert_eq!(pong_bytes(), b"+PONG\r\n".to_vec());
}

#[test]
fn count_requests_counts_each_token() {
    assert_eq!(count_requests(&chars("PING\r\n")), 1);
    assert_eq!(count_requests(&chars("xxPING\r\nyy")), 1);
    assert_eq!(count_requests(&chars("PING\r\nPING\r\n")), 2);
    assert_eq!(count_requests(&chars("aPING\r\nbPING\r\ncPING\r\n")), 3);
    assert_eq!(count_requests(&chars("PING\n")), 0);
    assert_eq!(count_requests(&chars("PING\r")), 0);
    assert_eq!(count_requests(&chars("ping\r\n")), 0);
    assert_eq!(count_requests(&chars("")), 0);
}

#[test]
fn whole_request_in_one_chunk_is_answered() {
    let mut h = Handler::new();
    let a = h.on_event(Event::Read(b"PING\r\n".to_vec()));
    assert!(is_reply(&a));
    assert!(matches!(h.on_event(Event::Written), Action::Read));
}

#[test]
fn split_request_gets_one_reply() {
    let mut h = Handler::new();
    assert!(matches!(h.on_event(Event::Read(b"PI".to_vec())), Action::Read));
    assert!(is_reply(&h.on_event(Event::Read(b"NG\r\n".to_vec()))));
    assert!(matches!(h.on_event(Event::Written), Action::Read));
    assert!(matches!(h.on_event(Event::Read(b"\r\n".to_vec())), Action::Read));
}

#[test]
fn every_split_point_gets_one_reply() {
    for k in 1..6 {
        let mut h = Handler::new();
        let (a, b) = b"PING\r\n".split_at(k);
        assert_eq!(h.receive(a), 0);
        assert_eq!(h.receive(b), 1);
    }
}

#[test]
fn close_without_bytes_succeeds_with_no_reply() {
    let mut h = Handler::new();
    assert!(matches!(h.on_event(Event::Read(Vec::new())), Action::Finish(Ok(()))));
}

#[test]
fn close_after_partial_request_succeeds() {
    let mut h = Handler::new();
    assert!(matches!(h.on_event(Event::Read(b"PIN".to_vec())), Action::Read));
    assert!(matches!(h.on_event(Event::Read(Vec::new())), Action::Finish(Ok(()))));
}

#[test]
fn two_requests_in_one_chunk_get_two_replies() {
    let mut h = Handler::new();
    assert!(is_reply(&h.on_event(Event::Read(b"PING\r\nPING\r\n".to_vec()))));
    assert!(is_reply(&h.on_event(Event::Written)));
    assert!(matches!(h.on_event(Event::Written), Action::Read));
    assert!(matches!(h.on_event(Event::Read(Vec::new())), Action::Finish(Ok(()))));
}

#[test]
fn three_requests_in_one_chunk_get_three_replies() {
    let mut h = Handler::new();
    assert!(is_reply(&h.on_event(Event::Read(b"PING\r\nxPING\r\nPING\r\nPI".to_vec()))));
    assert!(is_reply(&h.on_event(Event::Written)));
    assert!(is_reply(&h.on_event(Event::Written)));
    assert!(matches!(h.on_event(Event::Written), Action::Read));
}

#[test]
fn reply_clears_what_followed_the_request() {
    let mut h = Handler::new();
    assert_eq!(h.receive(b"PING\r\nPI"), 1);
    assert_eq!(h.receive(b"NG\r\n"), 0);
}

#[test]
fn request_split_over_many_reads_gets_one_reply() {
    let mut h = Handler::new();
    for part in [&b"P"[..], b"I", b"N", b"G", b"\r"] {
        assert!(matches!(h.on_event(Event::Read(part.to_vec())), Action::Read));
    }
    assert!(is_reply(&h.on_event(Event::Read(b"\n".to_vec()))));
    assert!(matches!(h.on_event(Event::Written), Action::Read));
}

#[test]
fn one_reply_per_chunk_that_holds_a_request() {
    let mut h = Handler::new();
    let mut replies = 0;
    for chunk in [&b"PING\r\n"[..], b"aPING\r\nb", b"junk", b"PING\r\n"] {
        replies += h.receive(chunk);
    }
    assert_eq!(replies, 3);
}

#[test]
fn long_text_without_request_keeps_recognising() {
    let mut h = Handler::new();
    for _ in 0..1000 {
        assert_eq!(h.receive(b"abcdefghijklmnopqrstuvwxyz0123456789"), 0);
    }
    assert_eq!(h.receive(b"xxPIN"), 0);
    assert_eq!(h.receive(b"G\r\n"), 1);
}

#[test]
fn invalid_utf8_is_replaced_and_request_still_found() {
    let mut h = Handler::new();
    assert_eq!(h.receive(&[0xff, 0xfe, b'P']), 0);
    assert_eq!(h.receive(b"ING\r\n"), 1);
}

#[test]
fn multibyte_text_is_decoded_before_inspection() {
    let mut h = Handler::new();
    assert_eq!(h.receive("héllo wörld".as_bytes()), 0);
    assert_eq!(h.receive("ünïcode PING\r\n".as_bytes()), 1);
    assert_eq!(h.receive("PING\u{e9}\r\n".as_bytes()), 0);
}

#[test]
fn receive_text_inspects_decoded_text() {
    let mut h = Handler::new();
    assert_eq!(h.receive_text(&chars("PIN")), 0);
    assert_eq!(h.receive_text(&chars("G\r\nPING\r\n")), 2);
}

#[test]
fn failed_read_ends_with_io_failure() {
    let mut h = Handler::new();
    let e = std::io::Error::new(std::io::ErrorKind::ConnectionReset, "reset");
    match h.on_event(Event::ReadFailed(e)) {
        Action::Finish(Err(Error::IO(e))) => {
            assert_eq!(e.kind(), std::io::ErrorKind::ConnectionReset)
        }
        _ => panic!("expected an I/O failure"),
    }
}

#[test]
fn failed_write_ends_with_io_failure() {
    let mut h = Handler::new();
    assert_eq!(h.receive(b"PING\r\n"), 1);
    let e = std::io::Error::new(std::io::ErrorKind::BrokenPipe, "pipe");
    match h.on_event(Event::WriteFailed(e)) {
        Action::Finish(Err(Error::IO(e))) => assert_eq!(e.kind(), std::io::ErrorKind::BrokenPipe),
        _ => panic!("expected an I/O failure"),
    }
}
