use mini_redis::conn::{Conn, Interest, Io, State};
use mini_redis::server::Frame;

#[test]
fn new_connection_reads_requests() {
    let c = Conn::new(7);
    assert_eq!(c.fd, 7);
    assert_eq!(c.state, State::Req);
    assert!(c.rbuf.is_empty() && c.wbuf.is_empty());
    assert_eq!(c.wbuf_sent, 0);
}

#[test]
fn reads_append_and_errors_end_the_connection() {
    let mut c = Conn::new(3);
    assert!(c.after_read(Io::Bytes(3), &[1, 2, 3, 4]));
    assert_eq!(c.rbuf, vec![1, 2, 3]);
    assert!(c.after_read(Io::Interrupted, &[9]));
    assert!(!c.after_read(Io::WouldBlock, &[9]));
    assert_eq!(c.rbuf, vec![1, 2, 3]);
    assert_eq!(c.state, State::Req);
    assert!(!c.after_read(Io::Closed, &[]));
    assert_eq!(c.state, State::End);
    let mut c = Conn::new(3);
    assert!(!c.after_read(Io::Failed, &[]));
    assert_eq!(c.state, State::End);
}

#[test]
fn replies_are_queued_sent_and_finished() {
    let mut c = Conn::new(3);
    c.after_read(Io::Bytes(6), &[1, 2, 3, 4, 5, 6]);
    c.queue_reply(vec![10, 11, 12], 4);
    assert_eq!(c.state, State::Res);
    assert_eq!(c.rbuf, vec![5, 6]);
    assert_eq!(c.unsent(), &[10, 11, 12]);
    assert!(c.after_write(Io::Bytes(2)));
    assert_eq!(c.unsent(), &[12]);
    assert!(!c.after_write(Io::WouldBlock));
    assert_eq!(c.state, State::Res);
    assert!(c.after_write(Io::Bytes(1)));
    assert!(c.unsent().is_empty());
    c.finish_reply();
    assert_eq!(c.state, State::Req);
    assert!(c.wbuf.is_empty());
    assert_eq!(c.wbuf_sent, 0);
    assert_eq!(c.rbuf, vec![5, 6]);
    c.queue_reply(vec![1], 0);
    assert!(!c.after_write(Io::Failed));
    assert_eq!(c.state, State::End);
}

#[test]
fn frames_move_the_connection_on() {
    let mut c = Conn::new(3);
    c.after_read(Io::Bytes(2), &[1, 2]);
    assert!(c.on_frame(Frame::Incomplete).is_none());
    assert_eq!(c.state, State::Req);
    assert_eq!(c.rbuf, vec![1, 2]);
    let req = c.on_frame(Frame::Request(vec!["get".to_string(), "k".to_string()], 2));
    assert_eq!(req, Some((vec!["get".to_string(), "k".to_string()], 2)));
    assert_eq!(c.state, State::Req);
    assert!(c.on_frame(Frame::TooLong).is_none());
    assert_eq!(c.state, State::End);
    assert_eq!(c.rbuf, vec![1, 2]);
    let mut c = Conn::new(4);
    assert!(c.on_frame(Frame::Invalid).is_none());
    assert_eq!(c.state, State::End);
}

#[test]
fn interest_follows_the_state() {
    let mut c = Conn::new(5);
    assert_eq!(c.interest(), Interest::Read);
    assert!(!c.is_done());
    c.queue_reply(vec![1], 0);
    assert_eq!(c.interest(), Interest::Write);
    assert!(!c.is_done());
    c.finish_reply();
    assert_eq!(c.interest(), Interest::Read);
    c.after_read(Io::Closed, &[]);
    assert_eq!(c.interest(), Interest::Read);
    assert!(c.is_done());
}
