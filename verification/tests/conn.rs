use hiredis::conn::{Redis, ClientError};
use hiredis::reply::ReplyCode;

fn args(parts: &[&[u8]]) -> Vec<Vec<u8>> {
    parts.iter().map(|p| p.to_vec()).collect()
}

#[test]
fn send_buffers_and_counts_a_pending_reply() {
    let mut c = Redis::new();
    c.send(&args(&[b"SET", b"k", b"v"])).unwrap();
    assert_eq!(c.pending_replies(), 1);
    let out = c.take_output();
    assert_eq!(out, b"*3\r\n$3\r\nSET\r\n$1\r\nk\r\n$1\r\nv\r\n".to_vec());
    // The buffer was drained; nothing further to write.
    assert_eq!(c.take_output(), Vec::<u8>::new());
}

#[test]
fn pipelined_commands_accumulate_in_order() {
    let mut c = Redis::new();
    c.send(&args(&[b"PING"])).unwrap();
    c.append_command(&args(&[b"GET", b"k"])).unwrap();
    assert_eq!(c.pending_replies(), 2);
    let out = c.take_output();
    assert_eq!(
        out,
        b"*1\r\n$4\r\nPING\r\n*2\r\n$3\r\nGET\r\n$1\r\nk\r\n".to_vec()
    );
}

#[test]
fn zero_argument_send_is_an_encoding_error() {
    let mut c = Redis::new();
    let empty: Vec<Vec<u8>> = Vec::new();
    assert_eq!(c.send(&empty), Err(ClientError::Encoding));
    assert_eq!(c.pending_replies(), 0);
    assert_eq!(c.take_output(), Vec::<u8>::new());
}

#[test]
fn receive_with_nothing_owed_is_a_protocol_error() {
    let mut c = Redis::new();
    assert_eq!(c.try_get_reply().unwrap_err(), ClientError::Protocol);
}

#[test]
fn full_request_response_exchange() {
    let mut c = Redis::new();
    c.send(&args(&[b"PING"])).unwrap();
    let _wire = c.take_output();
    c.feed_input(&b"+PONG\r\n".to_vec()).unwrap();
    let rep = c.try_get_reply().unwrap().expect("reply was complete");
    assert_eq!(rep.typename(), ReplyCode::Status);
    assert_eq!(rep.as_bytes().unwrap(), &b"PONG".to_vec());
    assert_eq!(c.pending_replies(), 0);
}

#[test]
fn partial_input_asks_for_more_bytes() {
    let mut c = Redis::new();
    c.send(&args(&[b"GET", b"k"])).unwrap();
    c.take_output();
    c.feed_input(&b"$5\r\nhel".to_vec()).unwrap();
    assert!(c.try_get_reply().unwrap().is_none());
    c.feed_input(&b"lo\r\n".to_vec()).unwrap();
    let rep = c.try_get_reply().unwrap().unwrap();
    assert_eq!(rep.as_bytes().unwrap(), &b"hello".to_vec());
}

#[test]
fn broken_connection_refuses_every_operation() {
    let mut c = Redis::new();
    c.send(&args(&[b"PING"])).unwrap();
    c.mark_broken();
    assert!(c.broken());
    assert_eq!(c.send(&args(&[b"PING"])), Err(ClientError::Io));
    assert_eq!(c.feed_input(&b"+OK\r\n".to_vec()), Err(ClientError::Io));
    assert_eq!(c.try_get_reply().unwrap_err(), ClientError::Io);
}

#[test]
fn protocol_error_is_recoverable_by_reset() {
    let mut c = Redis::new();
    c.send(&args(&[b"PING"])).unwrap();
    c.take_output();
    c.feed_input(&b"?junk\r\n".to_vec()).unwrap();
    assert_eq!(c.try_get_reply().unwrap_err(), ClientError::Protocol);
    // The reader is failed: further input is refused until reset.
    assert_eq!(c.feed_input(&b"+OK\r\n".to_vec()), Err(ClientError::Protocol));
    c.reset_reader();
    assert_eq!(c.pending_replies(), 0);
    c.send(&args(&[b"PING"])).unwrap();
    c.take_output();
    c.feed_input(&b"+PONG\r\n".to_vec()).unwrap();
    let rep = c.try_get_reply().unwrap().unwrap();
    assert_eq!(rep.as_bytes().unwrap(), &b"PONG".to_vec());
}

#[test]
fn pipelined_replies_decrement_pending_one_by_one() {
    let mut c = Redis::new();
    c.send(&args(&[b"GET", b"a"])).unwrap();
    c.send(&args(&[b"GET", b"b"])).unwrap();
    c.take_output();
    c.feed_input(&b"$1\r\nx\r\n$-1\r\n".to_vec()).unwrap();
    let first = c.try_get_reply().unwrap().unwrap();
    assert_eq!(first.as_bytes().unwrap(), &b"x".to_vec());
    assert_eq!(c.pending_replies(), 1);
    let second = c.try_get_reply().unwrap().unwrap();
    assert_eq!(second.typename(), ReplyCode::Nil);
    assert_eq!(c.pending_replies(), 0);
    assert_eq!(c.try_get_reply().unwrap_err(), ClientError::Protocol);
}
