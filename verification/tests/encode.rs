use hiredis::codec::{encode_command, encode_reply};
use hiredis::reply::Reply;

fn args(parts: &[&[u8]]) -> Vec<Vec<u8>> {
    parts.iter().map(|p| p.to_vec()).collect()
}

#[test]
fn set_command_exact_bytes() {
    let cmd = args(&[b"SET", b"k", b"v"]);
    let out = encode_command(&cmd).unwrap();
    assert_eq!(out, b"*3\r\n$3\r\nSET\r\n$1\r\nk\r\n$1\r\nv\r\n".to_vec());
}

#[test]
fn single_argument_command() {
    let cmd = args(&[b"PING"]);
    let out = encode_command(&cmd).unwrap();
    assert_eq!(out, b"*1\r\n$4\r\nPING\r\n".to_vec());
}

#[test]
fn zero_arguments_is_encoding_error() {
    let cmd: Vec<Vec<u8>> = Vec::new();
    assert!(encode_command(&cmd).is_err());
}

#[test]
fn arguments_are_opaque_bytes() {
    // An argument carrying spaces, quotes and even a CRLF is framed by
    // length, never escaped or interpolated.
    let cmd = args(&[b"SET", b"a key", b"v\r\nGET x"]);
    let out = encode_command(&cmd).unwrap();
    assert_eq!(
        out,
        b"*3\r\n$3\r\nSET\r\n$5\r\na key\r\n$8\r\nv\r\nGET x\r\n".to_vec()
    );
}

#[test]
fn empty_argument_is_allowed() {
    let cmd = args(&[b"ECHO", b""]);
    let out = encode_command(&cmd).unwrap();
    assert_eq!(out, b"*2\r\n$4\r\nECHO\r\n$0\r\n\r\n".to_vec());
}

#[test]
fn reply_encodings_are_exact() {
    let mut out = Vec::new();
    encode_reply(&mut out, &Reply::Status(b"OK".to_vec()));
    assert_eq!(out, b"+OK\r\n".to_vec());

    let mut out = Vec::new();
    encode_reply(&mut out, &Reply::Error(b"ERR bad".to_vec()));
    assert_eq!(out, b"-ERR bad\r\n".to_vec());

    let mut out = Vec::new();
    encode_reply(&mut out, &Reply::Integer(1234));
    assert_eq!(out, b":1234\r\n".to_vec());

    let mut out = Vec::new();
    encode_reply(&mut out, &Reply::Integer(-42));
    assert_eq!(out, b":-42\r\n".to_vec());

    let mut out = Vec::new();
    encode_reply(&mut out, &Reply::Integer(0));
    assert_eq!(out, b":0\r\n".to_vec());

    let mut out = Vec::new();
    encode_reply(&mut out, &Reply::Nil);
    assert_eq!(out, b"$-1\r\n".to_vec());

    let mut out = Vec::new();
    encode_reply(&mut out, &Reply::String(b"hello".to_vec()));
    assert_eq!(out, b"$5\r\nhello\r\n".to_vec());
}

#[test]
fn nested_array_encoding() {
    let tree = Reply::Array(vec![
        Reply::Integer(1),
        Reply::Array(vec![Reply::Status(b"OK".to_vec())]),
        Reply::Nil,
    ]);
    let mut out = Vec::new();
    encode_reply(&mut out, &tree);
    assert_eq!(out, b"*3\r\n:1\r\n*1\r\n+OK\r\n$-1\r\n".to_vec());
}

#[test]
fn extreme_integers_encode() {
    let mut out = Vec::new();
    encode_reply(&mut out, &Reply::Integer(i64::MAX));
    assert_eq!(out, b":9223372036854775807\r\n".to_vec());

    let mut out = Vec::new();
    encode_reply(&mut out, &Reply::Integer(i64::MIN));
    assert_eq!(out, b":-9223372036854775808\r\n".to_vec());
}
