use hiredis::reader::Reader;
use hiredis::reply::{Reply, ReplyCode};
use hiredis::codec::encode_reply;

fn feed_all(r: &mut Reader, bytes: &[u8]) {
    r.feed(&bytes.to_vec()).unwrap();
}

fn get_one(r: &mut Reader) -> Reply {
    r.get_reply().unwrap().expect("a complete reply was buffered")
}

#[test]
fn status_reply() {
    let mut r = Reader::new();
    feed_all(&mut r, b"+OK\r\n");
    let rep = get_one(&mut r);
    assert_eq!(rep.typename(), ReplyCode::Status);
    assert_eq!(rep.as_bytes().unwrap(), &b"OK".to_vec());
}

#[test]
fn error_reply_is_data_not_failure() {
    let mut r = Reader::new();
    feed_all(&mut r, b"-ERR bad\r\n");
    let rep = get_one(&mut r);
    assert_eq!(rep.typename(), ReplyCode::Error);
    assert_eq!(rep.as_bytes().unwrap(), &b"ERR bad".to_vec());
}

#[test]
fn integer_replies() {
    let mut r = Reader::new();
    feed_all(&mut r, b":1234\r\n:-42\r\n:0\r\n");
    assert_eq!(get_one(&mut r).as_integer(), Some(1234));
    assert_eq!(get_one(&mut r).as_integer(), Some(-42));
    assert_eq!(get_one(&mut r).as_integer(), Some(0));
}

#[test]
fn bulk_string_reply() {
    let mut r = Reader::new();
    feed_all(&mut r, b"$5\r\nhello\r\n");
    let rep = get_one(&mut r);
    assert_eq!(rep.typename(), ReplyCode::String);
    assert_eq!(rep.as_bytes().unwrap(), &b"hello".to_vec());
    assert_eq!(rep.string().unwrap(), &b"hello".to_vec());
}

#[test]
fn bulk_string_is_binary_safe() {
    let mut r = Reader::new();
    feed_all(&mut r, b"$4\r\nab\r\n\r\n");
    let rep = get_one(&mut r);
    assert_eq!(rep.as_bytes().unwrap(), &b"ab\r\n".to_vec());
}

#[test]
fn bulk_nil_parses_to_nil() {
    let mut r = Reader::new();
    feed_all(&mut r, b"$-1\r\n");
    let rep = get_one(&mut r);
    assert_eq!(rep.typename(), ReplyCode::Nil);
    assert!(rep.as_bytes().is_none());
}

#[test]
fn array_nil_parses_to_nil() {
    let mut r = Reader::new();
    feed_all(&mut r, b"*-1\r\n");
    let rep = get_one(&mut r);
    assert_eq!(rep.typename(), ReplyCode::Nil);
    assert!(rep.as_array().is_none());
}

#[test]
fn empty_array_is_not_nil() {
    let mut r = Reader::new();
    feed_all(&mut r, b"*0\r\n");
    let rep = get_one(&mut r);
    assert_eq!(rep.typename(), ReplyCode::Array);
    assert_eq!(rep.as_array().unwrap().len(), 0);
}

#[test]
fn array_of_two_integers() {
    let mut r = Reader::new();
    feed_all(&mut r, b"*2\r\n:1\r\n:2\r\n");
    let rep = get_one(&mut r);
    assert_eq!(rep.typename(), ReplyCode::Array);
    let elems = rep.as_array().unwrap();
    assert_eq!(elems.len(), 2);
    assert_eq!(elems[0].as_integer(), Some(1));
    assert_eq!(elems[1].as_integer(), Some(2));
}

#[test]
fn nested_array_reply() {
    let mut r = Reader::new();
    feed_all(&mut r, b"*2\r\n*1\r\n+OK\r\n$-1\r\n");
    let rep = get_one(&mut r);
    let elems = rep.as_array().unwrap();
    assert_eq!(elems.len(), 2);
    let inner = elems[0].as_array().unwrap();
    assert_eq!(inner[0].as_bytes().unwrap(), &b"OK".to_vec());
    assert_eq!(elems[1].typename(), ReplyCode::Nil);
}

#[test]
fn incremental_feed_matches_whole_feed() {
    // Feed one byte at a time; until the last byte arrives, get_reply
    // reports incomplete and consumes nothing.
    let input = b"*2\r\n$3\r\nfoo\r\n:10\r\n";
    let mut chunked = Reader::new();
    for (i, b) in input.iter().enumerate() {
        if i + 1 < input.len() {
            feed_all(&mut chunked, &[*b]);
            assert!(chunked.get_reply().unwrap().is_none());
        } else {
            feed_all(&mut chunked, &[*b]);
        }
    }
    let from_chunks = get_one(&mut chunked);

    let mut whole = Reader::new();
    feed_all(&mut whole, input);
    let from_whole = get_one(&mut whole);

    assert_eq!(from_chunks.typename(), ReplyCode::Array);
    let a = from_chunks.as_array().unwrap();
    let b = from_whole.as_array().unwrap();
    assert_eq!(a.len(), b.len());
    assert_eq!(a[0].as_bytes(), b[0].as_bytes());
    assert_eq!(a[1].as_integer(), b[1].as_integer());
}

#[test]
fn pipelined_replies_consumed_in_order() {
    let mut r = Reader::new();
    feed_all(&mut r, b"+A\r\n+B\r\n:3\r\n");
    assert_eq!(get_one(&mut r).as_bytes().unwrap(), &b"A".to_vec());
    assert_eq!(get_one(&mut r).as_bytes().unwrap(), &b"B".to_vec());
    assert_eq!(get_one(&mut r).as_integer(), Some(3));
    assert!(r.get_reply().unwrap().is_none());
}

#[test]
fn nesting_at_the_bound_parses() {
    // Eight array headers around an innermost empty array: depth 9.
    let mut input = Vec::new();
    for _ in 0..8 {
        input.extend_from_slice(b"*1\r\n");
    }
    input.extend_from_slice(b"*0\r\n");
    let mut r = Reader::new();
    r.feed(&input).unwrap();
    let rep = get_one(&mut r);
    let mut cur: &Reply = &rep;
    for depth in 0..9 {
        let elems = cur.as_array().unwrap();
        if depth < 8 {
            assert_eq!(elems.len(), 1);
            cur = &elems[0];
        } else {
            assert_eq!(elems.len(), 0);
        }
    }
}

#[test]
fn nesting_past_the_bound_is_a_protocol_error() {
    let mut input = Vec::new();
    for _ in 0..10 {
        input.extend_from_slice(b"*1\r\n");
    }
    let mut r = Reader::new();
    r.feed(&input).unwrap();
    assert!(r.get_reply().is_err());
}

#[test]
fn unknown_sigil_is_a_protocol_error() {
    let mut r = Reader::new();
    feed_all(&mut r, b"?5\r\n");
    assert!(r.get_reply().is_err());
}

#[test]
fn non_numeric_integer_is_a_protocol_error() {
    let mut r = Reader::new();
    feed_all(&mut r, b":12a\r\n");
    assert!(r.get_reply().is_err());
}

#[test]
fn bad_negative_length_is_a_protocol_error() {
    let mut r = Reader::new();
    feed_all(&mut r, b"$-2\r\n");
    assert!(r.get_reply().is_err());
}

#[test]
fn oversized_bulk_is_a_protocol_error() {
    let mut r = Reader::with_max_bulk(10);
    feed_all(&mut r, b"$11\r\n");
    assert!(r.get_reply().is_err());
}

#[test]
fn bulk_exactly_at_the_limit_parses() {
    let mut r = Reader::with_max_bulk(10);
    feed_all(&mut r, b"$10\r\n0123456789\r\n");
    let rep = get_one(&mut r);
    assert_eq!(rep.as_bytes().unwrap(), &b"0123456789".to_vec());
}

#[test]
fn integer_overflow_is_a_protocol_error() {
    let mut r = Reader::new();
    feed_all(&mut r, b":9223372036854775808\r\n");
    assert!(r.get_reply().is_err());
}

#[test]
fn extreme_integers_parse() {
    let mut r = Reader::new();
    feed_all(&mut r, b":9223372036854775807\r\n:-9223372036854775808\r\n");
    assert_eq!(get_one(&mut r).as_integer(), Some(i64::MAX));
    assert_eq!(get_one(&mut r).as_integer(), Some(i64::MIN));
}

#[test]
fn failed_reader_refuses_until_reset() {
    let mut r = Reader::new();
    feed_all(&mut r, b"?x\r\n");
    assert!(r.get_reply().is_err());
    assert!(r.feed(&b"+OK\r\n".to_vec()).is_err());
    assert!(r.get_reply().is_err());
    r.reset();
    feed_all(&mut r, b"+OK\r\n");
    assert_eq!(get_one(&mut r).as_bytes().unwrap(), &b"OK".to_vec());
}

#[test]
fn mismatched_accessors_return_none() {
    let mut r = Reader::new();
    feed_all(&mut r, b":7\r\n");
    let rep = get_one(&mut r);
    assert!(rep.as_bytes().is_none());
    assert!(rep.as_array().is_none());
    assert!(rep.string().is_none());
    assert_eq!(rep.as_integer(), Some(7));

    feed_all(&mut r, b"+OK\r\n");
    let rep = get_one(&mut r);
    assert!(rep.as_integer().is_none());
    assert!(rep.string().is_none());
    assert_eq!(rep.as_bytes().unwrap(), &b"OK".to_vec());
}

#[test]
fn encode_then_parse_round_trip() {
    let tree = Reply::Array(vec![
        Reply::Status(b"OK".to_vec()),
        Reply::Integer(-7),
        Reply::Nil,
        Reply::String(b"payload\r\nwith crlf".to_vec()),
        Reply::Array(vec![Reply::Error(b"ERR x".to_vec())]),
    ]);
    let mut bytes = Vec::new();
    encode_reply(&mut bytes, &tree);
    let mut r = Reader::new();
    r.feed(&bytes).unwrap();
    let rep = get_one(&mut r);
    let elems = rep.as_array().unwrap();
    assert_eq!(elems.len(), 5);
    assert_eq!(elems[0].as_bytes().unwrap(), &b"OK".to_vec());
    assert_eq!(elems[1].as_integer(), Some(-7));
    assert_eq!(elems[2].typename(), ReplyCode::Nil);
    assert_eq!(elems[3].as_bytes().unwrap(), &b"payload\r\nwith crlf".to_vec());
    let inner = elems[4].as_array().unwrap();
    assert_eq!(inner[0].typename(), ReplyCode::Error);
    assert_eq!(inner[0].as_bytes().unwrap(), &b"ERR x".to_vec());
    // Nothing but the tree's own bytes was consumed or left behind.
    assert!(r.get_reply().unwrap().is_none());
}
