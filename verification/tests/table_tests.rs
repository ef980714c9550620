//! Tests for the correlation table: registration, removal, idempotent
//! cleanup, and isolation between distinct keys.

use skypack::codec::encode_response;
use skypack::packet::CorrelationKey;
use skypack::receiver::match_response;
use skypack::table::CorrelationTable;

fn key(req: u32, id: u64) -> CorrelationKey {
    CorrelationKey { req, id }
}

#[test]
fn insert_then_take_returns_waiter() {
    let mut t: CorrelationTable<&str> = CorrelationTable::new();
    t.insert(key(9, 1), "waiter");
    assert_eq!(t.len(), 1);
    assert!(t.contains(key(9, 1)));
    assert_eq!(t.take(key(9, 1)), Some("waiter"));
    assert_eq!(t.len(), 0);
}

#[test]
fn take_is_idempotent() {
    let mut t: CorrelationTable<u32> = CorrelationTable::new();
    t.insert(key(9, 1), 10);
    assert_eq!(t.take(key(9, 1)), Some(10));
    // the second removal of the same key is a no-op, not an error
    assert_eq!(t.take(key(9, 1)), None);
    assert_eq!(t.take(key(9, 1)), None);
    assert_eq!(t.len(), 0);
}

#[test]
fn take_absent_key_is_a_no_op() {
    let mut t: CorrelationTable<u32> = CorrelationTable::new();
    t.insert(key(9, 1), 10);
    assert_eq!(t.take(key(9, 2)), None);
    assert_eq!(t.take(key(10, 1)), None);
    assert_eq!(t.len(), 1);
    assert!(t.contains(key(9, 1)));
}

#[test]
fn insert_overwrites_and_orphans() {
    let mut t: CorrelationTable<u32> = CorrelationTable::new();
    t.insert(key(9, 1), 10);
    t.insert(key(9, 1), 20);
    assert_eq!(t.len(), 1);
    assert_eq!(t.take(key(9, 1)), Some(20));
    assert_eq!(t.take(key(9, 1)), None);
}

#[test]
fn keys_differ_by_kind_and_id() {
    let mut t: CorrelationTable<u32> = CorrelationTable::new();
    t.insert(key(9, 1), 1);
    t.insert(key(46, 1), 2);
    t.insert(key(9, 2), 3);
    assert_eq!(t.len(), 3);
    assert_eq!(t.take(key(46, 1)), Some(2));
    assert_eq!(t.take(key(9, 2)), Some(3));
    assert_eq!(t.take(key(9, 1)), Some(1));
}

#[test]
fn delivery_reaches_only_its_own_key() {
    // Two in-flight requests with distinct ids: the response for one id
    // resolves exactly that waiter and leaves the other registration as
    // it was.
    let mut t: CorrelationTable<&str> = CorrelationTable::new();
    t.insert(key(9, 1), "first");
    t.insert(key(9, 2), "second");
    let datagram = encode_response(9, 2, 0, &None);
    let (packet, waiter) = match_response(&mut t, &datagram).unwrap();
    assert_eq!(waiter, "second");
    assert_eq!(packet.id, 2);
    assert_eq!(t.len(), 1);
    assert!(t.contains(key(9, 1)));
    assert!(!t.contains(key(9, 2)));
}

#[test]
fn unmatched_response_is_dropped() {
    let mut t: CorrelationTable<&str> = CorrelationTable::new();
    t.insert(key(9, 1), "only");
    // right kind, wrong id
    let datagram = encode_response(9, 99, 0, &None);
    assert!(match_response(&mut t, &datagram).is_none());
    // wrong kind, right id
    let datagram = encode_response(46, 1, 0, &None);
    assert!(match_response(&mut t, &datagram).is_none());
    assert_eq!(t.len(), 1);
    assert!(t.contains(key(9, 1)));
}

#[test]
fn malformed_datagram_is_dropped() {
    let mut t: CorrelationTable<&str> = CorrelationTable::new();
    t.insert(key(9, 1), "only");
    assert!(match_response(&mut t, &vec![0xff, 0x00, 0x01]).is_none());
    assert!(match_response(&mut t, &vec![]).is_none());
    assert_eq!(t.len(), 1);
}
