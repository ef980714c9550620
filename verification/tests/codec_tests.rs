//! Tests for the wire codec: exact encodings, round trips, error cases,
//! and cross-checks against an independent MessagePack implementation.

use skypack::codec::{decode_response, encode_request, encode_response};
use skypack::msgpack::value_end;
use skypack::packet::DecodeError;

fn json_u64(v: u64) -> serde_json::Value {
    serde_json::Value::from(v)
}

/// A small structured payload, as MessagePack bytes.
fn sample_payload() -> Vec<u8> {
    let mut map = serde_json::Map::new();
    map.insert("nav".to_string(), json_u64(7));
    rmp_serde::to_vec_named(&serde_json::Value::Object(map)).unwrap()
}

#[test]
fn encode_telemetry_request_exact_bytes() {
    let out = encode_request(9, 1, &None);
    assert_eq!(
        out,
        vec![0x82, 0xa3, b'r', b'e', b'q', 0x09, 0xa2, b'i', b'd', 0x01]
    );
}

#[test]
fn encode_request_compact_integer_widths() {
    // id above 32 bits takes the uint64 form, kind 46 stays a fixint.
    let out = encode_request(46, 0x1_0000_0000, &None);
    assert_eq!(
        out,
        vec![
            0x82, 0xa3, b'r', b'e', b'q', 46, 0xa2, b'i', b'd', 0xcf, 0, 0, 0, 1, 0, 0, 0, 0
        ]
    );
    // id of 300 takes the uint16 form.
    let out = encode_request(9, 300, &None);
    assert_eq!(
        out,
        vec![0x82, 0xa3, b'r', b'e', b'q', 0x09, 0xa2, b'i', b'd', 0xcd, 0x01, 0x2c]
    );
}

#[test]
fn encoded_request_parses_with_rmp_serde() {
    let payload = sample_payload();
    let out = encode_request(46, 123456, &Some(payload));
    let v: serde_json::Value = rmp_serde::from_slice(&out).unwrap();
    assert_eq!(v["req"], json_u64(46));
    assert_eq!(v["id"], json_u64(123456));
    assert_eq!(v["data"]["nav"], json_u64(7));
}

#[test]
fn response_round_trip_with_payload() {
    let payload = sample_payload();
    let out = encode_response(9, 77, 0, &Some(payload.clone()));
    let rec = decode_response(&out).unwrap();
    assert_eq!(rec.req, 9);
    assert_eq!(rec.id, 77);
    assert_eq!(rec.res, 0);
    assert_eq!(rec.data, Some(payload));
}

#[test]
fn response_round_trip_without_payload() {
    let out = encode_response(46, u64::MAX, 0, &None);
    let rec = decode_response(&out).unwrap();
    assert_eq!(rec.req, 46);
    assert_eq!(rec.id, u64::MAX);
    assert_eq!(rec.res, 0);
    assert_eq!(rec.data, None);
}

#[test]
fn response_round_trip_negative_statuses() {
    for res in [-1, -32, -33, -128, -129, -32768, -32769, i32::MIN, 1, 127, 128, 65535, i32::MAX] {
        let out = encode_response(9, 5, res, &None);
        let rec = decode_response(&out).unwrap();
        assert_eq!(rec.res, res, "status {res} must survive the round trip");
    }
}

#[test]
fn decode_accepts_rmp_serde_produced_map() {
    // serde_json object maps iterate alphabetically, so this exercises a
    // key order different from the encoder's.
    let mut map = serde_json::Map::new();
    map.insert("req".to_string(), json_u64(9));
    map.insert("id".to_string(), json_u64(42));
    map.insert("res".to_string(), serde_json::Value::from(-3i64));
    map.insert("data".to_string(), json_u64(1));
    let bytes = rmp_serde::to_vec_named(&serde_json::Value::Object(map)).unwrap();
    let rec = decode_response(&bytes).unwrap();
    assert_eq!(rec.req, 9);
    assert_eq!(rec.id, 42);
    assert_eq!(rec.res, -3);
    assert_eq!(rec.data, Some(vec![0x01]));
}

#[test]
fn decode_ignores_unknown_keys() {
    let mut map = serde_json::Map::new();
    map.insert("req".to_string(), json_u64(9));
    map.insert("id".to_string(), json_u64(1));
    map.insert("res".to_string(), json_u64(0));
    map.insert("extra".to_string(), json_u64(99));
    let bytes = rmp_serde::to_vec_named(&serde_json::Value::Object(map)).unwrap();
    let rec = decode_response(&bytes).unwrap();
    assert_eq!((rec.req, rec.id, rec.res, rec.data), (9, 1, 0, None));
}

#[test]
fn decode_empty_is_truncated() {
    assert_eq!(decode_response(&vec![]), Err(DecodeError::Truncated));
}

#[test]
fn decode_truncated_entry() {
    // fixmap of one entry, but nothing follows.
    assert_eq!(decode_response(&vec![0x81]), Err(DecodeError::Truncated));
    // a well-formed envelope cut short.
    let mut out = encode_response(9, 300, 0, &None);
    out.truncate(out.len() - 1);
    assert_eq!(decode_response(&out), Err(DecodeError::Truncated));
}

#[test]
fn decode_wrong_top_level_type() {
    // a fixarray is not a response envelope.
    assert_eq!(decode_response(&vec![0x90]), Err(DecodeError::UnexpectedType));
    // an integer key is not allowed either.
    assert_eq!(
        decode_response(&vec![0x81, 0x01, 0x01]),
        Err(DecodeError::UnexpectedType)
    );
}

#[test]
fn decode_trailing_bytes_rejected() {
    let mut out = encode_response(9, 1, 0, &None);
    out.push(0x00);
    assert_eq!(decode_response(&out), Err(DecodeError::TrailingBytes));
}

#[test]
fn decode_missing_field() {
    // {req: 9, id: 1} with no res.
    let bytes = vec![0x82, 0xa3, b'r', b'e', b'q', 0x09, 0xa2, b'i', b'd', 0x01];
    assert_eq!(decode_response(&bytes), Err(DecodeError::MissingField));
}

#[test]
fn decode_duplicate_field() {
    // {req: 9, req: 9}
    let bytes = vec![
        0x82, 0xa3, b'r', b'e', b'q', 0x09, 0xa3, b'r', b'e', b'q', 0x09,
    ];
    assert_eq!(decode_response(&bytes), Err(DecodeError::DuplicateField));
}

#[test]
fn decode_out_of_range_fields() {
    // req larger than 32 bits.
    let mut bytes = vec![0x81, 0xa3, b'r', b'e', b'q', 0xcf];
    bytes.extend_from_slice(&[0, 0, 0, 1, 0, 0, 0, 0]);
    assert_eq!(decode_response(&bytes), Err(DecodeError::OutOfRange));
    // res larger than 31 bits.
    let mut bytes = vec![0x81, 0xa3, b'r', b'e', b's', 0xce];
    bytes.extend_from_slice(&[0x80, 0, 0, 0]);
    assert_eq!(decode_response(&bytes), Err(DecodeError::OutOfRange));
}

#[test]
fn decode_reserved_marker_in_payload() {
    // 0xc1 never appears in well-formed MessagePack.
    let bytes = vec![
        0x81, 0xa4, b'd', b'a', b't', b'a', 0xc1,
    ];
    assert_eq!(decode_response(&bytes), Err(DecodeError::Truncated));
}

#[test]
fn decode_nested_payload_framed_exactly() {
    // data is a nested array [[1, 2], "x"] followed by the res field:
    // the skipper must consume exactly the one value.
    let inner = serde_json::Value::Array(vec![
        serde_json::Value::Array(vec![json_u64(1), json_u64(2)]),
        serde_json::Value::from("x"),
    ]);
    let payload = rmp_serde::to_vec_named(&inner).unwrap();
    let out = encode_response(9, 8, 0, &Some(payload.clone()));
    let rec = decode_response(&out).unwrap();
    assert_eq!(rec.data, Some(payload));
}

#[test]
fn float_payload_framed_exactly() {
    // floating-point payloads are carried and framed, never interpreted
    let mut map = serde_json::Map::new();
    map.insert("ts".to_string(), serde_json::Value::from(123.5f64));
    let payload = rmp_serde::to_vec_named(&serde_json::Value::Object(map)).unwrap();
    let out = encode_response(46, 3, 0, &Some(payload.clone()));
    let rec = decode_response(&out).unwrap();
    assert_eq!(rec.data, Some(payload.clone()));
    let v: serde_json::Value = rmp_serde::from_slice(&rec.data.unwrap()).unwrap();
    assert_eq!(v["ts"].as_f64(), Some(123.5));
}

#[test]
fn binary_and_ext_payloads_framed_exactly() {
    // bin8 with two bytes of content
    let payload = vec![0xc4, 0x02, 0xaa, 0xbb];
    let out = encode_response(9, 4, 0, &Some(payload.clone()));
    assert_eq!(decode_response(&out).unwrap().data, Some(payload));
    // fixext2: marker, type byte, two data bytes
    let payload = vec![0xd5, 0x01, 0x00, 0x01];
    let out = encode_response(9, 5, 0, &Some(payload.clone()));
    assert_eq!(decode_response(&out).unwrap().data, Some(payload));
    // a truncated bin8 in the payload position must be rejected
    let bad = vec![0x81, 0xa4, b'd', b'a', b't', b'a', 0xc4, 0x05, 0xaa];
    assert_eq!(decode_response(&bad), Err(DecodeError::Truncated));
}

#[test]
fn encoded_messages_are_single_values() {
    // what goes on the wire is exactly one MessagePack value
    let payload = sample_payload();
    for buf in [
        encode_request(9, 1, &None),
        encode_request(46, u64::MAX, &Some(payload.clone())),
        encode_response(9, 300, -7, &Some(payload)),
    ] {
        assert_eq!(value_end(&buf, 0), Some(buf.len()));
    }
}
