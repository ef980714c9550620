//! Tests for the request engine's retry policy, driven through whole
//! exchanges against prerecorded attempt outcomes.

use skypack::codec::encode_response;
use skypack::engine::{
    engine_step, perform_exchange, resolve_attempts, AttemptOutcome, EngineDecision, IdGenerator,
    MAX_ATTEMPTS,
};
use skypack::packet::{CorrelationKey, DeviceError, ResponsePacket};
use skypack::receiver::match_response;
use skypack::table::CorrelationTable;

fn nav_payload() -> Vec<u8> {
    let mut map = serde_json::Map::new();
    map.insert("nav".to_string(), serde_json::Value::from(7u64));
    rmp_serde::to_vec_named(&serde_json::Value::Object(map)).unwrap()
}

fn response(req: u32, id: u64, res: i32, data: Option<Vec<u8>>) -> ResponsePacket {
    ResponsePacket { req, id, res, data }
}

fn key(req: u32, id: u64) -> CorrelationKey {
    CorrelationKey { req, id }
}

#[test]
fn immediate_response_single_attempt() {
    // kind 9, id X, immediate response with status 0 and a nav payload:
    // the exchange succeeds at once and the entry is gone afterwards.
    let x: u64 = 17;
    let mut table: CorrelationTable<u32> = CorrelationTable::new();
    let expected = response(9, x, 0, Some(nav_payload()));
    // the first decision already finishes the operation: one attempt
    assert_eq!(
        engine_step(1, AttemptOutcome::Response(expected.clone())),
        EngineDecision::Finish(Ok(expected.clone()))
    );
    let outcomes = vec![
        AttemptOutcome::Response(expected.clone()),
        AttemptOutcome::DeadlineElapsed,
        AttemptOutcome::DeadlineElapsed,
    ];
    let got = perform_exchange(&mut table, key(9, x), 1, outcomes).unwrap();
    assert_eq!(got, expected);
    assert!(!table.contains(key(9, x)));
    assert_eq!(table.len(), 0);
}

#[test]
fn response_on_third_attempt() {
    // kind 46, id Y: the first two attempts expire, the third attempt's
    // response arrives within its deadline.
    let y: u64 = 1000;
    let mut table: CorrelationTable<u32> = CorrelationTable::new();
    let expected = response(46, y, 0, None);
    let outcomes = vec![
        AttemptOutcome::DeadlineElapsed,
        AttemptOutcome::DeadlineElapsed,
        AttemptOutcome::Response(expected.clone()),
    ];
    let got = perform_exchange(&mut table, key(46, y), 1, outcomes).unwrap();
    assert_eq!(got, expected);
    assert!(!table.contains(key(46, y)));
}

#[test]
fn no_response_times_out_after_three_attempts() {
    // kind 9, id Z, no response ever: Timeout, and the (9, Z) entry is
    // absent afterwards.
    let z: u64 = 4242;
    let mut table: CorrelationTable<u32> = CorrelationTable::new();
    let outcomes = vec![
        AttemptOutcome::DeadlineElapsed,
        AttemptOutcome::DeadlineElapsed,
        AttemptOutcome::DeadlineElapsed,
    ];
    let got = perform_exchange(&mut table, key(9, z), 1, outcomes);
    assert_eq!(got, Err(DeviceError::Timeout));
    assert!(!table.contains(key(9, z)));
    assert_eq!(table.len(), 0);
    // the third expired deadline is what ends it: attempts 1 and 2 retry
    assert_eq!(
        engine_step(1, AttemptOutcome::DeadlineElapsed),
        EngineDecision::Retry
    );
    assert_eq!(
        engine_step(2, AttemptOutcome::DeadlineElapsed),
        EngineDecision::Retry
    );
    assert_eq!(
        engine_step(MAX_ATTEMPTS, AttemptOutcome::DeadlineElapsed),
        EngineDecision::Finish(Err(DeviceError::Timeout))
    );
}

#[test]
fn late_response_after_timeout_is_dropped() {
    // the id timed out and was cleaned up; its response arrives afterwards
    // and the receiver drops it silently, leaving the table untouched.
    let z: u64 = 4242;
    let mut table: CorrelationTable<u32> = CorrelationTable::new();
    let outcomes = vec![
        AttemptOutcome::DeadlineElapsed,
        AttemptOutcome::DeadlineElapsed,
        AttemptOutcome::DeadlineElapsed,
    ];
    let _ = perform_exchange(&mut table, key(9, z), 1, outcomes);
    let late = encode_response(9, z, 0, &None);
    assert!(match_response(&mut table, &late).is_none());
    assert_eq!(table.len(), 0);
}

#[test]
fn send_failure_aborts_without_retry() {
    let outcomes = vec![
        AttemptOutcome::SendFailed,
        AttemptOutcome::Response(response(9, 1, 0, None)),
        AttemptOutcome::Response(response(9, 1, 0, None)),
    ];
    assert_eq!(resolve_attempts(outcomes), Err(DeviceError::Io));
}

#[test]
fn broken_channel_is_an_internal_error() {
    let outcomes = vec![
        AttemptOutcome::DeadlineElapsed,
        AttemptOutcome::ChannelClosed,
        AttemptOutcome::DeadlineElapsed,
    ];
    assert_eq!(resolve_attempts(outcomes), Err(DeviceError::InternalError));
}

#[test]
fn nonzero_status_is_still_a_response() {
    // a remote-reported failure (res != 0) is a successful exchange at the
    // transport level; interpreting the status is the caller's concern.
    let expected = response(9, 3, -5, None);
    let outcomes = vec![
        AttemptOutcome::Response(expected.clone()),
        AttemptOutcome::DeadlineElapsed,
        AttemptOutcome::DeadlineElapsed,
    ];
    assert_eq!(resolve_attempts(outcomes), Ok(expected));
}

#[test]
fn exchange_cleanup_preserves_other_entries() {
    let mut table: CorrelationTable<u32> = CorrelationTable::new();
    table.insert(key(9, 5), 50);
    let outcomes = vec![
        AttemptOutcome::DeadlineElapsed,
        AttemptOutcome::DeadlineElapsed,
        AttemptOutcome::DeadlineElapsed,
    ];
    let _ = perform_exchange(&mut table, key(9, 6), 60, outcomes);
    assert!(table.contains(key(9, 5)));
    assert!(!table.contains(key(9, 6)));
    assert_eq!(table.len(), 1);
}

#[test]
fn id_generator_counts_up_and_wraps() {
    let mut g = IdGenerator::new(41262);
    assert_eq!(g.fresh(), 41262);
    assert_eq!(g.fresh(), 41263);
    assert_eq!(g.fresh(), 41264);
    let mut g = IdGenerator::new(u64::MAX);
    assert_eq!(g.fresh(), u64::MAX);
    assert_eq!(g.fresh(), 0);
}
