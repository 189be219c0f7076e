use std::time::Duration;

use srt::{Direction, SrtError, Timestamp};

#[test]
fn test_timestamp_from_string() {
    let timestamp = Timestamp::from_string("00:00:01,000").unwrap();
    assert_eq!(timestamp.hours, 0);
    assert_eq!(timestamp.minutes, 0);
    assert_eq!(timestamp.seconds, 1);
    assert_eq!(timestamp.milliseconds, 0);
}

#[test]
fn test_timestamp_from_string_invalid() {
    assert!(Timestamp::from_string("00:00:01").is_err());
    assert!(Timestamp::from_string("00:00:01,000,000").is_err());
    assert!(Timestamp::from_string("00:00:01,abc").is_err());
}

#[test]
fn test_timestamp_display() {
    let timestamp = Timestamp::from_string("00:00:01,000").unwrap();
    assert_eq!(timestamp.to_string(), "00:00:01,000");
}

#[test]
fn test_timestamp_partial_eq() {
    let timestamp1 = Timestamp::from_string("00:00:01,000").unwrap();
    let timestamp2 = Timestamp::from_string("00:00:01,000").unwrap();
    assert_eq!(timestamp1, timestamp2);
}

#[test]
fn test_timestamp_partial_ord() {
    let timestamp1 = Timestamp::from_string("00:00:01,000").unwrap();
    let timestamp2 = Timestamp::from_string("00:00:02,000").unwrap();
    assert!(timestamp1 < timestamp2);
}

#[test]
fn test_timestamp_ord() {
    let timestamp1 = Timestamp::from_string("00:00:01,000").unwrap();
    let timestamp2 = Timestamp::from_string("00:00:02,000").unwrap();
    assert!(timestamp1 < timestamp2);
}

#[test]
fn test_timestamp_eq() {
    let timestamp1 = Timestamp::from_string("00:00:01,000").unwrap();
    let timestamp2 = Timestamp::from_string("00:00:01,000").unwrap();
    assert_eq!(timestamp1, timestamp2);
}

#[test]
fn test_timestamp_ne() {
    let timestamp1 = Timestamp::from_string("00:00:01,000").unwrap();
    let timestamp2 = Timestamp::from_string("00:00:02,000").unwrap();
    assert_ne!(timestamp1, timestamp2);
}

#[test]
fn test_timestamp_lt() {
    let timestamp1 = Timestamp::from_string("00:00:01,000").unwrap();
    let timestamp2 = Timestamp::from_string("00:00:02,000").unwrap();
    assert!(timestamp1 < timestamp2);
}

#[test]
fn test_timestamp_le() {
    let timestamp1 = Timestamp::from_string("00:00:01,000").unwrap();
    let timestamp2 = Timestamp::from_string("00:00:02,000").unwrap();
    assert!(timestamp1 <= timestamp2);
}

#[test]
fn test_timestamp_gt() {
    let timestamp1 = Timestamp::from_string("00:00:02,000").unwrap();
    let timestamp2 = Timestamp::from_string("00:00:01,000").unwrap();
    assert!(timestamp1 > timestamp2);
}

#[test]
fn test_timestamp_ge() {
    let timestamp1 = Timestamp::from_string("00:00:02,000").unwrap();
    let timestamp2 = Timestamp::from_string("00:00:01,000").unwrap();
    assert!(timestamp1 >= timestamp2);
}

#[test]
fn test_timestamp_cmp() {
    let timestamp1 = Timestamp::from_string("00:00:01,000").unwrap();
    let timestamp2 = Timestamp::from_string("00:00:02,000").unwrap();
    assert_eq!(timestamp1.cmp(&timestamp2), std::cmp::Ordering::Less);
}

#[test]
fn test_timestamp_partial_cmp() {
    let timestamp1 = Timestamp::from_string("00:00:01,000").unwrap();
    let timestamp2 = Timestamp::from_string("00:00:02,000").unwrap();
    assert_eq!(
        timestamp1.partial_cmp(&timestamp2),
        Some(std::cmp::Ordering::Less)
    );
}

#[test]
fn test_timestamp_to_millis() {
    let timestamp = Timestamp::from_string("00:00:01,000").unwrap();
    assert_eq!(timestamp.to_millis(), 1000);
}

#[test]
fn test_timestamp_from_millis() {
    let timestamp = Timestamp::from_millis(1000);
    assert_eq!(timestamp.hours, 0);
    assert_eq!(timestamp.minutes, 0);
    assert_eq!(timestamp.seconds, 1);
    assert_eq!(timestamp.milliseconds, 0);
}

#[test]
fn test_timestamp_move_ts_forward() {
    let mut timestamp = Timestamp::from_string("00:00:01,000").unwrap();
    timestamp
        .move_ts(Duration::new(2, 0), Direction::Forward)
        .unwrap();
    assert_eq!(timestamp.to_string(), "00:00:03,000");
}

#[test]
fn test_timestamp_move_ts_backward() {
    let mut timestamp = Timestamp::from_string("00:00:02,000").unwrap();
    timestamp
        .move_ts(Duration::new(2, 0), Direction::Backward)
        .unwrap();
    assert_eq!(timestamp.to_string(), "00:00:00,000");
}

#[test]
fn test_timestamp_move_ts_backward_clamped() {
    let mut timestamp = Timestamp::from_string("00:00:01,000").unwrap();
    timestamp
        .move_ts(Duration::new(2, 0), Direction::Backward)
        .unwrap();
    assert_eq!(timestamp.to_string(), "00:00:00,000");
}

#[test]
fn text_round_trip_on_canonical_strings() {
    for s in ["18446744073709551615:00:00,000", "00:00:01,000", "01:02:03,004", "12:59:59,999", "100:00:00,000", "4294967295:4294967295:4294967295,4294967295"] {
        assert_eq!(Timestamp::from_string(s).unwrap().to_string(), s);
    }
}

#[test]
fn padding_and_permissive_components() {
    let t = Timestamp::from_string("1:75:7,5").unwrap();
    assert_eq!(t.minutes, 75);
    assert_eq!(t.to_string(), "01:75:07,005");
    let plus = Timestamp::from_string("+1:00:00,000").unwrap();
    assert_eq!(plus.hours, 1);
}

#[test]
fn malformed_timestamps_are_format_errors() {
    assert_eq!(Timestamp::from_string(""), Err(SrtError::Format));
    assert_eq!(Timestamp::from_string("00:00:00:00,000"), Err(SrtError::Format));
    assert_eq!(Timestamp::from_string("00:-1:00,000"), Err(SrtError::Format));
    assert_eq!(Timestamp::from_string("00::00,000"), Err(SrtError::Format));
    assert_eq!(Timestamp::from_string("00:00:00,4294967296"), Err(SrtError::Format));
    assert_eq!(Timestamp::from_string(" 00:00:00,000"), Err(SrtError::Format));
    assert_eq!(Timestamp::from_string("18446744073709551616:00:00,000"), Err(SrtError::Format));
    assert_eq!(Timestamp::from_string("00:4294967296:00,000"), Err(SrtError::Format));
}

#[test]
fn to_millis_weights_each_component() {
    let t = Timestamp { hours: 1, minutes: 2, seconds: 3, milliseconds: 4 };
    assert_eq!(t.to_millis(), 3_723_004);
    let big = Timestamp { hours: u64::MAX, minutes: 59, seconds: 59, milliseconds: 999 };
    assert_eq!(big.to_millis(), 66_408_278_665_354_385_817_599_999);
    let widest = Timestamp { hours: u64::MAX, minutes: u32::MAX, seconds: u32::MAX, milliseconds: u32::MAX };
    assert_eq!(widest.to_millis(), 66_408_278_665_616_383_113_962_295);
}

#[test]
fn millis_round_trip_values() {
    for m in [0u64, 1, 999, 1000, 59_999, 60_000, 3_599_999, 3_600_000, 86_399_999, 15_461_882_265_599_999, u64::MAX] {
        assert_eq!(Timestamp::from_millis(m).to_millis(), m as u128);
    }
    let t = Timestamp::from_millis(3_723_004);
    assert_eq!(t, Timestamp { hours: 1, minutes: 2, seconds: 3, milliseconds: 4 });
}

#[test]
fn ordering_agrees_with_millis() {
    let a = Timestamp::from_string("00:59:59,999").unwrap();
    let b = Timestamp::from_string("01:00:00,000").unwrap();
    assert!(a < b);
    assert!(a.to_millis() < b.to_millis());
    let c = Timestamp::from_string("00:01:00,001").unwrap();
    let d = Timestamp::from_string("00:01:00,000").unwrap();
    assert!(c > d);
    assert!(c.to_millis() > d.to_millis());
}

#[test]
fn backward_shift_past_zero_clamps() {
    let mut t = Timestamp::from_string("01:00:00,000").unwrap();
    assert_eq!(t.move_ts(Duration::from_secs(7200), Direction::Backward), Ok(()));
    assert_eq!(t, Timestamp::from_millis(0));
    assert_eq!(t.to_string(), "00:00:00,000");
}

#[test]
fn shift_uses_whole_milliseconds() {
    let mut t = Timestamp::from_string("00:00:01,000").unwrap();
    t.move_ts(Duration::new(0, 1_500_000), Direction::Forward).unwrap();
    assert_eq!(t.to_string(), "00:00:01,001");
    t.move_ts(Duration::from_millis(61_001), Direction::Forward).unwrap();
    assert_eq!(t.to_string(), "00:01:02,002");
}

#[test]
fn shift_normalises_components() {
    let mut t = Timestamp::from_string("00:75:00,000").unwrap();
    t.move_ts(Duration::from_millis(0), Direction::Forward).unwrap();
    assert_eq!(t.to_string(), "01:15:00,000");
}

#[test]
fn oversized_shift_is_an_overflow() {
    let mut t = Timestamp::from_string("00:00:01,000").unwrap();
    assert_eq!(t.move_ts(Duration::from_secs(u64::MAX), Direction::Backward), Err(SrtError::Overflow));
    assert_eq!(t.to_string(), "00:00:01,000");
    let mut top = Timestamp { hours: u64::MAX, minutes: 59, seconds: 59, milliseconds: 999 };
    assert_eq!(top.move_ts(Duration::from_millis(1), Direction::Forward), Err(SrtError::Overflow));
    assert_eq!(top.to_millis(), 66_408_278_665_354_385_817_599_999);
}

#[test]
fn shift_past_u32_hours_succeeds() {
    let mut t = Timestamp { hours: u32::MAX as u64, minutes: 59, seconds: 59, milliseconds: 999 };
    assert_eq!(t.move_ts(Duration::from_millis(1), Direction::Forward), Ok(()));
    assert_eq!(t, Timestamp { hours: u32::MAX as u64 + 1, minutes: 0, seconds: 0, milliseconds: 0 });
    assert_eq!(t.to_string(), "4294967296:00:00,000");
    let mut far = Timestamp::from_millis(u64::MAX);
    let step = Duration::from_millis(i64::MAX as u64);
    assert_eq!(far.move_ts(step, Direction::Forward), Ok(()));
    assert_eq!(far.to_millis(), u64::MAX as u128 + i64::MAX as u128);
}

#[test]
fn direction_defaults_to_forward() {
    assert_eq!(Direction::default(), Direction::Forward);
}
