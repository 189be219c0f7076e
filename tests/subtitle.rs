use std::time::Duration;

use srt::{Direction, SrtError, Subtitle, Timestamp};

#[test]
fn test_subtitle_new() {
    let lines = vec!["00:00:01,000 --> 00:00:05,000", "Hello, World!"];
    let subtitle = Subtitle::new(&lines).unwrap();
    assert_eq!(
        subtitle.start_time,
        Timestamp::from_string("00:00:01,000").unwrap()
    );
    assert_eq!(
        subtitle.end_time,
        Timestamp::from_string("00:00:05,000").unwrap()
    );
    assert_eq!(subtitle.text, "Hello, World!");
}

#[test]
fn test_subtitle_new_invalid() {
    assert!(Subtitle::new(&vec!["1"]).is_err());
    assert!(Subtitle::new(&vec!["1", ""]).is_err());
    assert!(Subtitle::new(&vec!["", "1"]).is_err());
    assert!(Subtitle::new(&vec!["", ""]).is_err());

    let lines = vec!["1", "00:00:01,000 --> 00:00:05,000"];
    assert!(Subtitle::new(&lines).is_err());

    let lines = vec!["1", "00:00:01,000 --> 00:00:05,000", "Hello, World!"];
    assert!(Subtitle::new(&lines).is_ok());

    let lines = vec![
        "1",
        "00:00:01,000 --> 00:00:05,000",
        "Hello, World!",
        "Extra line",
    ];
    assert!(Subtitle::new(&lines).is_ok());

    let lines = vec!["Hello, World!", "00:00:01,000 --> 00:00:05,000"];
    assert!(Subtitle::new(&lines).is_err());

    let lines = vec!["Hello, World!", ""];
    assert!(Subtitle::new(&lines).is_err());

    let lines = vec!["00:00:01,000 --> 00:00:05,000", ""];
    assert!(Subtitle::new(&lines).is_err());

    let lines = vec!["", "Hello, World!"];
    assert!(Subtitle::new(&lines).is_err());
}

#[test]
fn test_subtitle_to_string() {
    let subtitle = Subtitle {
        start_time: Timestamp::from_string("00:00:01,000").unwrap(),
        end_time: Timestamp::from_string("00:00:05,000").unwrap(),
        text: "Hello, World!".to_string(),
    };
    assert_eq!(
        subtitle.to_string(),
        "00:00:01,000 --> 00:00:05,000\nHello, World!\n"
    );
}

#[test]
fn test_subtitle_is_valid() {
    let valid_subtitle = Subtitle {
        start_time: Timestamp::from_string("00:00:01,000").unwrap(),
        end_time: Timestamp::from_string("00:00:05,000").unwrap(),
        text: "Hello, World!".to_string(),
    };
    assert!(valid_subtitle.is_valid());
}

#[test]
fn test_subtitle_bad_text() {
    let with_text = |text: &str| Subtitle {
        start_time: Timestamp::from_string("00:00:01,000").unwrap(),
        end_time: Timestamp::from_string("00:00:05,000").unwrap(),
        text: text.to_string(),
    };
    let invalid_subtitle = with_text("");
    assert!(!invalid_subtitle.is_valid());

    let invalid_subtitle = with_text("شتركوا في القناة");
    assert!(!invalid_subtitle.is_valid());

    let invalid_subtitle = with_text(",");
    assert!(!invalid_subtitle.is_valid());

    let invalid_subtitle = with_text(".");
    assert!(!invalid_subtitle.is_valid());
}

#[test]
fn test_subtitle_duration() {
    let subtitle = Subtitle {
        start_time: Timestamp::from_string("00:00:01,000").unwrap(),
        end_time: Timestamp::from_string("00:00:05,000").unwrap(),
        text: "Hello, World!".to_string(),
    };
    assert_eq!(subtitle.duration(), Duration::new(4, 0));
}

#[test]
fn duration_of_reversed_times_is_zero() {
    let subtitle = Subtitle {
        start_time: Timestamp::from_string("00:00:05,000").unwrap(),
        end_time: Timestamp::from_string("00:00:01,250").unwrap(),
        text: "Hi".to_string(),
    };
    assert_eq!(subtitle.duration(), Duration::ZERO);
    let subtitle = Subtitle {
        start_time: Timestamp::from_string("00:00:01,250").unwrap(),
        end_time: Timestamp::from_string("00:01:00,000").unwrap(),
        text: "Hi".to_string(),
    };
    assert_eq!(subtitle.duration(), Duration::from_millis(58_750));
    assert_eq!(subtitle.duration().as_nanos(), 58_750_000_000);
}

#[test]
fn punctuation_only_text_is_rejected() {
    for (text, valid) in [("...", false), (",", false), ("!?", false), ("Hello, World!", true), ("...a", true), ("«»", true)] {
        let s = Subtitle {
            start_time: Timestamp::from_millis(0),
            end_time: Timestamp::from_millis(1000),
            text: text.to_string(),
        };
        assert_eq!(s.is_valid(), valid, "{}", text);
    }
}

#[test]
fn every_denied_phrase_is_rejected() {
    let phrases = [
        "شتركوا في القناة",
        "لا تنسوا الاشتراك في القناة",
        "لا تنسوا الاشتراك",
        "المترجم للقناة",
        "موسيقى",
        "patch",
    ];
    for p in phrases {
        let lines = vec!["00:00:01,000 --> 00:00:05,000", p];
        assert_eq!(Subtitle::new(&lines).unwrap_err(), SrtError::InvalidSubtitle);
        let inside = format!("some {} here", p);
        let lines = vec!["00:00:01,000 --> 00:00:05,000", inside.as_str()];
        assert_eq!(Subtitle::new(&lines).unwrap_err(), SrtError::InvalidSubtitle);
    }
    let lines = vec!["00:00:01,000 --> 00:00:05,000", "Patch"];
    assert!(Subtitle::new(&lines).is_ok());
}

#[test]
fn block_errors_by_kind() {
    assert_eq!(Subtitle::new(&vec!["1", "hello"]).unwrap_err(), SrtError::NoTimestamp);
    assert_eq!(Subtitle::new(&vec!["00:00:01,000 --> 00:00:02,000"]).unwrap_err(), SrtError::NoText);
    assert_eq!(Subtitle::new(&vec!["00:00:01,000-->00:00:02,000", "Hi"]).unwrap_err(), SrtError::Format);
    assert_eq!(Subtitle::new(&vec!["00:00:01 --> 00:00:02,000", "Hi"]).unwrap_err(), SrtError::Format);
    assert_eq!(Subtitle::new(&vec!["00:00:01,000 --> 00:00:02,000", "   "]).unwrap_err(), SrtError::InvalidSubtitle);
}

#[test]
fn text_is_trimmed_and_later_lines_dropped() {
    let lines = vec!["7", "00:00:01,000 --> 00:00:02,000 --> 00:00:09,000", "  Hi there \r", "second"];
    let s = Subtitle::new(&lines).unwrap();
    assert_eq!(s.text, "Hi there");
    assert_eq!(s.end_time.to_string(), "00:00:02,000");
    assert_eq!(s.to_string(), "00:00:01,000 --> 00:00:02,000\nHi there\n");
}

#[test]
fn move_start_shifts_only_the_start() {
    let mut s = Subtitle::new(&vec!["00:00:03,000 --> 00:00:05,000", "Hi"]).unwrap();
    s.move_start(Duration::from_millis(1500), Direction::Backward).unwrap();
    assert_eq!(s.start_time.to_string(), "00:00:01,500");
    assert_eq!(s.end_time.to_string(), "00:00:05,000");
    s.move_start(Duration::from_secs(10), Direction::Backward).unwrap();
    assert_eq!(s.start_time.to_string(), "00:00:00,000");
    assert_eq!(s.move_start(Duration::MAX, Direction::Forward), Err(SrtError::Overflow));
    assert_eq!(s.text, "Hi");
}

#[test]
fn subtitles_compare_by_fields() {
    let a = Subtitle::new(&vec!["00:00:01,000 --> 00:00:02,000", "Hi"]).unwrap();
    let b = Subtitle::new(&vec!["3", "00:00:01,000 --> 00:00:02,000", " Hi "]).unwrap();
    assert_eq!(a, b);
    let c = Subtitle::new(&vec!["00:00:01,000 --> 00:00:02,000", "Ho"]).unwrap();
    assert_ne!(a, c);
}
