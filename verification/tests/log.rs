use chrono::{DateTime, NaiveDateTime, Utc};
use docker_log_driver::log::{
    LogMessage, NormalizeError, DEFAULT_LEVEL, MAX_TIMESTAMP_MILLIS, MIN_TIMESTAMP_MILLIS,
};
use docker_log_driver::protobuf::LogEntry;
use serde_json::{Number, Value};

fn entry(source: &str, time_nano: i64, line: &[u8]) -> LogEntry {
    LogEntry {
        source: source.to_string(),
        time_nano,
        line: line.to_vec(),
        partial: false,
        partial_log_metadata: None,
    }
}

fn object(members: Vec<(&str, Value)>) -> Value {
    let mut map = serde_json::Map::new();
    for (key, value) in members {
        map.insert(key.to_string(), value);
    }
    Value::Object(map)
}

fn text(value: &str) -> Value {
    Value::String(value.to_string())
}

fn instant(message: &LogMessage) -> DateTime<Utc> {
    DateTime::<Utc>::from_timestamp_millis(message.timestamp).unwrap()
}

#[test]
#[allow(deprecated)]
fn test_into_log_message() {
    let expected_time_nano = 1620000000000;
    let log = LogEntry {
        time_nano: expected_time_nano,
        line: r#"{"message":"test","level":2,"another_field": 4}"#.as_bytes().to_vec(),
        partial: false,
        partial_log_metadata: None,
        source: "container-id".to_string(),
    };

    let log: LogMessage = LogMessage::try_from(log).unwrap();

    let naive_dt = NaiveDateTime::from_timestamp_millis(expected_time_nano).unwrap();
    assert_eq!(instant(&log), chrono::DateTime::<chrono::Utc>::from_utc(naive_dt, Utc));
    assert_eq!(log.message, "test");
    assert_eq!(log.level, 2);

    assert_eq!(
        log.context,
        Some(object(vec![
            ("another_field", Value::Number(Number::from(4))),
            ("source", text("container-id")),
        ]))
    );
}

#[test]
#[allow(deprecated)]
fn test_string_log_message() {
    let expected_time_nano = 1620000000000;
    let log = LogEntry {
        time_nano: expected_time_nano,
        line: r#"test"#.as_bytes().to_vec(),
        partial: false,
        partial_log_metadata: None,
        source: "container-id".to_string(),
    };

    let log: LogMessage = LogMessage::try_from(log).unwrap();

    let naive_dt = NaiveDateTime::from_timestamp_millis(expected_time_nano).unwrap();
    assert_eq!(instant(&log), chrono::DateTime::<chrono::Utc>::from_utc(naive_dt, Utc));
    assert_eq!(log.message, "test");
    assert_eq!(log.level, 3);

    assert_eq!(log.context, Some(object(vec![("source", text("container-id"))])));
}

#[test]
fn timestamp_is_the_epoch_plus_the_milliseconds() {
    let log = LogMessage::try_from(entry("c", 1620000000000, b"x")).unwrap();
    assert_eq!(log.timestamp, 1620000000000);
    assert_eq!(instant(&log).to_rfc3339(), "2021-05-03T00:00:00+00:00");
    let log = LogMessage::try_from(entry("c", 0, b"x")).unwrap();
    assert_eq!(instant(&log).to_rfc3339(), "1970-01-01T00:00:00+00:00");
    let log = LogMessage::try_from(entry("c", -1, b"x")).unwrap();
    assert_eq!(instant(&log).to_rfc3339(), "1969-12-31T23:59:59.999+00:00");
}

#[test]
fn timestamps_at_the_ends_of_the_range() {
    assert_eq!(MIN_TIMESTAMP_MILLIS, DateTime::<Utc>::MIN_UTC.timestamp_millis());
    assert_eq!(MAX_TIMESTAMP_MILLIS, DateTime::<Utc>::MAX_UTC.timestamp_millis());
    for millis in [MIN_TIMESTAMP_MILLIS, MIN_TIMESTAMP_MILLIS + 1, MAX_TIMESTAMP_MILLIS - 1, MAX_TIMESTAMP_MILLIS] {
        let log = LogMessage::try_from(entry("c", millis, b"x")).unwrap();
        assert_eq!(log.timestamp, millis);
        assert_eq!(instant(&log).timestamp_millis(), millis);
    }
    for millis in [MIN_TIMESTAMP_MILLIS - 1, MAX_TIMESTAMP_MILLIS + 1, i64::MIN, i64::MAX] {
        let refused = LogMessage::try_from(entry("c", millis, b"x"));
        assert_eq!(refused.unwrap_err(), NormalizeError::InvalidTimestamp);
        assert!(DateTime::<Utc>::from_timestamp_millis(millis).is_none());
    }
}

#[test]
fn a_bad_timestamp_is_found_before_a_bad_line() {
    let refused = LogMessage::try_from(entry("c", i64::MAX, b"[1]"));
    assert_eq!(refused.unwrap_err(), NormalizeError::InvalidTimestamp);
    let refused = LogMessage::try_from(entry("c", i64::MAX, &[0xff]));
    assert_eq!(refused.unwrap_err(), NormalizeError::InvalidTimestamp);
}

#[test]
fn json_that_is_no_object_is_refused() {
    for line in ["[1,2]", "1", "1.5", "true", "null", "\"text\"", " [] ", "-0"] {
        let refused = LogMessage::try_from(entry("c", 0, line.as_bytes()));
        assert_eq!(refused.unwrap_err(), NormalizeError::UnexpectedFormat, "{}", line);
    }
}

#[test]
fn a_level_that_is_no_integer_is_refused() {
    for level in ["\"2\"", "2.0", "2.5", "1e2", "true", "null", "[2]", "{}", "9223372036854775808", "18446744073709551615"] {
        let line = format!("{{\"message\":\"m\",\"level\":{}}}", level);
        let refused = LogMessage::try_from(entry("c", 0, line.as_bytes()));
        assert_eq!(refused.unwrap_err(), NormalizeError::InvalidLevel, "{}", level);
    }
}

#[test]
fn a_level_is_cut_to_32_bits() {
    let cases: [(&str, i32); 9] = [
        ("0", 0),
        ("-7", -7),
        ("2147483647", i32::MAX),
        ("-2147483648", i32::MIN),
        ("2147483648", i32::MIN),
        ("4294967296", 0),
        ("4294967298", 2),
        ("9223372036854775807", -1),
        ("-9223372036854775808", 0),
    ];
    for (level, expected) in cases {
        let line = format!("{{\"level\":{}}}", level);
        let log = LogMessage::try_from(entry("c", 0, line.as_bytes())).unwrap();
        assert_eq!(log.level, expected, "{}", level);
    }
}

#[test]
fn a_line_without_message_and_level_gets_the_defaults() {
    let log = LogMessage::try_from(entry("c", 5, b"{\"other\":true}")).unwrap();
    assert_eq!(log.message, "");
    assert_eq!(log.level, 3);
    assert_eq!(DEFAULT_LEVEL, 3);
    assert_eq!(log.context, Some(object(vec![("other", Value::Bool(true)), ("source", text("c"))])));
    let log = LogMessage::try_from(entry("c", 5, b"{}")).unwrap();
    assert_eq!(log.message, "");
    assert_eq!(log.level, 3);
    assert_eq!(log.context, Some(object(vec![("source", text("c"))])));
}

#[test]
fn a_message_that_is_no_string_is_taken_as_empty() {
    for message in ["5", "null", "[\"a\"]", "{\"a\":1}", "false"] {
        let line = format!("{{\"message\":{},\"level\":4,\"k\":\"v\"}}", message);
        let log = LogMessage::try_from(entry("c", 5, line.as_bytes())).unwrap();
        assert_eq!(log.message, "", "{}", message);
        assert_eq!(log.level, 4);
        assert_eq!(log.context, Some(object(vec![("k", text("v")), ("source", text("c"))])));
    }
}

#[test]
fn the_source_of_the_entry_replaces_a_source_in_the_line() {
    let line = b"{\"source\":\"from the line\",\"message\":\"m\",\"nested\":{\"level\":1,\"message\":[1.5,null]}}";
    let log = LogMessage::try_from(entry("from the entry", 5, line)).unwrap();
    assert_eq!(log.message, "m");
    assert_eq!(log.level, 3);
    let number = Number::from_f64(1.5).unwrap();
    let nested = object(vec![
        ("level", Value::Number(Number::from(1))),
        ("message", Value::Array(vec![Value::Number(number), Value::Null])),
    ]);
    assert_eq!(
        log.context,
        Some(object(vec![("nested", nested), ("source", text("from the entry"))]))
    );
}

#[test]
fn of_a_member_that_occurs_twice_the_last_counts() {
    let line = b"{\"level\":\"x\",\"level\":6,\"message\":\"a\",\"message\":\"b\",\"k\":1,\"k\":2}";
    let log = LogMessage::try_from(entry("c", 5, line)).unwrap();
    assert_eq!(log.message, "b");
    assert_eq!(log.level, 6);
    assert_eq!(
        log.context,
        Some(object(vec![("k", Value::Number(Number::from(2))), ("source", text("c"))]))
    );
}

#[test]
fn text_that_is_no_json_is_the_message() {
    for line in ["test", "{not json", "{\"a\":1} trailing", "", "   ", "NaN", "{\"a\":1}{\"b\":2}", "caf\u{e9} \u{1F980}"] {
        let log = LogMessage::try_from(entry("src", 5, line.as_bytes())).unwrap();
        assert_eq!(log.message, line);
        assert_eq!(log.level, 3);
        assert_eq!(log.context, Some(object(vec![("source", text("src"))])));
    }
}

#[test]
fn bytes_that_are_neither_json_nor_text_are_refused() {
    for line in [&[0xffu8][..], &[b'a', 0x80], &[0xc3], &[0xed, 0xa0, 0x80], &[b'{', 0xff, b'}']] {
        let refused = LogMessage::try_from(entry("c", 5, line));
        assert_eq!(refused.unwrap_err(), NormalizeError::InvalidUtf8);
    }
}

#[test]
fn the_words_of_the_errors() {
    assert_eq!(NormalizeError::InvalidTimestamp.message(), "Invalid timestamp");
    assert_eq!(NormalizeError::UnexpectedFormat.message(), "Invalid or unexpected format");
    assert_eq!(NormalizeError::InvalidLevel.message(), "Invalid level");
    assert_eq!(NormalizeError::InvalidUtf8.message(), "Invalid UTF-8");
}

#[test]
fn a_line_that_was_read_before_gives_the_same_message() {
    let line = b"{\"message\":\"m\",\"level\":1,\"k\":[1]}";
    let parsed: Value = serde_json::from_slice(line).unwrap();
    let direct = LogMessage::try_from(entry("c", 9, line)).unwrap();
    let staged = LogMessage::from_parsed(entry("c", 9, line), Some(parsed)).unwrap();
    assert_eq!(direct.timestamp, staged.timestamp);
    assert_eq!(direct.message, staged.message);
    assert_eq!(direct.level, staged.level);
    assert_eq!(direct.context, staged.context);
    // what the line reads as decides, not the line
    let staged = LogMessage::from_parsed(entry("c", 9, line), None).unwrap();
    assert_eq!(staged.message.as_bytes(), line);
    let staged = LogMessage::from_parsed(entry("c", 9, b"plain"), Some(Value::Null));
    assert_eq!(staged.unwrap_err(), NormalizeError::UnexpectedFormat);
}
