use check_inet::check::{io_error_text, CheckOutcome};
use check_inet::net::{IoError, IoErrorKind};
use std::io;
use std::time::Duration;

fn io_error(kind: io::ErrorKind) -> IoError {
    let err = io::Error::from(kind);
    let kind = match kind {
        io::ErrorKind::TimedOut => IoErrorKind::TimedOut,
        io::ErrorKind::ConnectionRefused => IoErrorKind::ConnectionRefused,
        _ => IoErrorKind::Other,
    };
    IoError { kind, message: err.to_string() }
}

#[test]
fn row_formats_successful_check() {
    let name = "8.8.8.8";
    let outcome = CheckOutcome {
        name: name.to_string(),
        success: true,
        elapsed_nanos: Duration::from_secs_f64(0.0032).as_nanos(),
        error: None,
    };
    let pad = " ".repeat(13 - name.len());
    assert_eq!(outcome.row(), format!("{name}{pad} | 🟢 | 0.0032"));
}

#[test]
fn row_formats_failed_check_with_error() {
    let name = "8.8.8.8";
    let outcome = CheckOutcome {
        name: name.to_string(),
        success: false,
        elapsed_nanos: Duration::from_secs_f64(0.5).as_nanos(),
        error: Some("connection refused".to_string()),
    };
    let pad = " ".repeat(13 - name.len());
    assert_eq!(outcome.row(), format!("{name}{pad} | 🛑 | 0.5000 | connection refused"));
}

#[test]
fn row_uses_timeout_label_when_error_is_none_on_failure() {
    let outcome = CheckOutcome {
        name: "ya.ru".to_string(),
        success: false,
        elapsed_nanos: Duration::from_secs_f64(3.0).as_nanos(),
        error: None,
    };
    assert!(outcome.row().ends_with(" | 🛑 | 3.0000 | Timeout"));
}

#[test]
fn io_error_text_returns_none_on_timeout() {
    let err = io_error(io::ErrorKind::TimedOut);
    assert_eq!(io_error_text(&err), None);
}

#[test]
fn io_error_text_returns_nonempty_message_otherwise() {
    let err = io_error(io::ErrorKind::ConnectionRefused);
    let text = io_error_text(&err);
    assert!(text.is_some());
    assert!(!text.unwrap().is_empty());
}

#[test]
fn row_keeps_long_names_whole_and_counts_characters() {
    let outcome = CheckOutcome {
        name: "[2001:4860:4860::8888]:443".to_string(),
        success: true,
        elapsed_nanos: 1_000_000_000,
        error: None,
    };
    assert_eq!(outcome.row(), "[2001:4860:4860::8888]:443 | 🟢 | 1.0000");
    let outcome = CheckOutcome { name: "диагноз".to_string(), success: true, elapsed_nanos: 0, error: None };
    assert_eq!(outcome.row(), "диагноз       | 🟢 | 0.0000");
}

#[test]
fn row_rounds_to_four_decimals() {
    let row = |nanos: u128| CheckOutcome { name: "x".to_string(), success: true, elapsed_nanos: nanos, error: None }.row();
    assert!(row(49_999).ends_with(" | 0.0000"));
    assert!(row(50_000).ends_with(" | 0.0001"));
    assert!(row(1_055_300_000).ends_with(" | 1.0553"));
    assert!(row(9_999_950_000).ends_with(" | 10.0000"));
    assert!(row(123_456_789_012).ends_with(" | 123.4568"));
}
