use pbdems2::error::FieldValueConversionError;
use pbdems2::Error;

#[test]
fn io_error_display() {
    let err = Error::Io(std::io::Error::new(std::io::ErrorKind::NotFound, "gone"));
    let msg = err.to_string();
    assert!(msg.contains("IO error"));
}

#[test]
fn invalid_magic_display() {
    let err = Error::InvalidMagic { got: [0; 8] };
    let msg = err.to_string();
    assert!(msg.contains("magic bytes"));
}

#[test]
fn overflow_display() {
    let err = Error::Overflow {
        needed: 64,
        available: 8,
    };
    let msg = err.to_string();
    assert!(msg.contains("64"));
    assert!(msg.contains("8"));
}

#[test]
fn parse_error_display() {
    let err = Error::Parse {
        context: "bad data".to_string(),
    };
    let msg = err.to_string();
    assert!(msg.contains("bad data"));
}

#[test]
fn field_value_conversion_error() {
    let err = FieldValueConversionError;
    let msg = err.to_string();
    assert!(msg.contains("incompatible"));
}

#[test]
fn command_error_names_offset_command_and_cause() {
    let err = Error::Command {
        offset: 16,
        command: Some(7),
        tick: Some(42),
        source: Box::new(Error::Overflow {
            needed: 24,
            available: 8,
        }),
    };
    let msg = err.to_string();
    assert!(msg.contains("16"));
    assert!(msg.contains("42"));
    assert!(msg.contains("24"));
}

#[test]
fn limit_error_names_the_resource() {
    let err = Error::LimitExceeded {
        resource: "fixture",
        limit: 4,
        actual: 5,
    };
    let msg = err.to_string();
    assert!(msg.contains("fixture"));
    assert!(msg.contains("4"));
    assert!(msg.contains("5"));
}

#[test]
fn io_error_message_follows_its_prefix() {
    let err = Error::Io(std::io::Error::new(std::io::ErrorKind::NotFound, "gone"));
    assert_eq!(err.to_string(), "IO error: gone");
}
