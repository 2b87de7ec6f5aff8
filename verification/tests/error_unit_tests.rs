use dot_conf_parser::error::ParseError;
use dot_conf_parser::parser::conf::SingleValueDiscriminants;
use std::io;

#[test]
fn display_formats_missing_delimiter() {
    let msg = ParseError::MissingDelimiter { line: 12 }.to_string();
    assert_eq!(msg, "missing delimiter on line 12");
}

#[test]
fn display_formats_invalid_value_payload() {
    let err = ParseError::InvalidValue {
        key: "flag".to_string(),
        value: "yes".to_string(),
        ty: SingleValueDiscriminants::Bool,
        line: 7,
    };
    let msg = err.to_string();
    assert_eq!(
        msg,
        "invalid value 'yes' while expecting Bool for 'flag' on line 7",
    );
}

#[test]
fn io_error_conversion_wraps_source() {
    let io_err = io::Error::new(io::ErrorKind::Other, "boom");
    let parse_err: ParseError = io_err.into();
    match parse_err {
        ParseError::Io(inner) => {
            assert_eq!(inner.kind(), io::ErrorKind::Other)
        }
        other => panic!("unexpected error: {other:?}"),
    }
}

#[test]
fn strum_error_conversion_defaults_to_invalid_value() {
    let parse_err = SingleValueDiscriminants::from_str("unsupported").unwrap_err();
    let converted: ParseError = parse_err.into();
    match converted {
        ParseError::InvalidValue {
            key,
            value,
            ty,
            line,
        } => {
            assert!(key.is_empty());
            assert!(value.is_empty());
            assert_eq!(ty, SingleValueDiscriminants::Bool);
            assert_eq!(line, 0);
        }
        other => panic!("unexpected error: {other:?}"),
    }
}

#[test]
fn display_lists_unknown_key_lines() {
    let err = ParseError::UnknownKey {
        key: "db.port".to_string(),
        lines: vec![5, 9],
    };
    let msg = err.to_string();
    assert!(msg.contains("db.port"));
    assert!(msg.contains("5"));
    assert!(msg.contains("9"));
}
