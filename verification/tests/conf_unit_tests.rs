use dot_conf_parser::error::{PRslt, ParseError};
use dot_conf_parser::parser::conf::{
    inject_payload, parse_str, parse_str_as_i32, BuildConf, SingleValue, SingleValueDiscriminants,
    Value,
};
use dot_conf_parser::parser::mir::{StructuredInput, TreeMap, TreeValue};
use dot_conf_parser::parser::schema::{SchemaMap, SchemaValue};

fn mir_scalar(value: &str, line: usize) -> TreeValue<(String, usize)> {
    TreeValue::Scalar((value.to_string(), line))
}

fn schema_scalar(kind: SingleValueDiscriminants) -> SchemaValue {
    TreeValue::Scalar(Value::Single(kind))
}

#[test]
fn parse_str_as_i32_parses_valid_integer() -> PRslt<()> {
    assert_eq!(parse_str_as_i32("port", "42", 6)?, 42);
    Ok(())
}

#[test]
fn parse_str_as_i32_reports_invalid_value() -> PRslt<()> {
    let err = parse_str_as_i32("port", "not-a-number", 3).unwrap_err();
    match err {
        ParseError::InvalidValue {
            key,
            value,
            ty,
            line,
        } => {
            assert_eq!(key, "port");
            assert_eq!(value, "not-a-number");
            assert_eq!(ty, SingleValueDiscriminants::Integer);
            assert_eq!(line, 3);
        }
        other => panic!("unexpected error: {other:?}"),
    }

    Ok(())
}

#[test]
fn discriminant_into_payload_converts_bool() -> PRslt<()> {
    let payload = SingleValueDiscriminants::Bool.into_payload("debug", "true", 5)?;
    match payload {
        SingleValue::Bool(flag) => assert!(flag),
        other => panic!("unexpected payload: {other:?}"),
    }

    Ok(())
}

#[test]
fn inject_payload_handles_single_value() -> PRslt<()> {
    let schema_value = Value::Single(SingleValueDiscriminants::String);
    let conf_value = inject_payload("endpoint", &schema_value, mir_scalar("localhost", 4))?;
    match conf_value {
        TreeValue::Scalar(Value::Single(SingleValue::String(value))) => {
            assert_eq!(value, "localhost");
        }
        other => panic!("unexpected conf value: {other:?}"),
    }

    Ok(())
}

#[test]
fn inject_payload_handles_collection() -> PRslt<()> {
    let schema_value = Value::Collection(vec![
        SingleValueDiscriminants::Integer,
        SingleValueDiscriminants::Integer,
    ]);
    let conf_value = inject_payload("ports", &schema_value, mir_scalar("8080", 9))?;
    match conf_value {
        TreeValue::Scalar(Value::Collection(items)) => {
            assert_eq!(items.len(), 2);
            assert!(items
                .iter()
                .all(|item| matches!(item, SingleValue::Integer(8080))));
        }
        other => panic!("unexpected conf value: {other:?}"),
    }

    Ok(())
}

#[test]
fn structured_input_into_conf_converts_known_keys() -> PRslt<()> {
    let mut mir = StructuredInput::new();
    mir.insert("debug".into(), mir_scalar("true", 1));
    mir.insert("port".into(), mir_scalar("21", 2));

    let mut schema = SchemaMap::new();
    schema
        .0
        .insert("debug".into(), schema_scalar(SingleValueDiscriminants::Bool));
    schema.0.insert(
        "port".into(),
        schema_scalar(SingleValueDiscriminants::Integer),
    );

    let conf = mir.into_conf(&schema)?;

    match conf.get("debug").unwrap() {
        TreeValue::Scalar(Value::Single(SingleValue::Bool(flag))) => {
            assert!(flag)
        }
        other => panic!("unexpected debug value: {other:?}"),
    }

    match conf.get("port").unwrap() {
        TreeValue::Scalar(Value::Single(SingleValue::Integer(value))) => {
            assert_eq!(*value, 21);
        }
        other => panic!("unexpected port value: {other:?}"),
    }

    Ok(())
}

#[test]
fn structured_input_into_conf_flags_unknown_keys() -> PRslt<()> {
    let mut mir = StructuredInput::new();
    mir.insert("unexpected".into(), mir_scalar("true", 3));

    let schema = SchemaMap::new();
    let err = mir.into_conf(&schema).unwrap_err();
    match err {
        ParseError::UnknownKey { key, lines } => {
            assert_eq!(key, "unexpected");
            assert_eq!(lines, vec![3]);
        }
        other => panic!("unexpected error: {other:?}"),
    }

    Ok(())
}

#[test]
fn parse_str_resolves_nested_schema() -> PRslt<()> {
    let mut nested_schema = SchemaMap::new();
    nested_schema.0.insert(
        "port".into(),
        schema_scalar(SingleValueDiscriminants::Integer),
    );

    let mut table = TreeMap::new();
    table.insert(
        "server".to_string(),
        TreeValue::Nested(nested_schema.into_inner()),
    );
    let schema = SchemaMap::from_inner(table);

    let conf = parse_str("server.port = 8080", schema)?;
    let server = conf.get("server").unwrap();
    match server {
        TreeValue::Nested(children) => match children.get("port").unwrap() {
            TreeValue::Scalar(Value::Single(SingleValue::Integer(value))) => {
                assert_eq!(*value, 8080);
            }
            other => panic!("unexpected port value: {other:?}"),
        },
        other => panic!("unexpected server value: {other:?}"),
    }

    Ok(())
}

#[test]
fn parse_str_propagates_unknown_key_error() -> PRslt<()> {
    let schema = SchemaMap::new();
    let err = parse_str("feature.enabled = true", schema).unwrap_err();
    match err {
        ParseError::UnknownKey { key, lines } => {
            assert_eq!(key, "feature.enabled");
            assert_eq!(lines, vec![1]);
        }
        other => panic!("unexpected error: {other:?}"),
    }

    Ok(())
}
