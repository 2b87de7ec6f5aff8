use dot_conf_parser::parser::conf::{SingleValueDiscriminants, Value, ValueDiscriminants};
use dot_conf_parser::parser::mir::{StructuredInput, TreeValue};
use dot_conf_parser::parser::schema::{parse_schema_value, parse_str, BuildSchema};

fn scalar_line(value: &str, line: usize) -> TreeValue<(String, usize)> {
    TreeValue::Scalar((value.to_string(), line))
}

#[test]
fn parse_schema_value_accepts_single_discriminant() {
    let schema = parse_schema_value("Bool").unwrap();
    match schema {
        TreeValue::Scalar(Value::Single(kind)) => {
            assert_eq!(kind, SingleValueDiscriminants::Bool);
        }
        other => panic!("unexpected schema value: {other:?}"),
    }
}

#[test]
fn parse_schema_value_supports_collections() {
    let schema = parse_schema_value("Integer, Integer").unwrap();
    match schema {
        TreeValue::Scalar(Value::Collection(kinds)) => {
            assert_eq!(kinds.len(), 2);
            assert!(kinds
                .iter()
                .all(|k| matches!(k, SingleValueDiscriminants::Integer)));
        }
        other => panic!("unexpected schema value: {other:?}"),
    }
}

#[test]
fn into_schema_converts_nested_entries() {
    let mut mir = StructuredInput::new();
    mir.insert("flag".into(), scalar_line("Bool", 1));

    let mut nested_map = StructuredInput::new();
    nested_map.insert("port".into(), scalar_line("Integer", 2));
    mir.insert("server".into(), TreeValue::Nested(nested_map));

    let schema = mir.into_schema().unwrap();

    match schema.get("flag").unwrap() {
        TreeValue::Scalar(Value::Single(kind)) => {
            assert_eq!(*kind, SingleValueDiscriminants::Bool);
        }
        other => panic!("unexpected flag schema: {other:?}"),
    }

    match schema.get("server").unwrap() {
        TreeValue::Nested(children) => match children.get("port").unwrap() {
            TreeValue::Scalar(Value::Single(kind)) => {
                assert_eq!(*kind, SingleValueDiscriminants::Integer);
            }
            other => panic!("unexpected port schema: {other:?}"),
        },
        other => panic!("unexpected server schema: {other:?}"),
    }
}

#[test]
fn parse_str_builds_schema_tree() {
    let schema =
        parse_str("flag -> Bool\nserver.port -> Integer\nserver.host -> String").unwrap();

    assert!(matches!(
        schema.get("flag"),
        Some(TreeValue::Scalar(Value::Single(
            SingleValueDiscriminants::Bool
        )))
    ));

    let server = schema.get("server").unwrap();
    match server {
        TreeValue::Nested(children) => {
            assert!(matches!(
                children.get("port"),
                Some(TreeValue::Scalar(Value::Single(
                    SingleValueDiscriminants::Integer
                )))
            ));
            assert!(matches!(
                children.get("host"),
                Some(TreeValue::Scalar(Value::Single(
                    SingleValueDiscriminants::String
                )))
            ));
        }
        other => panic!("unexpected server schema: {other:?}"),
    }
}

#[test]
fn display_for_value_discriminants_matches_variant_names() {
    assert_eq!(ValueDiscriminants::Single.to_string(), "Single");
    assert_eq!(ValueDiscriminants::Collection.to_string(), "Collection");
}

#[test]
fn display_for_single_value_discriminants_lists_type_names() {
    assert_eq!(SingleValueDiscriminants::Bool.to_string(), "Bool");
    assert_eq!(SingleValueDiscriminants::String.to_string(), "String");
    assert_eq!(SingleValueDiscriminants::Integer.to_string(), "Integer");
}
