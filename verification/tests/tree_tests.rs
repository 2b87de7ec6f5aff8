use dot_conf_parser::error::ParseError;
use dot_conf_parser::parser::conf::{SingleValue, SingleValueDiscriminants};
use dot_conf_parser::parser::mir::{
    insert_value, parse_key, parse_value, str_to_mir, strip_inline_comment, StructuredInput,
    TreeMap, TreeValue, Valuable,
};

fn leaf(text: &str, line: usize) -> TreeValue<(String, usize)> {
    TreeValue::Scalar((text.to_string(), line))
}

fn path(segments: &[&str]) -> Vec<String> {
    segments.iter().map(|s| s.to_string()).collect()
}

fn keys(table: &TreeMap<u8>) -> Vec<String> {
    (0..table.len()).map(|i| table.key_at(i).clone()).collect()
}

#[test]
fn table_keeps_its_keys_in_order() {
    let mut table: TreeMap<u8> = TreeMap::new();
    assert!(table.is_empty());
    assert_eq!(table.len(), 0);
    assert!(table.insert("b".to_string(), TreeValue::Scalar(2)).is_none());
    assert!(table.insert("a".to_string(), TreeValue::Scalar(1)).is_none());
    assert!(table.insert("c".to_string(), TreeValue::Scalar(3)).is_none());
    assert!(table.insert("ab".to_string(), TreeValue::Scalar(4)).is_none());
    assert_eq!(keys(&table), vec!["a", "ab", "b", "c"]);
    assert_eq!(table.len(), 4);
    assert!(!table.is_empty());
    assert_eq!(table.value_at(1), &TreeValue::Scalar(4));
    assert_eq!(table.get("b"), Some(&TreeValue::Scalar(2)));
    assert_eq!(table.get("d"), None);
    assert_eq!(table.get(""), None);
    assert!(table.contains_key("ab"));
    assert!(!table.contains_key("abc"));
}

#[test]
fn table_insert_replaces_and_hands_back() {
    let mut table: TreeMap<u8> = TreeMap::new();
    table.insert("k".to_string(), TreeValue::Scalar(1));
    let old = table.insert("k".to_string(), TreeValue::Scalar(2));
    assert_eq!(old, Some(TreeValue::Scalar(1)));
    assert_eq!(table.len(), 1);
    assert_eq!(table.get("k"), Some(&TreeValue::Scalar(2)));
}

#[test]
fn table_push_last_and_into_entries() {
    let mut table: TreeMap<u8> = TreeMap::new();
    table.push_last("a".to_string(), TreeValue::Scalar(1));
    table.push_last("b".to_string(), TreeValue::Scalar(2));
    assert_eq!(table.get("b"), Some(&TreeValue::Scalar(2)));
    let entries = table.into_entries();
    assert_eq!(
        entries,
        vec![
            ("a".to_string(), TreeValue::Scalar(1)),
            ("b".to_string(), TreeValue::Scalar(2)),
        ]
    );
}

#[test]
fn dotted_lookup_equals_manual_descent() {
    let mir = str_to_mir::<SingleValue>("a.b.c = 1\na.b.d = 2\na.e = 3\nf = 4\n").unwrap();
    let a = match mir.get("a").unwrap() {
        TreeValue::Nested(t) => t,
        other => panic!("expected table, got {other:?}"),
    };
    let b = match a.get("b").unwrap() {
        TreeValue::Nested(t) => t,
        other => panic!("expected table, got {other:?}"),
    };
    assert_eq!(mir.get_path("a.b.c"), b.get("c"));
    assert_eq!(mir.get_path("a.b.c"), Some(&leaf("1", 1)));
    assert_eq!(mir.get_path("a.b"), a.get("b"));
    assert_eq!(mir.get_path("a.e"), Some(&leaf("3", 3)));
    assert_eq!(mir.get_path("f"), Some(&leaf("4", 4)));
    assert_eq!(mir.get_path("a.b.c.x"), None);
    assert_eq!(mir.get_path("a.x"), None);
    assert_eq!(mir.get_path("a..b"), None);
    assert_eq!(mir.get_path(""), None);
    assert_eq!(mir.get_path("a."), None);
    assert_eq!(mir.get_path("f.g"), None);
}

#[test]
fn dotted_lookup_prefers_a_whole_key() {
    let mut below: TreeMap<u8> = TreeMap::new();
    below.insert("y".to_string(), TreeValue::Scalar(1));
    let mut table: TreeMap<u8> = TreeMap::new();
    table.insert("x".to_string(), TreeValue::Nested(below));
    table.insert("x.y".to_string(), TreeValue::Scalar(2));
    assert_eq!(table.get_path("x.y"), Some(&TreeValue::Scalar(2)));
}

#[test]
fn insert_value_builds_tables_on_the_way() {
    let mut root = StructuredInput::new();
    insert_value(&mut root, &path(&["a", "b", "c"]), "v".to_string(), 5).unwrap();
    assert_eq!(root.get_path("a.b.c"), Some(&leaf("v", 5)));
    assert_eq!(root.len(), 1);
    insert_value(&mut root, &path(&[]), "w".to_string(), 6).unwrap();
    assert_eq!(root.len(), 1);
}

#[test]
fn insert_value_overwrites_value_and_line() {
    let mut once = StructuredInput::new();
    insert_value(&mut once, &path(&["a", "b"]), "second".to_string(), 9).unwrap();

    let mut twice = StructuredInput::new();
    insert_value(&mut twice, &path(&["a", "b"]), "first".to_string(), 2).unwrap();
    insert_value(&mut twice, &path(&["a", "b"]), "second".to_string(), 9).unwrap();

    assert_eq!(once, twice);
    assert_eq!(twice.get_path("a.b"), Some(&leaf("second", 9)));
}

#[test]
fn scalar_after_table_conflicts_at_the_prefix() {
    let mut root = StructuredInput::new();
    insert_value(&mut root, &path(&["a", "b", "c"]), "1".to_string(), 1).unwrap();
    let before = format!("{root:?}");
    let err = insert_value(&mut root, &path(&["a", "b"]), "2".to_string(), 2).unwrap_err();
    match err {
        ParseError::ConflictingTypes { key, line } => {
            assert_eq!(key, "a.b");
            assert_eq!(line, 2);
        }
        other => panic!("unexpected error: {other:?}"),
    }
    assert_eq!(format!("{root:?}"), before);
}

#[test]
fn table_after_scalar_conflicts_at_the_prefix() {
    let mut root = StructuredInput::new();
    insert_value(&mut root, &path(&["a", "b"]), "1".to_string(), 1).unwrap();
    let before = format!("{root:?}");
    let err =
        insert_value(&mut root, &path(&["a", "b", "c", "d"]), "2".to_string(), 7).unwrap_err();
    match err {
        ParseError::ConflictingTypes { key, line } => {
            assert_eq!(key, "a.b");
            assert_eq!(line, 7);
        }
        other => panic!("unexpected error: {other:?}"),
    }
    assert_eq!(format!("{root:?}"), before);
}

#[test]
fn conflicts_are_found_in_text() {
    for text in ["a.b.c = 1\na.b = 2\n", "a.b = 1\na.b.c = 2\n"] {
        match str_to_mir::<SingleValue>(text).unwrap_err() {
            ParseError::ConflictingTypes { key, line } => {
                assert_eq!(key, "a.b");
                assert_eq!(line, 2);
            }
            other => panic!("unexpected error: {other:?}"),
        }
    }
}

#[test]
fn lines_are_counted_with_blank_and_comment_lines() {
    let text = "# one\n\n  ; three\nkey = v\n\nother = w";
    let mir = str_to_mir::<SingleValue>(text).unwrap();
    assert_eq!(mir.get("key"), Some(&leaf("v", 4)));
    assert_eq!(mir.get("other"), Some(&leaf("w", 6)));
    assert_eq!(mir.len(), 2);
}

#[test]
fn carriage_returns_are_trimmed() {
    let mir = str_to_mir::<SingleValue>("a = 1\r\nb.c = two words\r\n\r\n# x\r\nd = 4\r").unwrap();
    assert_eq!(mir.get("a"), Some(&leaf("1", 1)));
    assert_eq!(mir.get_path("b.c"), Some(&leaf("two words", 2)));
    assert_eq!(mir.get("d"), Some(&leaf("4", 5)));
}

#[test]
fn unicode_whitespace_is_trimmed() {
    let mir = str_to_mir::<SingleValue>("\u{a0}key\u{3000}.\u{2003}sub = \u{2009}v\u{a0}w\u{3000}")
        .unwrap();
    assert_eq!(mir.get_path("key.sub"), Some(&leaf("v w", 1)));
}

#[test]
fn the_first_delimiter_cuts_the_line() {
    let mir = str_to_mir::<SingleValue>("a = b = c\n").unwrap();
    assert_eq!(mir.get("a"), Some(&leaf("b = c", 1)));
    let mir = str_to_mir::<SingleValueDiscriminants>("a-b -> x -> y\n").unwrap();
    assert_eq!(mir.get("a-b"), Some(&leaf("x -> y", 1)));
}

#[test]
fn values_keep_one_space_for_each_run() {
    let mir = str_to_mir::<SingleValue>("a =   one \t two   three  # rest\n").unwrap();
    assert_eq!(mir.get("a"), Some(&leaf("one two three", 1)));
}

#[test]
fn the_first_failing_line_gives_the_error() {
    match str_to_mir::<SingleValue>("ok = 1\nno delimiter\n = v\n").unwrap_err() {
        ParseError::MissingDelimiter { line } => assert_eq!(line, 2),
        other => panic!("unexpected error: {other:?}"),
    }
    match str_to_mir::<SingleValue>("ok = 1\n\n = v\nno delimiter\n").unwrap_err() {
        ParseError::EmptyKey { line } => assert_eq!(line, 3),
        other => panic!("unexpected error: {other:?}"),
    }
    match str_to_mir::<SingleValue>("a. = v\n").unwrap_err() {
        ParseError::InvalidKeySegment { segment, line } => {
            assert_eq!(segment, "");
            assert_eq!(line, 1);
        }
        other => panic!("unexpected error: {other:?}"),
    }
    match str_to_mir::<SingleValue>("a = 1\n.b = v\n").unwrap_err() {
        ParseError::InvalidKeySegment { segment, line } => {
            assert_eq!(segment, "");
            assert_eq!(line, 2);
        }
        other => panic!("unexpected error: {other:?}"),
    }
    match str_to_mir::<SingleValue>("a = 1\nb =\n").unwrap_err() {
        ParseError::EmptyValue { line } => assert_eq!(line, 2),
        other => panic!("unexpected error: {other:?}"),
    }
    match str_to_mir::<SingleValue>("a 1\nb.. = 2\n").unwrap_err() {
        ParseError::MissingDelimiter { line } => assert_eq!(line, 1),
        other => panic!("unexpected error: {other:?}"),
    }
    match str_to_mir::<SingleValueDiscriminants>("a = Bool\n").unwrap_err() {
        ParseError::MissingDelimiter { line } => assert_eq!(line, 1),
        other => panic!("unexpected error: {other:?}"),
    }
}

#[test]
fn empty_text_gives_an_empty_tree() {
    assert!(str_to_mir::<SingleValue>("").unwrap().is_empty());
    assert!(str_to_mir::<SingleValue>("\n\n# only comments\n ; here\n").unwrap().is_empty());
}

#[test]
fn key_parts_are_split_and_trimmed() {
    assert_eq!(parse_key("a", 1).unwrap(), vec!["a"]);
    assert_eq!(parse_key("  a . b.c  ", 1).unwrap(), vec!["a", "b", "c"]);
    assert!(matches!(parse_key("", 4), Err(ParseError::EmptyKey { line: 4 })));
    assert!(matches!(parse_key(" \t ", 4), Err(ParseError::EmptyKey { line: 4 })));
    assert!(matches!(
        parse_key(".", 2),
        Err(ParseError::InvalidKeySegment { line: 2, .. })
    ));
    assert!(matches!(
        parse_key("a. .b", 2),
        Err(ParseError::InvalidKeySegment { line: 2, .. })
    ));
    assert!(matches!(
        parse_key("a.", 2),
        Err(ParseError::InvalidKeySegment { line: 2, .. })
    ));
}

#[test]
fn value_parts_lose_comment_and_outer_whitespace() {
    assert_eq!(parse_value("  plain  ", 1).unwrap(), "plain");
    assert_eq!(parse_value("a#b;c", 1).unwrap(), "a");
    assert_eq!(parse_value("a;b#c", 1).unwrap(), "a");
    assert!(matches!(parse_value("", 3), Err(ParseError::EmptyValue { line: 3 })));
    assert!(matches!(parse_value("  ;x", 3), Err(ParseError::EmptyValue { line: 3 })));
    assert_eq!(strip_inline_comment(" a b # c"), " a b ");
    assert_eq!(strip_inline_comment("no comment"), "no comment");
    assert_eq!(strip_inline_comment(";all"), "");
}

#[test]
fn delimiters_are_those_of_the_kinds() {
    assert_eq!(SingleValue::sep(), "=");
    assert_eq!(SingleValueDiscriminants::sep(), "->");
    let (key, value) = SingleValueDiscriminants::extract_key_value(" a.b -> String ", 1).unwrap();
    assert_eq!(key, "a.b");
    assert_eq!(value, " String ");
    let (key, value) = SingleValue::extract_key_value("=", 1).unwrap();
    assert_eq!(key, "");
    assert_eq!(value, "");
    assert!(matches!(
        SingleValueDiscriminants::extract_key_value("a - > b", 3),
        Err(ParseError::MissingDelimiter { line: 3 })
    ));
}

#[test]
fn leaf_lines_are_gathered_depth_first() {
    let mir = str_to_mir::<SingleValue>("z = 1\na.y = 2\na.b.c = 3\na.b.a = 4\nm = 5\n").unwrap();
    let whole = TreeValue::Nested(mir);
    assert_eq!(whole.get_lines_of_key(), vec![4, 3, 2, 5, 1]);
    assert_eq!(leaf("x", 8).get_lines_of_key(), vec![8]);
    let empty: TreeValue<(String, usize)> = TreeValue::Nested(TreeMap::new());
    assert_eq!(empty.get_lines_of_key(), Vec::<usize>::new());
}
