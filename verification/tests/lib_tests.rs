use dot_conf_parser::error::ParseError;
use dot_conf_parser::parse_str;
use dot_conf_parser::ConfValue;

#[test]
fn confirm_range_exp_valid_bound() {
    let a = "abc =";
    let key = &a[..4];
    let val = &a[5..];
    assert_eq!(key, "abc ");
    assert_eq!(val, "");
}

#[test]
#[should_panic]
fn confirm_range_exp_invalid_bound() {
    let a = "abc =";
    let _key = &a[..4];
    let _val = &a[6..];
}

#[test]
fn parses_basic_entries() -> Result<(), ParseError> {
    let input = "endpoint = localhost:3000\ndebug = true\nlog.file = \
                 /var/log/console.log\n";
    let parsed = parse_str(input)?;

    assert_eq!(
        parsed.get("endpoint"),
        Some(&ConfValue::Scalar("localhost:3000".to_string()))
    );
    assert_eq!(
        parsed.get("debug"),
        Some(&ConfValue::Scalar("true".to_string()))
    );

    let log = parsed.get("log").expect("missing log entry");
    match log {
        ConfValue::Nested(map) => {
            assert_eq!(
                map.get("file"),
                Some(&ConfValue::Scalar("/var/log/console.log".to_string()))
            );
        }
        _ => panic!("expected log to be a map"),
    }

    Ok(())
}

#[test]
fn skips_comments_and_overrides() -> Result<(), ParseError> {
    let input = "endpoint = localhost:3000\n# debug = true\nlog.file = \
                 /var/log/console.log\nlog.name = default.log\n";
    let parsed = parse_str(input)?;

    assert_eq!(
        parsed.get("endpoint"),
        Some(&ConfValue::Scalar("localhost:3000".to_string()))
    );
    assert!(parsed.get("debug").is_none());

    let log = parsed.get("log").expect("missing log entry");
    match log {
        ConfValue::Nested(map) => {
            assert_eq!(
                map.get("file"),
                Some(&ConfValue::Scalar("/var/log/console.log".to_string()))
            );
            assert_eq!(
                map.get("name"),
                Some(&ConfValue::Scalar("default.log".to_string()))
            );
        }
        _ => panic!("expected log to be a map"),
    }

    Ok(())
}

fn as_map(value: &ConfValue) -> &dot_conf_parser::ConfMap {
    match value {
        ConfValue::Nested(map) => map,
        other => panic!("expected map, got: {other:?}"),
    }
}

fn scalar(value: &ConfValue) -> &str {
    match value {
        ConfValue::Scalar(s) => s,
        other => panic!("expected scalar, got: {other:?}"),
    }
}

#[test]
fn parses_a_sysctl_sample_text() {
    let text = "# sysctl sample\nkernel.domainname = example.com\nkernel.hostname = host-01\n\n\
                ; maintenance window\nservice.mode = maintenance # for now\npath.with.space = \
                /tmp/test\\ folder\n";
    let parsed = parse_str(text).expect("failed to parse the sample");

    let kernel = as_map(parsed.get("kernel").expect("missing kernel section"));
    assert_eq!(
        scalar(kernel.get("domainname").expect("domainname")),
        "example.com"
    );
    assert_eq!(scalar(kernel.get("hostname").expect("hostname")), "host-01");

    let service = as_map(parsed.get("service").expect("missing service section"));
    assert_eq!(scalar(service.get("mode").expect("mode")), "maintenance");

    assert_eq!(
        scalar(
            parsed
                .get("path")
                .and_then(|m| as_map(m).get("with"))
                .and_then(|m| as_map(m).get("space"))
                .expect("path.with.space"),
        ),
        "/tmp/test\\ folder"
    );
}

#[test]
fn reports_a_nested_assignment_in_text() {
    let err = parse_str("service = basic\nservice.mode = advanced\n")
        .expect_err("expected conflicting type error");

    match err {
        ParseError::ConflictingTypes { key, line } => {
            assert_eq!(key, "service");
            assert_eq!(line, 2);
        }
        other => panic!("unexpected error: {other:?}"),
    }
}
