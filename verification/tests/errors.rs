use oagen::oapi::error::{Error, ErrorKind, Scope};

#[test]
fn scoping() {
    let mut scope = Scope::new();
    scope.named("a".to_string());
    scope.named("b".to_string());
    assert_eq!(
        Error::new(scope.duplicate(), Error::generic("test")).render(),
        "Error in a.b: test"
    );
    scope.pop();
    assert_eq!(
        Error::new(scope.duplicate(), Error::generic("test")).render(),
        "Error in a: test"
    );
    scope.pop();
    assert_eq!(
        Error::new(scope, Error::generic("test")).render(),
        "Error in (unscoped): test"
    );
}

#[test]
fn anonymous_segments_are_skipped() {
    let mut scope = Scope::new();
    scope.named("outer".to_string());
    scope.named_opt(None);
    scope.named("inner".to_string());
    assert_eq!(scope.render(), "outer.inner");
}

#[test]
fn kind_messages() {
    assert_eq!(
        Error::unsupported_ref("request_body").render(),
        "references may not appear in `request_body`"
    );
    assert_eq!(
        Error::unresolved_ref("Widget".to_string()).render(),
        "could not resolve reference to `Widget`"
    );
    assert_eq!(
        Error::required_field("paths").render(),
        "field `paths` is required"
    );
    assert_eq!(
        Error::required_field_or("summary", "operation_id").render(),
        "field `summary` is required, but may be substituted with `operation_id`"
    );
    assert_eq!(
        Error::invalid_value("mime type", "text/csv".to_string()).render(),
        "field `mime type` has invalid value `text/csv`"
    );
    assert_eq!(
        Error::duplicate_keys(vec!["id".to_string(), "name".to_string()]).render(),
        "found duplicate keys: `[\"id\", \"name\"]`"
    );
    assert_eq!(
        Error::unsupported("status code range").render(),
        "status code range is unsupported"
    );
    assert_eq!(Error::generic("anything").render(), "anything");
}

#[test]
fn kinds_compare() {
    assert_eq!(
        Error::unsupported("not"),
        ErrorKind::Unsupported("not".to_string())
    );
    assert_ne!(
        Error::unsupported("not"),
        ErrorKind::Unsupported("any_of".to_string())
    );
}
