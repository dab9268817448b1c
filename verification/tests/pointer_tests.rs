use graphql_ish_schema_validator::pointer::{JsonPointer, JsonPointerParseError};

#[test]
fn json_pointer_roundtrip() {
    let mut ptr = JsonPointer::root();
    ptr.push("foo");
    ptr.push("bar/baz");
    ptr.push("hello~world");
    let rendered = ptr.render();
    assert_eq!(rendered, "/foo/bar~1baz/hello~0world");

    let parsed = JsonPointer::parse(&rendered).unwrap();
    assert_eq!(parsed, ptr);
}

#[test]
fn json_pointer_root() {
    let ptr = JsonPointer::root();
    assert_eq!(ptr.render(), "/");
    assert!(ptr.is_root());
    assert!(ptr.is_empty());
}

#[test]
fn json_pointer_parse_empty_is_root() {
    let ptr = JsonPointer::parse("").unwrap();
    assert!(ptr.is_root());
    assert_eq!(ptr.len(), 0);
}

#[test]
fn json_pointer_parse_errors() {
    assert_eq!(
        JsonPointer::parse("foo"),
        Err(JsonPointerParseError::MissingLeadingSlash)
    );
    assert_eq!(
        JsonPointer::parse("/a~2b"),
        Err(JsonPointerParseError::InvalidEscape("~2".to_string()))
    );
    assert_eq!(
        JsonPointer::parse("/a~"),
        Err(JsonPointerParseError::InvalidEscape("~ ".to_string()))
    );
    assert_eq!(
        JsonPointer::parse("foo").unwrap_err().to_string(),
        "JSON Pointer must start with '/'"
    );
    assert_eq!(
        JsonPointerParseError::InvalidEscape("~2".to_string()).to_string(),
        "invalid escape sequence: ~2"
    );
}

#[test]
fn json_pointer_push_then_pop() {
    let mut ptr = JsonPointer::root();
    ptr.push("a");
    ptr.push("b");
    assert_eq!(ptr.pop(), Some("b".to_string()));
    assert_eq!(ptr.render(), "/a");
    assert_eq!(ptr.pop(), Some("a".to_string()));
    assert_eq!(ptr.pop(), None);
    assert!(ptr.is_root());
}

#[test]
fn json_pointer_with_leaves_receiver_unchanged() {
    let ptr = JsonPointer::root().with("x");
    let longer = ptr.with("y/z");
    assert_eq!(ptr.render(), "/x");
    assert_eq!(longer.render(), "/x/y~1z");
    assert_eq!(longer.len(), 2);
}

#[test]
fn json_pointer_parse_render_of_parse() {
    let text = "/a/~0~1/";
    let parsed = JsonPointer::parse(text).unwrap();
    assert_eq!(parsed.len(), 3);
    assert_eq!(parsed.render(), text);
}

#[test]
fn json_pointer_empty_segment_renders_like_root() {
    let mut ptr = JsonPointer::root();
    ptr.push("");
    assert_eq!(ptr.render(), "/");
    assert!(!ptr.is_root());
}
