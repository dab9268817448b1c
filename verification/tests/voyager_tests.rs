use graphql_ish_schema_validator::voyager::to_voyager_schema;

#[test]
fn convert_simple_input_type() {
    let schema = r#"
        input Widget @closed {
            name: String!
            count: Int
        }
    "#;

    let result = to_voyager_schema(schema).unwrap();

    assert!(result.contains("type Widget"));
    assert!(result.contains("name: String!"));
    assert!(result.contains("count: Int"));
    assert!(result.contains("type Query"));
    assert!(result.contains("workflow: Widget"));
    // Should NOT contain @closed directive
    assert!(!result.contains("@closed"));
}

#[test]
fn convert_enum_type() {
    let schema = r#"
        enum BackoffStrategy {
            exponential
            linear
            fixed
        }
    "#;

    let result = to_voyager_schema(schema).unwrap();

    assert!(result.contains("enum BackoffStrategy"));
    assert!(result.contains("exponential"));
    assert!(result.contains("linear"));
    assert!(result.contains("fixed"));
}

#[test]
fn convert_scalar_with_pattern() {
    let schema = r#"
        scalar SemVer @pattern(regex: "^[0-9]+\\.[0-9]+\\.[0-9]+$")
    "#;

    let result = to_voyager_schema(schema).unwrap();

    assert!(result.contains("scalar SemVer"));
    // Should NOT contain @pattern directive
    assert!(!result.contains("@pattern"));
}

#[test]
fn voyager_full_text() {
    let schema = "input A { x: [Int!]! y: B } enum B { p q } scalar S";
    let out = to_voyager_schema(schema).unwrap();
    assert_eq!(
        out,
        "type A {\n    x: [Int!]!\n    y: B\n}\n\nenum B {\n    p\n    q\n}\n\nscalar S\ntype Query {\n    workflow: A\n}\n"
    );
}

#[test]
fn voyager_reports_parse_errors() {
    let err = to_voyager_schema("input {").unwrap_err();
    assert!(err.starts_with("SDL parse errors: parse error at line 0, column 0: "));
}

#[test]
fn voyager_drops_every_directive() {
    let schema = r#"
        input Job @root @closed {
            id: String! @pattern(regex: "^[a-z]+$")
            kind: Kind
            step: Step
        }
        enum Kind @deprecated { a b }
        scalar Tag @pattern(regex: "^t$")
        union Step @oneOf = Job
    "#;
    let out = to_voyager_schema(schema).unwrap();
    assert!(!out.contains('@'));
    assert!(out.contains("    id: String!\n"));
    assert!(out.contains("scalar Tag\n"));
}

#[test]
fn voyager_keeps_type_references_and_unions() {
    let schema = "input A {\n  tags: [String!]\n  id: ID!\n  step: U\n}\nunion U = A | B\ninput B { n: Int }";
    let out = to_voyager_schema(schema).unwrap();
    assert_eq!(
        out,
        "type A {\n    tags: [String!]\n    id: ID!\n    step: U\n}\n\ntype B {\n    n: Int\n}\n\nunion U = A | B\ntype Query {\n    workflow: A\n}\n"
    );
}
