use graphql_ish_schema_validator::compiler::{apply_pattern_outcome, compile};
use graphql_ish_schema_validator::diagnostics::LoweringError;
use graphql_ish_schema_validator::ir::{AdditionalPolicy, ScalarKind, Schema, SchemaBundle};
use graphql_ish_schema_validator::sdl::extract_ast;

fn compile_sdl(sdl: &str) -> Result<SchemaBundle, Vec<LoweringError>> {
    let ast = extract_ast(sdl).map_err(|_| {
        vec![LoweringError::UnsupportedConstruct {
            detail: "parse error".to_string(),
        }]
    })?;
    compile(&ast)
}

#[test]
fn compile_simple_input() {
    let sdl = r#"
        input Widget {
            name: String!
            count: Int
        }
    "#;
    let bundle = compile_sdl(sdl).unwrap();
    assert!(bundle.resolve("Widget").is_some());
    assert!(bundle.root_name.is_some());
}

#[test]
fn compile_with_enum() {
    let sdl = r#"
        enum Color { red green blue }
        input Thing {
            color: Color!
        }
    "#;
    let bundle = compile_sdl(sdl).unwrap();
    let color_schema = bundle.resolve("Color").unwrap();
    assert!(matches!(color_schema, Schema::Enum { .. }));

    let thing_schema = bundle.resolve("Thing").unwrap();
    if let Schema::Object { required, .. } = thing_schema {
        assert!(required.contains_key("color"));
    } else {
        panic!("expected Object schema");
    }
}

#[test]
fn compile_closed_directive() {
    let sdl = r#"
        input Doc @closed {
            name: String!
        }
    "#;
    let bundle = compile_sdl(sdl).unwrap();
    if let Schema::Object { additional, .. } = bundle.resolve("Doc").unwrap() {
        assert_eq!(*additional, AdditionalPolicy::Reject);
    }
}

#[test]
fn compile_open_directive() {
    let sdl = r#"
        input Doc @open {
            name: String!
        }
    "#;
    let bundle = compile_sdl(sdl).unwrap();
    if let Schema::Object { additional, .. } = bundle.resolve("Doc").unwrap() {
        assert_eq!(*additional, AdditionalPolicy::AllowAny);
    }
}

#[test]
fn compile_union_oneof() {
    let sdl = r#"
        input A { x: String! }
        input B { y: Int! }
        union Step @oneOf = A | B
    "#;
    let bundle = compile_sdl(sdl).unwrap();
    if let Schema::OneOf { variants } = bundle.resolve("Step").unwrap() {
        assert_eq!(variants.len(), 2);
        assert_eq!(variants[0].label, "A");
    } else {
        panic!("expected OneOf");
    }
}

#[test]
fn compile_pattern_directive() {
    let sdl = r#"
        input Doc {
            name: String! @pattern(regex: "^[a-z]+$")
        }
    "#;
    let bundle = compile_sdl(sdl).unwrap();
    if let Schema::Object { required, .. } = bundle.resolve("Doc").unwrap() {
        if let Schema::Scalar(ScalarKind::String { pattern }) = &**required.get("name").unwrap() {
            assert_eq!(pattern.as_deref(), Some("^[a-z]+$"));
        } else {
            panic!("expected String scalar");
        }
    }
}

#[test]
fn compile_root_choice() {
    let bundle = compile_sdl("input A { x: Int } input B { y: Int }").unwrap();
    assert_eq!(bundle.root_name.as_deref(), Some("B"));
    let bundle = compile_sdl("input A @root { x: Int } input B { y: Int }").unwrap();
    assert_eq!(bundle.root_name.as_deref(), Some("A"));
    let bundle = compile_sdl("enum E { a }").unwrap();
    assert_eq!(bundle.root_name, None);
}

#[test]
fn compile_insertion_order() {
    let bundle =
        compile_sdl("union U = A input A { x: Int } enum E { a } scalar S").unwrap();
    let names: Vec<&str> = bundle.schemas.entries.iter().map(|e| e.0.as_str()).collect();
    assert_eq!(names, vec!["S", "E", "A", "U"]);
}

#[test]
fn compile_type_references() {
    let sdl = r#"
        input T {
            a: [String!]!
            b: ID
            c: Float
            d: Boolean
            e: Other
        }
    "#;
    let bundle = compile_sdl(sdl).unwrap();
    let Schema::Object { required, optional, .. } = bundle.resolve("T").unwrap() else {
        panic!("expected Object schema");
    };
    assert_eq!(
        **required.get("a").unwrap(),
        Schema::Array {
            elements: Box::new(Schema::Scalar(ScalarKind::String { pattern: None }))
        }
    );
    assert_eq!(
        **optional.get("b").unwrap(),
        Schema::Scalar(ScalarKind::String { pattern: None })
    );
    assert_eq!(
        **optional.get("c").unwrap(),
        Schema::Scalar(ScalarKind::Float { min: None, max: None })
    );
    assert_eq!(**optional.get("d").unwrap(), Schema::Scalar(ScalarKind::Boolean));
    assert_eq!(**optional.get("e").unwrap(), Schema::Ref { name: "Other".into() });
}

#[test]
fn compile_range_directives() {
    let sdl = r#"
        input T {
            n: Int @min(value: 1) @max(value: "10")
            bad: Int @min(value: "ten")
        }
    "#;
    let errors = compile_sdl(sdl).unwrap_err();
    assert_eq!(errors.len(), 1);
    assert_eq!(
        errors[0].to_string(),
        "invalid directive 'min' on bad: invalid integer: invalid digit found in string"
    );
    let bundle = compile_sdl("input T { n: Int @min(value: 1) @max(value: \"10\") }").unwrap();
    let Schema::Object { optional, .. } = bundle.resolve("T").unwrap() else {
        panic!("expected Object schema");
    };
    assert_eq!(
        **optional.get("n").unwrap(),
        Schema::Scalar(ScalarKind::Int {
            min: Some(1),
            max: Some(10)
        })
    );
}

#[test]
fn compile_bad_regex_and_conflicts() {
    let sdl = r#"
        scalar S @pattern(regex: "(")
        input T @closed @open { x: Int }
    "#;
    let errors = compile_sdl(sdl).unwrap_err();
    assert_eq!(errors.len(), 2);
    assert!(errors[0]
        .to_string()
        .starts_with("invalid directive 'pattern' on S: invalid regex: "));
    assert_eq!(
        errors[1].to_string(),
        "conflicting directives on T: @closed and @open are mutually exclusive"
    );
}

#[test]
fn compile_scalar_and_map_rest() {
    let sdl = r#"
        scalar Code @pattern(regex: "^[A-Z]+$")
        input Known { x: Int }
        input T @mapRest(value: Known) { y: Code }
        input U @mapRest(value: Nope) { y: Int }
    "#;
    let errors = compile_sdl(sdl).unwrap_err();
    assert_eq!(errors.len(), 1);
    assert_eq!(errors[0].to_string(), "unresolved type reference 'Nope'");
    let bundle = compile_sdl(
        "scalar Code @pattern(regex: \"^[A-Z]+$\") input Known { x: Int } input T @mapRest(value: Known) { y: Code }",
    )
    .unwrap();
    match bundle.resolve("Code").unwrap() {
        Schema::Scalar(ScalarKind::Custom { name, constraints }) => {
            assert_eq!(name, "Code");
            assert_eq!(constraints.pattern.as_deref(), Some("^[A-Z]+$"));
        }
        other => panic!("unexpected {:?}", other),
    }
    let Schema::Object { additional, .. } = bundle.resolve("T").unwrap() else {
        panic!("expected Object schema");
    };
    assert_eq!(
        *additional,
        AdditionalPolicy::AllowSchema(Box::new(Schema::Ref { name: "Known".into() }))
    );
}

#[test]
fn compile_discriminated_union() {
    let sdl = r#"
        input A { kind: String! }
        union U @discriminator(field: "kind") = A | A
    "#;
    let bundle = compile_sdl(sdl).unwrap();
    match bundle.resolve("U").unwrap() {
        Schema::DiscriminatedUnion { discriminator, mapping } => {
            assert_eq!(discriminator, "\"kind\"");
            assert_eq!(mapping.len(), 1);
        }
        other => panic!("unexpected {:?}", other),
    }
}

#[test]
fn compile_unescapes_pattern() {
    let bundle = compile_sdl(
        r#"input T { s: String @pattern(regex: "^\\d+\u0041$") }"#,
    )
    .unwrap();
    let Schema::Object { optional, .. } = bundle.resolve("T").unwrap() else {
        panic!("expected Object schema");
    };
    assert_eq!(
        **optional.get("s").unwrap(),
        Schema::Scalar(ScalarKind::String {
            pattern: Some("^\\d+A$".into())
        })
    );
}

#[test]
fn pattern_outcome_decides_the_schema() {
    let mut errors: Vec<LoweringError> = Vec::new();
    let s = apply_pattern_outcome(
        Schema::Scalar(ScalarKind::String { pattern: None }),
        "^a$",
        "f",
        Ok(()),
        &mut errors,
    );
    assert!(errors.is_empty());
    assert!(matches!(s, Schema::Scalar(ScalarKind::String { pattern: Some(ref p) }) if p == "^a$"));
    let s = apply_pattern_outcome(
        Schema::Scalar(ScalarKind::String { pattern: None }),
        "(",
        "f",
        Err("unclosed group".to_string()),
        &mut errors,
    );
    assert!(matches!(s, Schema::Scalar(ScalarKind::String { pattern: None })));
    assert_eq!(errors.len(), 1);
    assert!(errors[0].to_string().contains("invalid regex: unclosed group"));
}
