use graphql_ish_schema_validator::sdl::{
    extract_ast, extract_directive_names, parse_sdl,
};
use graphql_ish_schema_validator::diagnostics::SdlError;

#[test]
fn parse_simple_input_type() {
    let sdl = r#"
        input Widget {
            name: String!
            count: Int
            tag: String
        }
    "#;

    let ast = extract_ast(sdl).unwrap();
    assert_eq!(ast.inputs.len(), 1);
    assert_eq!(ast.inputs[0].name, "Widget");
    assert_eq!(ast.inputs[0].fields.len(), 3);
    assert_eq!(ast.inputs[0].fields[0].name, "name");
    assert!(ast.inputs[0].fields[0].required);
    assert!(!ast.inputs[0].fields[1].required);
}

#[test]
fn parse_enum_type() {
    let sdl = r#"
        enum Color {
            red
            green
            blue
        }
    "#;

    let ast = extract_ast(sdl).unwrap();
    assert_eq!(ast.enums.len(), 1);
    assert_eq!(ast.enums[0].name, "Color");
    assert_eq!(ast.enums[0].values, vec!["red", "green", "blue"]);
}

#[test]
fn parse_union_type() {
    let sdl = r#"
            union Step @oneOf = AgentStep | ToolStep
        "#;

    let ast = extract_ast(sdl).unwrap();
    assert_eq!(ast.unions.len(), 1);
    assert_eq!(ast.unions[0].name, "Step");
    assert_eq!(ast.unions[0].members, vec!["AgentStep", "ToolStep"]);
    assert!(ast.unions[0].directives.iter().any(|d| d.name == "oneOf"));
}

#[test]
fn parse_directives() {
    let sdl = r#"
        input Doc @closed {
            name: String! @pattern(regex: "^[a-z]+$")
        }
    "#;

    let ast = extract_ast(sdl).unwrap();
    assert!(ast.inputs[0].directives.iter().any(|d| d.name == "closed"));
    assert!(ast.inputs[0].fields[0]
        .directives
        .iter()
        .any(|d| d.name == "pattern"));

    let pattern_dir = ast.inputs[0].fields[0]
        .directives
        .iter()
        .find(|d| d.name == "pattern")
        .unwrap();
    assert!(pattern_dir
        .arguments
        .iter()
        .any(|(k, v)| k == "regex" && v.contains("[a-z]+")));
}

#[test]
fn report_parse_errors() {
    let sdl = "input { broken";
    let result = extract_ast(sdl);
    assert!(result.is_err());
    let errors = result.unwrap_err();
    assert!(!errors.is_empty());
}

#[test]
fn parse_with_descriptions() {
    let sdl = r#"
        """A configurable widget"""
        input Widget {
            """Display name"""
            name: String!
        }
    "#;

    let ast = extract_ast(sdl).unwrap();
    assert!(ast.inputs[0].description.is_some());
    assert!(ast.inputs[0].fields[0].description.is_some());
}

#[test]
fn descriptions_lose_their_quotes() {
    let sdl = r#"
        """A configurable widget"""
        input Widget {
            "Display name"
            name: String!
        }
        "Letters"
        scalar Letters
    "#;
    let ast = extract_ast(sdl).unwrap();
    assert_eq!(ast.inputs[0].description.as_deref(), Some("A configurable widget"));
    assert_eq!(ast.inputs[0].fields[0].description.as_deref(), Some("Display name"));
    assert_eq!(ast.scalars[0].description.as_deref(), Some("Letters"));
    assert_eq!(ast.scalars[0].name, "Letters");
}

#[test]
fn type_references_and_defaults() {
    let sdl = r#"
        input Box {
            a: [String!]!
            b: [[Int]]
            c: Float = 1.5
            d: Boolean! = true @min(value: 3)
        }
    "#;
    let ast = extract_ast(sdl).unwrap();
    let f = &ast.inputs[0].fields;
    assert_eq!(f[0].type_ref, "[String!]!");
    assert!(f[0].required);
    assert_eq!(f[1].type_ref, "[[Int]]");
    assert!(!f[1].required);
    assert_eq!(f[2].default_value.as_deref(), Some("= 1.5"));
    assert_eq!(f[3].type_ref, "Boolean!");
    assert_eq!(f[3].directives[0].name, "min");
    assert_eq!(
        f[3].directives[0].arguments,
        vec![("value".to_string(), "3".to_string())]
    );
}

#[test]
fn parse_errors_are_at_start() {
    let errors = extract_ast("input { broken").unwrap_err();
    for e in &errors {
        match e {
            SdlError::ParseError { line, col, .. } => {
                assert_eq!((*line, *col), (0, 0));
            }
            other => panic!("unexpected error {:?}", other),
        }
    }
}

#[test]
fn parse_sdl_lists_type_names_in_order() {
    let sdl = r#"
        scalar Email
        type Ignored { x: Int }
        input Person { email: Email }
        enum Role { admin user }
        union Any = Person
    "#;
    let parsed = parse_sdl(sdl).unwrap();
    assert_eq!(parsed.type_names, vec!["Email", "Person", "Role", "Any"]);
    assert!(parsed.raw_errors.is_empty());
    assert!(parse_sdl("enum {").is_err());
}

#[test]
fn directive_names_sorted_unique() {
    let sdl = r#"
        input B @open @root { x: Int @min(value: 1) }
        type T @key { y: Int }
        interface I @zeta { z: Int }
        scalar S @pattern(regex: "a") @open
    "#;
    let names = extract_directive_names(sdl);
    assert_eq!(names, vec!["key", "min", "open", "pattern", "root", "zeta"]);
}

#[test]
fn directive_names_include_fields() {
    let sdl = "input Doc @closed {\n  name: String! @pattern(regex: \"x\")\n}\nenum E { a @deprecated b }";
    let names = extract_directive_names(sdl);
    assert_eq!(names, vec!["closed", "deprecated", "pattern"]);
}

#[test]
fn parse_sdl_agrees_with_extract_ast() {
    for sdl in ["input A { x: Int }", "enum {", "scalar S union U = A", "input { }"] {
        assert_eq!(parse_sdl(sdl).is_ok(), extract_ast(sdl).is_ok());
    }
    let parsed = parse_sdl("union U = A scalar S enum E { a } input A { x: Int }").unwrap();
    assert_eq!(parsed.type_names, vec!["U", "S", "E", "A"]);
}
