use graphql_ish_schema_validator::compiler::{arguments_unquotable, compile};
use graphql_ish_schema_validator::diagnostics::{ErrorCode, ValidationMode};
use graphql_ish_schema_validator::ir::SchemaBundle;
use graphql_ish_schema_validator::ordered_map::OrderedMap;
use graphql_ish_schema_validator::sdl::extract_ast;
use graphql_ish_schema_validator::validator::Validator;
use graphql_ish_schema_validator::value::{Number, Value};

const SIMPLE: &str = r#"
    scalar SemVer @pattern(regex: "^[0-9]+\\.[0-9]+\\.[0-9]+$")

    enum BackoffStrategy {
        exponential
        linear
        fixed
    }

    input RetryPolicy @closed {
        max_attempts: Int!
        backoff: BackoffStrategy!
    }

    input Widget @root @closed {
        name: String!
        version: SemVer!
        retries: RetryPolicy
        tags: [String!]
    }
"#;

const WORKFLOW: &str = r#"
    scalar Duration @pattern(regex: "^[0-9]+(s|m|h)$")

    enum Trigger {
        push
        manual
        schedule
    }

    input RunStep @closed {
        run: String!
        timeout: Duration
    }

    input UseStep @closed {
        uses: String!
        args: [String!]
    }

    union Step @oneOf = RunStep | UseStep

    input Job @closed {
        name: String!
        steps: [Step!]!
    }

    input Workflow @root @closed {
        name: String!
        triggers: [Trigger!]!
        jobs: [Job!]!
    }
"#;

fn load_and_compile_schema(sdl: &str) -> SchemaBundle {
    let ast = extract_ast(sdl).unwrap();
    assert!(arguments_unquotable(&ast));
    compile(&ast).unwrap()
}

fn obj(pairs: Vec<(&str, Value)>) -> Value {
    let mut m = OrderedMap::new();
    for (k, v) in pairs {
        m.insert(k.to_string(), v);
    }
    Value::Object(m)
}

fn text(s: &str) -> Value {
    Value::String(s.to_string())
}

fn int_value(i: i64) -> Value {
    Value::Number(Number::Integer(i))
}

#[test]
fn end_to_end_valid_yaml() {
    let bundle = load_and_compile_schema(SIMPLE);
    let value = obj(vec![
        ("name", text("widget")),
        ("version", text("1.2.3")),
        (
            "retries",
            obj(vec![("max_attempts", int_value(3)), ("backoff", text("exponential"))]),
        ),
        ("tags", Value::Array(vec![text("a"), text("b")])),
    ]);

    let validator = Validator::new(&bundle).with_mode(ValidationMode::Strict);
    let result = validator.validate(&value);

    assert!(result.valid, "expected valid, got errors: {:#?}", result.errors);
}

#[test]
fn end_to_end_invalid_yaml() {
    let bundle = load_and_compile_schema(SIMPLE);
    let value = obj(vec![
        ("name", text("widget")),
        ("version", text("1.2")),
        ("colour", text("red")),
    ]);

    let validator = Validator::new(&bundle).with_mode(ValidationMode::Strict);
    let result = validator.validate(&value);

    assert!(!result.valid, "expected invalid");

    let codes: Vec<_> = result.errors.iter().map(|e| e.code).collect();
    assert!(
        codes.contains(&ErrorCode::UnknownProperty),
        "expected UnknownProperty error, got: {:?}",
        codes
    );
}

#[test]
fn end_to_end_valid_json() {
    let bundle = load_and_compile_schema(SIMPLE);
    let value = obj(vec![
        ("name", text("json-widget")),
        ("version", text("2.0.0")),
        (
            "retries",
            obj(vec![("max_attempts", int_value(5)), ("backoff", text("linear"))]),
        ),
        ("tags", Value::Array(vec![text("json")])),
    ]);

    let validator = Validator::new(&bundle).with_mode(ValidationMode::Strict);
    let result = validator.validate(&value);

    assert!(result.valid, "expected valid, got errors: {:#?}", result.errors);
}

#[test]
fn end_to_end_missing_required_field() {
    let bundle = load_and_compile_schema(SIMPLE);
    let value = obj(vec![("name", text("incomplete"))]);

    let validator = Validator::new(&bundle);
    let result = validator.validate(&value);

    assert!(!result.valid);
    assert!(result
        .errors
        .iter()
        .any(|e| e.code == ErrorCode::RequiredPropertyMissing));
}

#[test]
fn end_to_end_open_mode_allows_extra_fields() {
    let bundle = load_and_compile_schema(SIMPLE);
    let value = obj(vec![
        ("name", text("widget")),
        ("version", text("1.0.0")),
        ("extra", text("allowed")),
    ]);

    let validator = Validator::new(&bundle).with_mode(ValidationMode::Open);
    let result = validator.validate(&value);

    assert!(result.valid, "open mode should allow extra fields, got: {:?}", result.errors);
}

#[test]
fn end_to_end_nested_enum_validation() {
    let bundle = load_and_compile_schema(SIMPLE);
    let value = obj(vec![
        ("name", text("widget")),
        ("version", text("1.0.0")),
        (
            "retries",
            obj(vec![("max_attempts", int_value(3)), ("backoff", text("INVALID"))]),
        ),
    ]);

    let validator = Validator::new(&bundle);
    let result = validator.validate(&value);

    assert!(!result.valid);
    assert!(result.errors.iter().any(|e| e.code == ErrorCode::InvalidEnumValue));
}

#[test]
fn end_to_end_workflow_schema() {
    let bundle = load_and_compile_schema(WORKFLOW);

    let value = obj(vec![
        ("name", text("ci")),
        ("triggers", Value::Array(vec![text("push"), text("manual")])),
        (
            "jobs",
            Value::Array(vec![obj(vec![
                ("name", text("build")),
                (
                    "steps",
                    Value::Array(vec![
                        obj(vec![("run", text("make")), ("timeout", text("10m"))]),
                        obj(vec![("uses", text("checkout")), ("args", Value::Array(vec![text("x")]))]),
                    ]),
                ),
            ])]),
        ),
    ]);
    let validator = Validator::new(&bundle).with_mode(ValidationMode::Strict);
    let result = validator.validate(&value);
    assert!(result.valid, "expected valid workflow, got errors: {:#?}", result.errors);

    let value = obj(vec![
        ("name", text("ci")),
        ("triggers", Value::Array(vec![text("nightly")])),
        (
            "jobs",
            Value::Array(vec![obj(vec![
                ("name", text("build")),
                (
                    "steps",
                    Value::Array(vec![obj(vec![("run", text("make")), ("timeout", text("soon"))])]),
                ),
            ])]),
        ),
    ]);
    let validator = Validator::new(&bundle).with_mode(ValidationMode::Strict);
    let result = validator.validate(&value);
    assert!(!result.valid, "expected invalid workflow");

    let codes: Vec<_> = result.errors.iter().map(|e| e.code).collect();
    assert!(codes.len() >= 2, "expected multiple errors, got: {:?}", codes);
}
