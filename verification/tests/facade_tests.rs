use graphql_ish_schema_validator::diagnostics::{
    ErrorCode, ValidationError, ValidationMode, ValidationResult,
};
use graphql_ish_schema_validator::facade::{
    validate_from_schema, EnhancedValidationResult, InputFormat, LogLevel, ValidationOptions,
};
use graphql_ish_schema_validator::ordered_map::OrderedMap;
use graphql_ish_schema_validator::value::{Number, Value};

const SCHEMA: &str = r#"
    enum Status { active inactive }
    input Widget @closed {
        name: String! @pattern(regex: "^[a-z]+$")
        count: Int @min(value: 0)
        status: Status
    }
"#;

fn obj(pairs: Vec<(&str, Value)>) -> Value {
    let mut m = OrderedMap::new();
    for (k, v) in pairs {
        m.insert(k.to_string(), v);
    }
    Value::Object(m)
}

#[test]
fn options_default() {
    let o = ValidationOptions::default();
    assert_eq!(o.mode, ValidationMode::Strict);
    assert_eq!(o.root_schema, None);
    assert_eq!(o.max_depth, 64);
    assert_eq!(o.log_level, LogLevel::Warn);
}

#[test]
fn enhanced_result_from_result() {
    let mut r = ValidationResult::ok();
    r.add_error(ValidationError {
        instance_path: "/".into(),
        schema_path: "/".into(),
        code: ErrorCode::TypeMismatch,
        message: "m".into(),
        hint: None,
    });
    let e = EnhancedValidationResult::from_result(r, 3, Some("Root".into()));
    assert!(!e.valid);
    assert_eq!(e.errors.len(), 1);
    assert!(e.warnings.is_empty());
    assert_eq!(e.schema_types_count, 3);
    assert_eq!(e.root_schema.as_deref(), Some("Root"));
}

#[test]
fn pipeline_valid_document() {
    let doc = obj(vec![
        ("name", Value::String("gear".into())),
        ("count", Value::Number(Number::Integer(2))),
        ("status", Value::String("active".into())),
    ]);
    let r = validate_from_schema(Ok(doc), SCHEMA, &ValidationOptions::default(), InputFormat::Json)
        .unwrap();
    assert!(r.valid, "errors: {:?}", r.errors);
    assert_eq!(r.schema_types_count, 2);
    assert_eq!(r.root_schema.as_deref(), Some("Widget"));
}

#[test]
fn pipeline_nested_enum_and_unknown_field() {
    let doc = obj(vec![
        ("name", Value::String("gear".into())),
        ("status", Value::String("broken".into())),
        ("extra", Value::Bool(true)),
    ]);
    let r = validate_from_schema(Ok(doc), SCHEMA, &ValidationOptions::default(), InputFormat::Yaml)
        .unwrap();
    assert!(!r.valid);
    let codes: Vec<ErrorCode> = r.errors.iter().map(|e| e.code).collect();
    assert_eq!(codes, vec![ErrorCode::InvalidEnumValue, ErrorCode::UnknownProperty]);
    assert_eq!(r.errors[0].instance_path, "/status");
}

#[test]
fn pipeline_open_mode_allows_extra_fields() {
    let doc = obj(vec![
        ("name", Value::String("gear".into())),
        ("extra", Value::Bool(true)),
    ]);
    let options = ValidationOptions {
        mode: ValidationMode::Open,
        ..ValidationOptions::default()
    };
    let r = validate_from_schema(Ok(doc), SCHEMA, &options, InputFormat::Json).unwrap();
    assert!(r.valid, "open mode should allow extra fields, got: {:?}", r.errors);
}

#[test]
fn pipeline_missing_required_field() {
    let doc = obj(vec![("count", Value::Number(Number::Integer(1)))]);
    let r = validate_from_schema(Ok(doc), SCHEMA, &ValidationOptions::default(), InputFormat::Json)
        .unwrap();
    assert!(!r.valid);
    assert!(r
        .errors
        .iter()
        .any(|e| e.code == ErrorCode::RequiredPropertyMissing));
}

#[test]
fn pipeline_error_order() {
    let options = ValidationOptions::default();
    let sdl_err = validate_from_schema(Err("bad doc".into()), "input {", &options, InputFormat::Json)
        .unwrap_err();
    assert!(sdl_err.starts_with("SDL parse errors: "));
    let compile_err = validate_from_schema(
        Err("bad doc".into()),
        "input T @closed @open { x: Int }",
        &options,
        InputFormat::Json,
    )
    .unwrap_err();
    assert_eq!(
        compile_err,
        "Compile errors: conflicting directives on T: @closed and @open are mutually exclusive"
    );
    let doc_err =
        validate_from_schema(Err("bad doc".into()), SCHEMA, &options, InputFormat::Yaml).unwrap_err();
    assert_eq!(doc_err, "YAML parse error: bad doc");
    let doc_err =
        validate_from_schema(Err("oops".into()), SCHEMA, &options, InputFormat::Json).unwrap_err();
    assert_eq!(doc_err, "JSON parse error: oops");
}

#[test]
fn pipeline_root_override() {
    let options = ValidationOptions {
        root_schema: Some("Status".into()),
        ..ValidationOptions::default()
    };
    let r = validate_from_schema(
        Ok(Value::String("inactive".into())),
        SCHEMA,
        &options,
        InputFormat::Json,
    )
    .unwrap();
    assert!(r.valid);
    assert_eq!(r.root_schema.as_deref(), Some("Status"));
}
