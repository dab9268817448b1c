use graphql_ish_schema_validator::diagnostics::{ErrorCode, ValidationMode};
use graphql_ish_schema_validator::ir::{
    AdditionalPolicy, OneOfVariant, ScalarConstraints, ScalarKind, Schema, SchemaBundle,
};
use graphql_ish_schema_validator::ordered_map::OrderedMap;
use graphql_ish_schema_validator::validator::Validator;
use graphql_ish_schema_validator::value::{FloatNumber, Number, Value};

fn obj(pairs: Vec<(&str, Value)>) -> Value {
    let mut m = OrderedMap::new();
    for (k, v) in pairs {
        m.insert(k.to_string(), v);
    }
    Value::Object(m)
}

fn text(s: &str) -> Value {
    Value::String(s.to_string())
}

fn int_value(i: i64) -> Value {
    Value::Number(Number::Integer(i))
}

fn float(f: f64) -> Value {
    Value::Number(Number::Float(FloatNumber::new(f.to_bits(), format!("{}", f))))
}

fn props(pairs: Vec<(&str, Schema)>) -> OrderedMap<Box<Schema>> {
    let mut m = OrderedMap::new();
    for (k, s) in pairs {
        m.insert(k.to_string(), Box::new(s));
    }
    m
}

fn string_type() -> Schema {
    Schema::Scalar(ScalarKind::String { pattern: None })
}

fn simple_object_schema() -> SchemaBundle {
    let mut bundle = SchemaBundle::new();
    bundle.insert(
        "Widget".into(),
        Schema::Object {
            required: props(vec![
                ("name", string_type()),
                (
                    "count",
                    Schema::Scalar(ScalarKind::Int {
                        min: Some(0),
                        max: None,
                    }),
                ),
            ]),
            optional: props(vec![("tag", string_type())]),
            additional: AdditionalPolicy::Reject,
        },
    );
    bundle.set_root("Widget");
    bundle
}

fn single(schema: Schema) -> SchemaBundle {
    let mut bundle = SchemaBundle::new();
    bundle.insert("T".into(), schema);
    bundle.set_root("T");
    bundle
}

#[test]
fn valid_object() {
    let bundle = simple_object_schema();
    let validator = Validator::new(&bundle);
    let value = obj(vec![("name", text("test")), ("count", int_value(5))]);
    let result = validator.validate(&value);
    assert!(
        result.valid,
        "expected valid, got errors: {:?}",
        result.errors
    );
}

#[test]
fn missing_required_field() {
    let bundle = simple_object_schema();
    let validator = Validator::new(&bundle);
    let value = obj(vec![("name", text("test"))]);
    let result = validator.validate(&value);
    assert!(!result.valid);
    assert!(result
        .errors
        .iter()
        .any(|e| e.code == ErrorCode::RequiredPropertyMissing));
}

#[test]
fn unknown_field_in_strict_mode() {
    let bundle = simple_object_schema();
    let validator = Validator::new(&bundle).with_mode(ValidationMode::Strict);
    let value = obj(vec![
        ("name", text("test")),
        ("count", int_value(1)),
        ("bogus", text("nope")),
    ]);
    let result = validator.validate(&value);
    assert!(!result.valid);
    assert!(result
        .errors
        .iter()
        .any(|e| e.code == ErrorCode::UnknownProperty));
}

#[test]
fn unknown_field_ok_in_open_mode() {
    let bundle = simple_object_schema();
    let validator = Validator::new(&bundle).with_mode(ValidationMode::Open);
    let value = obj(vec![
        ("name", text("test")),
        ("count", int_value(1)),
        ("extra", text("fine")),
    ]);
    let result = validator.validate(&value);
    assert!(
        result.valid,
        "open mode should allow extra fields, got: {:?}",
        result.errors
    );
}

#[test]
fn enum_validation() {
    let mut bundle = SchemaBundle::new();
    bundle.insert(
        "Color".into(),
        Schema::Enum {
            values: vec!["red".into(), "green".into(), "blue".into()],
        },
    );
    bundle.set_root("Color");

    let validator = Validator::new(&bundle);
    let result = validator.validate(&text("red"));
    assert!(result.valid);

    let result = validator.validate(&text("purple"));
    assert!(!result.valid);
    assert!(result
        .errors
        .iter()
        .any(|e| e.code == ErrorCode::InvalidEnumValue));
}

#[test]
fn missing_required_error_details() {
    let bundle = simple_object_schema();
    let result = Validator::new(&bundle).validate(&obj(vec![("name", text("x"))]));
    assert_eq!(result.errors.len(), 1);
    let e = &result.errors[0];
    assert_eq!(e.instance_path, "/count");
    assert_eq!(e.schema_path, "/properties/count");
    assert_eq!(e.message, "required property 'count' is missing");
    assert_eq!(e.hint, None);
}

#[test]
fn unknown_property_error_details() {
    let bundle = simple_object_schema();
    let result = Validator::new(&bundle).validate(&obj(vec![
        ("name", text("x")),
        ("count", int_value(0)),
        ("a/b", int_value(1)),
    ]));
    assert_eq!(result.errors.len(), 1);
    let e = &result.errors[0];
    assert_eq!(e.code, ErrorCode::UnknownProperty);
    assert_eq!(e.instance_path, "/a~1b");
    assert_eq!(e.schema_path, "/additionalProperties");
    assert_eq!(e.message, "unknown property 'a/b' (schema is closed)");
}

#[test]
fn enum_error_message_lists_values() {
    let bundle = single(Schema::Enum {
        values: vec!["red".into(), "green".into()],
    });
    let result = Validator::new(&bundle).validate(&text("blue"));
    assert_eq!(
        result.errors[0].message,
        "'blue' is not a valid enum value (expected one of: red, green)"
    );
    let result = Validator::new(&bundle).validate(&int_value(3));
    assert_eq!(result.errors[0].code, ErrorCode::TypeMismatch);
    assert_eq!(result.errors[0].message, "expected string (enum), got integer");
}

#[test]
fn no_root_schema() {
    let bundle = SchemaBundle::new();
    let result = Validator::new(&bundle).validate(&Value::Null);
    assert!(!result.valid);
    assert_eq!(result.errors[0].code, ErrorCode::UnresolvedRef);
    assert_eq!(result.errors[0].message, "no root schema defined in bundle");
    assert_eq!(result.errors[0].instance_path, "/");
    assert_eq!(result.errors[0].schema_path, "/");
}

#[test]
fn validate_named_unknown_and_known() {
    let bundle = simple_object_schema();
    let v = Validator::new(&bundle);
    let result = v.validate_named("Nope", &Value::Null);
    assert_eq!(result.errors[0].message, "unknown schema: 'Nope'");
    let result = v.validate_named("Widget", &Value::Null);
    assert_eq!(result.errors[0].message, "expected object, got null");
}

#[test]
fn integer_range_errors() {
    let bundle = single(Schema::Scalar(ScalarKind::Int {
        min: Some(1),
        max: Some(10),
    }));
    let v = Validator::new(&bundle);
    let low = v.validate(&int_value(0));
    assert_eq!(low.errors.len(), 1);
    assert_eq!(low.errors[0].code, ErrorCode::ValueOutOfRange);
    assert_eq!(low.errors[0].message, "value 0 is out of range [1, 10]");
    let high = v.validate(&int_value(11));
    assert_eq!(high.errors[0].message, "value 11 is out of range [1, 10]");
    assert!(v.validate(&int_value(10)).valid);
    let open = single(Schema::Scalar(ScalarKind::Int {
        min: None,
        max: Some(-5),
    }));
    let r = Validator::new(&open).validate(&int_value(i64::MAX));
    assert_eq!(
        r.errors[0].message,
        "value 9223372036854775807 is out of range [\u{2212}\u{221e}, -5]"
    );
}

#[test]
fn float_for_integer_depends_on_mode() {
    let bundle = single(Schema::Scalar(ScalarKind::Int {
        min: Some(5),
        max: None,
    }));
    let strict = Validator::new(&bundle).validate(&float(4.0));
    assert_eq!(strict.errors[0].message, "expected integer, got float");
    let open = Validator::new(&bundle)
        .with_mode(ValidationMode::Open)
        .validate(&float(4.0));
    assert_eq!(open.errors[0].message, "value 4 is out of range [5, \u{221e}]");
    let fractional = Validator::new(&bundle)
        .with_mode(ValidationMode::Open)
        .validate(&float(5.5));
    assert_eq!(fractional.errors[0].message, "expected integer, got float");
    assert!(Validator::new(&bundle)
        .with_mode(ValidationMode::Open)
        .validate(&float(7.0))
        .valid);
}

#[test]
fn float_range_messages() {
    let bundle = single(Schema::Scalar(ScalarKind::Float {
        min: Some(0),
        max: Some(1),
    }));
    let v = Validator::new(&bundle);
    let r = v.validate(&float(1.5));
    assert_eq!(r.errors.len(), 1);
    assert_eq!(r.errors[0].message, "value 1.5 is out of range [0, 1]");
    let r = v.validate(&int_value(-3));
    assert_eq!(r.errors[0].message, "value -3 is out of range [0, 1]");
    assert!(v.validate(&float(0.25)).valid);
    assert!(v.validate(&float(f64::NAN)).valid);
    let r = v.validate(&text("x"));
    assert_eq!(r.errors[0].message, "expected float, got string");
}

#[test]
fn float_bounds_rounded_like_f64() {
    let bundle = single(Schema::Scalar(ScalarKind::Float {
        min: Some(9007199254740993),
        max: None,
    }));
    let r = Validator::new(&bundle).validate(&int_value(0));
    assert_eq!(
        r.errors[0].message,
        format!("value 0 is out of range [{}, \u{221e}]", 9007199254740993i64 as f64)
    );
}

#[test]
fn string_pattern_checks() {
    let bundle = single(Schema::Scalar(ScalarKind::String {
        pattern: Some("^[a-z]+$".into()),
    }));
    let v = Validator::new(&bundle);
    assert!(v.validate(&text("abc")).valid);
    let r = v.validate(&text("ABC"));
    assert_eq!(r.errors[0].code, ErrorCode::PatternMismatch);
    assert_eq!(r.errors[0].schema_path, "/pattern");
    assert_eq!(r.errors[0].message, "string 'ABC' does not match pattern '^[a-z]+$'");
    let broken = single(Schema::Scalar(ScalarKind::String {
        pattern: Some("(".into()),
    }));
    assert!(Validator::new(&broken).validate(&text("anything")).valid);
}

#[test]
fn timestamp_checks() {
    let bundle = single(Schema::Scalar(ScalarKind::Timestamp));
    let v = Validator::new(&bundle);
    assert!(v.validate(&text("2024-01-31")).valid);
    assert!(v.validate(&text("2024-01-31T10:20:30Z")).valid);
    let r = v.validate(&text("yesterday"));
    assert_eq!(r.errors[0].code, ErrorCode::InvalidScalar);
    assert_eq!(r.errors[0].message, "'yesterday' is not a valid ISO 8601 timestamp");
    let r = v.validate(&Value::Bool(true));
    assert_eq!(
        r.errors[0].message,
        "expected timestamp (ISO 8601 string), got boolean"
    );
}

#[test]
fn custom_scalar_constraints() {
    let bundle = single(Schema::Scalar(ScalarKind::Custom {
        name: "Code".into(),
        constraints: ScalarConstraints {
            pattern: Some("^[A-Z]+$".into()),
            min_length: Some(2),
            max_length: Some(3),
        },
    }));
    let v = Validator::new(&bundle);
    assert!(v.validate(&text("AB")).valid);
    let r = v.validate(&text("a"));
    assert_eq!(r.errors.len(), 2);
    assert_eq!(r.errors[0].code, ErrorCode::PatternMismatch);
    assert_eq!(r.errors[1].schema_path, "/minLength");
    assert_eq!(r.errors[1].message, "string length 1 is below minimum 2");
    let r = v.validate(&text("ABCD"));
    assert_eq!(r.errors[0].message, "string length 4 exceeds maximum 3");
    let r = v.validate(&text("\u{e9}\u{e9}"));
    assert_eq!(r.errors.len(), 2);
    assert_eq!(r.errors[1].message, "string length 4 exceeds maximum 3");
}

#[test]
fn array_elements_paths() {
    let bundle = single(Schema::Array {
        elements: Box::new(Schema::Scalar(ScalarKind::Boolean)),
    });
    let v = Validator::new(&bundle);
    let r = v.validate(&Value::Array(vec![Value::Bool(true), int_value(1), Value::Null]));
    assert_eq!(r.errors.len(), 2);
    assert_eq!(r.errors[0].instance_path, "/1");
    assert_eq!(r.errors[0].schema_path, "/elements");
    assert_eq!(r.errors[1].instance_path, "/2");
    assert_eq!(r.errors[1].message, "expected boolean, got null");
    let r = v.validate(&obj(vec![]));
    assert_eq!(r.errors[0].message, "expected array, got object");
}

#[test]
fn values_map_and_additional_schema() {
    let bundle = single(Schema::Values {
        values: Box::new(Schema::Scalar(ScalarKind::Int { min: None, max: None })),
    });
    let r = Validator::new(&bundle).validate(&obj(vec![("a", int_value(1)), ("b", text("x"))]));
    assert_eq!(r.errors.len(), 1);
    assert_eq!(r.errors[0].instance_path, "/b");
    assert_eq!(r.errors[0].schema_path, "/values");
    let r = Validator::new(&bundle).validate(&Value::Array(vec![]));
    assert_eq!(r.errors[0].message, "expected object (map), got array");

    let extra = single(Schema::Object {
        required: OrderedMap::new(),
        optional: OrderedMap::new(),
        additional: AdditionalPolicy::AllowSchema(Box::new(Schema::Scalar(ScalarKind::Boolean))),
    });
    let r = Validator::new(&extra).validate(&obj(vec![("k", int_value(1))]));
    assert_eq!(r.errors[0].schema_path, "/additionalProperties");
    assert_eq!(r.errors[0].instance_path, "/k");
}

fn shapes_bundle() -> SchemaBundle {
    let mut bundle = SchemaBundle::new();
    bundle.insert(
        "Circle".into(),
        Schema::Object {
            required: props(vec![
                ("kind", string_type()),
                ("radius", Schema::Scalar(ScalarKind::Int { min: None, max: None })),
            ]),
            optional: OrderedMap::new(),
            additional: AdditionalPolicy::Reject,
        },
    );
    bundle.insert(
        "Square".into(),
        Schema::Object {
            required: props(vec![
                ("kind", string_type()),
                ("side", Schema::Scalar(ScalarKind::Int { min: None, max: None })),
            ]),
            optional: OrderedMap::new(),
            additional: AdditionalPolicy::Reject,
        },
    );
    bundle
}

#[test]
fn discriminated_union_dispatch() {
    let mut bundle = shapes_bundle();
    let mut mapping = OrderedMap::new();
    mapping.insert("circle".to_string(), Box::new(Schema::Ref { name: "Circle".into() }));
    mapping.insert("square".to_string(), Box::new(Schema::Ref { name: "Square".into() }));
    bundle.insert(
        "Shape".into(),
        Schema::DiscriminatedUnion {
            discriminator: "kind".into(),
            mapping,
        },
    );
    bundle.set_root("Shape");
    let v = Validator::new(&bundle);
    assert!(v
        .validate(&obj(vec![("kind", text("circle")), ("radius", int_value(2))]))
        .valid);
    let r = v.validate(&obj(vec![("kind", text("circle")), ("side", int_value(2))]));
    assert_eq!(r.errors.len(), 2);
    assert_eq!(r.errors[0].schema_path, "/mapping/circle/properties/radius");
    let r = v.validate(&obj(vec![("kind", text("hexagon"))]));
    assert_eq!(r.errors[0].code, ErrorCode::InvalidDiscriminatorValue);
    assert_eq!(r.errors[0].instance_path, "/kind");
    assert_eq!(
        r.errors[0].message,
        "discriminator value 'hexagon' not in mapping (expected one of: circle, square)"
    );
    let r = v.validate(&obj(vec![("kind", int_value(1))]));
    assert_eq!(r.errors[0].code, ErrorCode::RequiredPropertyMissing);
    assert_eq!(r.errors[0].schema_path, "/discriminator");
    assert_eq!(
        r.errors[0].message,
        "missing discriminator field 'kind' (must be a string)"
    );
}

#[test]
fn one_of_matching_rules() {
    let mut bundle = shapes_bundle();
    bundle.insert(
        "Shape".into(),
        Schema::OneOf {
            variants: vec![
                OneOfVariant {
                    label: "Circle".into(),
                    schema: Box::new(Schema::Ref { name: "Circle".into() }),
                },
                OneOfVariant {
                    label: "Square".into(),
                    schema: Box::new(Schema::Ref { name: "Square".into() }),
                },
            ],
        },
    );
    bundle.set_root("Shape");
    let v = Validator::new(&bundle);
    assert!(v
        .validate(&obj(vec![("kind", text("c")), ("radius", int_value(1))]))
        .valid);
    let r = v.validate(&obj(vec![("kind", text("c"))]));
    assert_eq!(r.errors.len(), 1);
    assert_eq!(r.errors[0].code, ErrorCode::NoMatchingVariant);
    assert_eq!(r.errors[0].schema_path, "/oneOf");
    assert_eq!(r.errors[0].hint.as_deref(), Some("expected one of: Circle, Square"));

    let mut open_bundle = shapes_bundle();
    open_bundle.insert(
        "Either".into(),
        Schema::OneOf {
            variants: vec![
                OneOfVariant {
                    label: "A".into(),
                    schema: Box::new(Schema::Any),
                },
                OneOfVariant {
                    label: "B".into(),
                    schema: Box::new(Schema::Any),
                },
            ],
        },
    );
    open_bundle.set_root("Either");
    let r = Validator::new(&open_bundle).validate(&int_value(1));
    assert_eq!(r.errors[0].code, ErrorCode::AmbiguousVariant);
    assert_eq!(r.errors[0].message, "ambiguous: multiple variants match (A, B)");
}

#[test]
fn max_depth_limits_references() {
    let mut bundle = SchemaBundle::new();
    bundle.insert("Loop".into(), Schema::Ref { name: "Loop".into() });
    bundle.set_root("Loop");
    let r = Validator::new(&bundle).with_max_depth(3).validate(&Value::Null);
    assert_eq!(r.errors.len(), 1);
    assert_eq!(r.errors[0].code, ErrorCode::MaxDepthExceeded);
    assert_eq!(r.errors[0].message, "max recursion depth (3) exceeded");
    assert_eq!(
        r.errors[0].hint.as_deref(),
        Some("check for deeply nested or recursive types")
    );
    let unresolved = single(Schema::Ref { name: "Gone".into() });
    let r = Validator::new(&unresolved).validate(&Value::Null);
    assert_eq!(r.errors[0].message, "unresolved type reference: 'Gone'");
}

#[test]
fn bundles_of_the_same_content_report_the_same_errors() {
    let first = simple_object_schema();
    let mut second = SchemaBundle::new();
    second.insert("Widget".into(), Schema::Any);
    second.set_root("Nothing");
    second.insert(
        "Widget".into(),
        Schema::Object {
            required: props(vec![
                ("name", string_type()),
                (
                    "count",
                    Schema::Scalar(ScalarKind::Int {
                        min: Some(0),
                        max: None,
                    }),
                ),
            ]),
            optional: props(vec![("tag", string_type())]),
            additional: AdditionalPolicy::Reject,
        },
    );
    second.set_root("Widget");
    let doc = obj(vec![
        ("count", int_value(-3)),
        ("tag", int_value(1)),
        ("extra", text("x")),
    ]);
    let a = Validator::new(&first).validate(&doc);
    let b = Validator::new(&second).validate(&doc);
    assert!(!a.valid);
    assert_eq!(a.errors.len(), 4);
    assert_eq!(a.errors, b.errors);
    assert_eq!(a.valid, b.valid);
}
