use graphql_ish_schema_validator::ir::{
    AdditionalPolicy, OneOfVariant, ScalarKind, Schema, SchemaBundle,
};
use graphql_ish_schema_validator::ordered_map::OrderedMap;

fn string_schema() -> Box<Schema> {
    Box::new(Schema::Scalar(ScalarKind::String { pattern: None }))
}

#[test]
fn schema_bundle_basic() {
    let mut bundle = SchemaBundle::new();
    bundle.insert(
        "Widget".into(),
        Schema::Object {
            required: {
                let mut m = OrderedMap::new();
                m.insert("name".into(), string_schema());
                m
            },
            optional: OrderedMap::new(),
            additional: AdditionalPolicy::Reject,
        },
    );
    bundle.set_root("Widget");

    assert!(bundle.root().is_some());
    assert!(bundle.resolve("Widget").is_some());
    assert!(bundle.resolve("NoSuchType").is_none());
}

#[test]
fn detect_simple_cycle() {
    let mut bundle = SchemaBundle::new();
    bundle.insert("A".into(), Schema::Ref { name: "B".into() });
    bundle.insert("B".into(), Schema::Ref { name: "A".into() });

    let cycles = bundle.detect_cycles();
    assert!(!cycles.is_empty());
}

#[test]
fn no_cycle_for_self_ref() {
    let mut bundle = SchemaBundle::new();
    bundle.insert(
        "Node".into(),
        Schema::Object {
            required: OrderedMap::new(),
            optional: {
                let mut m = OrderedMap::new();
                m.insert(
                    "children".into(),
                    Box::new(Schema::Array {
                        elements: Box::new(Schema::Ref {
                            name: "Node".into(),
                        }),
                    }),
                );
                m
            },
            additional: AdditionalPolicy::Reject,
        },
    );

    // A self-reference through an array is a cycle for the detector; the
    // validator's depth limit keeps it harmless.
    let cycles = bundle.detect_cycles();
    assert_eq!(cycles, vec![vec!["Node".to_string()]]);
}

#[test]
fn detect_cycles_lists_the_path() {
    let mut bundle = SchemaBundle::new();
    bundle.insert("A".into(), Schema::Ref { name: "B".into() });
    bundle.insert("B".into(), Schema::Ref { name: "A".into() });
    let cycles = bundle.detect_cycles();
    assert_eq!(cycles, vec![vec!["A".to_string(), "B".to_string()]]);
}

#[test]
fn detect_cycles_self_reference() {
    let mut bundle = SchemaBundle::new();
    bundle.insert(
        "Node".into(),
        Schema::Array {
            elements: Box::new(Schema::Ref { name: "Node".into() }),
        },
    );
    let cycles = bundle.detect_cycles();
    assert_eq!(cycles, vec![vec!["Node".to_string()]]);
}

#[test]
fn detect_cycles_none_for_acyclic() {
    let mut bundle = SchemaBundle::new();
    bundle.insert("A".into(), Schema::Ref { name: "B".into() });
    bundle.insert("B".into(), Schema::Scalar(ScalarKind::Boolean));
    bundle.insert("C".into(), Schema::Ref { name: "Missing".into() });
    assert!(bundle.detect_cycles().is_empty());
}

#[test]
fn detect_cycles_through_union_and_map() {
    let mut bundle = SchemaBundle::new();
    bundle.insert(
        "U".into(),
        Schema::OneOf {
            variants: vec![OneOfVariant {
                label: "V".into(),
                schema: Box::new(Schema::Ref { name: "V".into() }),
            }],
        },
    );
    bundle.insert(
        "V".into(),
        Schema::Values {
            values: Box::new(Schema::Ref { name: "U".into() }),
        },
    );
    let cycles = bundle.detect_cycles();
    assert_eq!(cycles, vec![vec!["U".to_string(), "V".to_string()]]);
}

#[test]
fn bundle_insert_replaces_in_place() {
    let mut bundle = SchemaBundle::new();
    bundle.insert("A".into(), Schema::Any);
    bundle.insert("B".into(), Schema::Any);
    bundle.insert("A".into(), Schema::Scalar(ScalarKind::Boolean));
    assert_eq!(bundle.schemas.len(), 2);
    assert_eq!(bundle.schemas.entries[0].0, "A");
    assert_eq!(
        bundle.resolve("A"),
        Some(&Schema::Scalar(ScalarKind::Boolean))
    );
}

#[test]
fn bundle_root_follows_root_name() {
    let mut bundle = SchemaBundle::new();
    assert!(bundle.root().is_none());
    bundle.set_root("Missing");
    assert!(bundle.root().is_none());
    bundle.insert("Missing".into(), Schema::Any);
    assert_eq!(bundle.root(), Some(&Schema::Any));
}

#[test]
fn ordered_map_insert_returns_previous() {
    let mut m: OrderedMap<u32> = OrderedMap::new();
    assert_eq!(m.insert("a".into(), 1), None);
    assert_eq!(m.insert("b".into(), 2), None);
    assert_eq!(m.insert("a".into(), 3), Some(1));
    assert_eq!(m.len(), 2);
    assert_eq!(m.get("a"), Some(&3));
    assert_eq!(m.index_of("b"), Some(1));
    assert!(!m.contains_key("c"));
}

#[test]
fn detect_cycles_reports_separate_cycles() {
    let mut bundle = SchemaBundle::new();
    bundle.insert("A".into(), Schema::Ref { name: "B".into() });
    bundle.insert("B".into(), Schema::Ref { name: "A".into() });
    bundle.insert("C".into(), Schema::Ref { name: "D".into() });
    bundle.insert("D".into(), Schema::Ref { name: "C".into() });
    let cycles = bundle.detect_cycles();
    assert_eq!(
        cycles,
        vec![
            vec!["A".to_string(), "B".to_string()],
            vec!["C".to_string(), "D".to_string()],
        ]
    );
}

#[test]
fn detect_cycles_one_per_return_to_a_grey_name() {
    // A refers to B and C, B to C, C to A. The search goes A, B, C and meets
    // A again (cycle A B C); back at A, C is already done.
    let mut bundle = SchemaBundle::new();
    let mut required = OrderedMap::new();
    required.insert("b".into(), Box::new(Schema::Ref { name: "B".into() }));
    required.insert("c".into(), Box::new(Schema::Ref { name: "C".into() }));
    bundle.insert(
        "A".into(),
        Schema::Object { required, optional: OrderedMap::new(), additional: AdditionalPolicy::Reject },
    );
    bundle.insert("B".into(), Schema::Ref { name: "C".into() });
    bundle.insert("C".into(), Schema::Ref { name: "A".into() });
    let cycles = bundle.detect_cycles();
    assert_eq!(cycles, vec![vec!["A".to_string(), "B".to_string(), "C".to_string()]]);
}
