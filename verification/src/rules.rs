//! What validating a value against a schema reports: the errors, in order,
//! with their paths, codes, messages and hints.
use crate::diagnostics::{ErrorCode, ErrorView, ValidationMode};
use crate::ir::{AdditionalPolicy, OneOfVariant, ScalarConstraints, ScalarKind, Schema, SchemaBundle};
use crate::numeric::{classify, double_gt, double_lt, double_text, integral_value, round_to_double, saturate};
use crate::ordered_map::{find_key, lookup};
use crate::pattern::{regex_compiles, regex_is_match};
use crate::pointer::render_spec;
use crate::text::{decimal, int_text, join, views};
use crate::value::{kind_name, Number, Value};
use vstd::prelude::*;

verus! {

/// An error at the given document and schema paths.
pub open spec fn err(
    ip: Seq<Seq<char>>,
    sp: Seq<Seq<char>>,
    code: ErrorCode,
    message: Seq<char>,
    hint: Option<Seq<char>>,
) -> ErrorView {
    ErrorView {
        instance_path: render_spec(ip),
        schema_path: render_spec(sp),
        code,
        message,
        hint,
    }
}

/// The error for a value of the wrong kind.
pub open spec fn mismatch(expected: Seq<char>, v: Value, ip: Seq<Seq<char>>, sp: Seq<Seq<char>>) -> ErrorView {
    err(ip, sp, ErrorCode::TypeMismatch, "expected "@ + expected + ", got "@ + kind_name(v), None)
}

/// The text of a range violation.
pub open spec fn range_message(val: Seq<char>, lo: Seq<char>, hi: Seq<char>) -> Seq<char> {
    "value "@ + val + " is out of range ["@ + lo + ", "@ + hi + "]"@
}

/// A lower bound as printed for integers.
pub open spec fn int_lower_text(b: Option<i64>) -> Seq<char> {
    match b {
        Some(x) => int_text(x as int),
        None => "\u{2212}\u{221e}"@,
    }
}

/// An upper bound as printed for integers.
pub open spec fn int_upper_text(b: Option<i64>) -> Seq<char> {
    match b {
        Some(x) => int_text(x as int),
        None => "\u{221e}"@,
    }
}

/// A lower bound as printed for floats.
pub open spec fn float_lower_text(b: Option<i64>) -> Seq<char> {
    match b {
        Some(x) => double_text(round_to_double(x as int)),
        None => "\u{2212}\u{221e}"@,
    }
}

/// An upper bound as printed for floats.
pub open spec fn float_upper_text(b: Option<i64>) -> Seq<char> {
    match b {
        Some(x) => double_text(round_to_double(x as int)),
        None => "\u{221e}"@,
    }
}

/// Range errors of an integer: one for a violated minimum, then one for a
/// violated maximum.
pub open spec fn int_range_errors(
    i: int,
    min: Option<i64>,
    max: Option<i64>,
    ip: Seq<Seq<char>>,
    sp: Seq<Seq<char>>,
) -> Seq<ErrorView> {
    let low = match min {
        Some(lo) => if i < lo {
            seq![
                err(
                    ip,
                    sp,
                    ErrorCode::ValueOutOfRange,
                    range_message(int_text(i), int_text(lo as int), int_upper_text(max)),
                    None,
                ),
            ]
        } else {
            Seq::empty()
        },
        None => Seq::empty(),
    };
    let high = match max {
        Some(hi) => if i > hi {
            seq![
                err(
                    ip,
                    sp,
                    ErrorCode::ValueOutOfRange,
                    range_message(int_text(i), int_lower_text(min), int_text(hi as int)),
                    None,
                ),
            ]
        } else {
            Seq::empty()
        },
        None => Seq::empty(),
    };
    low + high
}

/// Range errors of a float, given its text and how it compares with the
/// (double-converted) bounds.
pub open spec fn float_range_errors(
    val: Seq<char>,
    below_min: bool,
    above_max: bool,
    min: Option<i64>,
    max: Option<i64>,
    ip: Seq<Seq<char>>,
    sp: Seq<Seq<char>>,
) -> Seq<ErrorView> {
    let low = if min is Some && below_min {
        seq![
            err(
                ip,
                sp,
                ErrorCode::ValueOutOfRange,
                range_message(val, float_lower_text(min), float_upper_text(max)),
                None,
            ),
        ]
    } else {
        Seq::empty()
    };
    let high = if max is Some && above_max {
        seq![
            err(
                ip,
                sp,
                ErrorCode::ValueOutOfRange,
                range_message(val, float_lower_text(min), float_upper_text(max)),
                None,
            ),
        ]
    } else {
        Seq::empty()
    };
    low + high
}

/// The pattern a timestamp string must match.
pub open spec fn timestamp_pattern() -> Seq<char> {
    "^\\d{4}-\\d{2}-\\d{2}(T\\d{2}:\\d{2}:\\d{2})?"@
}

/// The error for a string that a pattern rejects (none when the pattern
/// does not compile or matches).
pub open spec fn pattern_errors(
    pat: Seq<char>,
    s: Seq<char>,
    ip: Seq<Seq<char>>,
    sp: Seq<Seq<char>>,
) -> Seq<ErrorView> {
    if regex_compiles(pat) && !regex_is_match(pat, s) {
        seq![
            err(
                ip,
                sp.push("pattern"@),
                ErrorCode::PatternMismatch,
                "string '"@ + s + "' does not match pattern '"@ + pat + "'"@,
                None,
            ),
        ]
    } else {
        Seq::empty()
    }
}

/// The UTF-8 length of a string, in bytes.
pub open spec fn byte_len(s: Seq<char>) -> usize {
    vstd::utf8::encode_utf8(s).len() as usize
}

/// Errors of a custom scalar's constraints on a string.
pub open spec fn custom_errors(
    c: ScalarConstraints,
    s: Seq<char>,
    ip: Seq<Seq<char>>,
    sp: Seq<Seq<char>>,
) -> Seq<ErrorView> {
    let pat = match c.pattern {
        Some(p) => pattern_errors(p@, s, ip, sp),
        None => Seq::empty(),
    };
    let short = match c.min_length {
        Some(min) => if byte_len(s) < min {
            seq![
                err(
                    ip,
                    sp.push("minLength"@),
                    ErrorCode::ValueOutOfRange,
                    "string length "@ + decimal(byte_len(s) as nat) + " is below minimum "@
                        + decimal(min as nat),
                    None,
                ),
            ]
        } else {
            Seq::empty()
        },
        None => Seq::empty(),
    };
    let long = match c.max_length {
        Some(max) => if byte_len(s) > max {
            seq![
                err(
                    ip,
                    sp.push("maxLength"@),
                    ErrorCode::ValueOutOfRange,
                    "string length "@ + decimal(byte_len(s) as nat) + " exceeds maximum "@
                        + decimal(max as nat),
                    None,
                ),
            ]
        } else {
            Seq::empty()
        },
        None => Seq::empty(),
    };
    pat + short + long
}

/// Errors of a scalar schema on a value.
pub open spec fn check_scalar(
    mode: ValidationMode,
    kind: ScalarKind,
    v: Value,
    ip: Seq<Seq<char>>,
    sp: Seq<Seq<char>>,
) -> Seq<ErrorView> {
    match kind {
        ScalarKind::String { pattern } => match v {
            Value::String(s) => match pattern {
                Some(p) => pattern_errors(p@, s@, ip, sp),
                None => Seq::empty(),
            },
            _ => seq![mismatch("string"@, v, ip, sp)],
        },
        ScalarKind::Boolean => if v is Bool {
            Seq::empty()
        } else {
            seq![mismatch("boolean"@, v, ip, sp)]
        },
        ScalarKind::Int { min, max } => match v {
            Value::Number(Number::Integer(i)) => int_range_errors(i as int, min, max, ip, sp),
            Value::Number(Number::Float(f)) => if mode == ValidationMode::Strict {
                seq![mismatch("integer"@, v, ip, sp)]
            } else {
                match integral_value(classify(f.bits)) {
                    Some(x) => int_range_errors(saturate(x), min, max, ip, sp),
                    None => seq![mismatch("integer"@, v, ip, sp)],
                }
            },
            _ => seq![mismatch("integer"@, v, ip, sp)],
        },
        ScalarKind::Float { min, max } => match v {
            Value::Number(Number::Float(f)) => float_range_errors(
                f.text@,
                min is Some && double_lt(classify(f.bits), round_to_double(min->Some_0 as int)),
                max is Some && double_gt(classify(f.bits), round_to_double(max->Some_0 as int)),
                min,
                max,
                ip,
                sp,
            ),
            Value::Number(Number::Integer(i)) => float_range_errors(
                double_text(round_to_double(i as int)),
                min is Some && round_to_double(i as int) < round_to_double(min->Some_0 as int),
                max is Some && round_to_double(i as int) > round_to_double(max->Some_0 as int),
                min,
                max,
                ip,
                sp,
            ),
            _ => seq![mismatch("float"@, v, ip, sp)],
        },
        ScalarKind::Timestamp => match v {
            Value::String(s) => if regex_compiles(timestamp_pattern()) && regex_is_match(
                timestamp_pattern(),
                s@,
            ) {
                Seq::empty()
            } else {
                seq![
                    err(
                        ip,
                        sp,
                        ErrorCode::InvalidScalar,
                        "'"@ + s@ + "' is not a valid ISO 8601 timestamp"@,
                        None,
                    ),
                ]
            },
            _ => seq![mismatch("timestamp (ISO 8601 string)"@, v, ip, sp)],
        },
        ScalarKind::Custom { name, constraints } => match v {
            Value::String(s) => custom_errors(constraints, s@, ip, sp),
            _ => seq![mismatch("string (custom scalar)"@, v, ip, sp)],
        },
    }
}

/// Errors of an enum schema on a value.
pub open spec fn check_enum(
    values: Seq<String>,
    v: Value,
    ip: Seq<Seq<char>>,
    sp: Seq<Seq<char>>,
) -> Seq<ErrorView> {
    match v {
        Value::String(s) => if views(values).contains(s@) {
            Seq::empty()
        } else {
            seq![
                err(
                    ip,
                    sp,
                    ErrorCode::InvalidEnumValue,
                    "'"@ + s@ + "' is not a valid enum value (expected one of: "@ + join(
                        views(values),
                        ", "@,
                    ) + ")"@,
                    None,
                ),
            ]
        },
        _ => seq![mismatch("string (enum)"@, v, ip, sp)],
    }
}

/// The depth budget left: the first component of the termination measure.
pub open spec fn budget(max_depth: nat, depth: nat) -> nat {
    if depth <= max_depth {
        (max_depth + 1 - depth) as nat
    } else {
        0
    }
}

/// The errors of validating `v` against `schema`, with `ip` and `sp` the
/// document and schema paths so far and `depth` the number of references
/// followed.
pub open spec fn check(
    b: SchemaBundle,
    mode: ValidationMode,
    max_depth: nat,
    schema: Schema,
    v: Value,
    ip: Seq<Seq<char>>,
    sp: Seq<Seq<char>>,
    depth: nat,
) -> Seq<ErrorView>
    decreases budget(max_depth, depth), schema, 0nat,
{
    if depth > max_depth {
        seq![
            err(
                ip,
                sp,
                ErrorCode::MaxDepthExceeded,
                "max recursion depth ("@ + decimal(max_depth) + ") exceeded"@,
                Some("check for deeply nested or recursive types"@),
            ),
        ]
    } else {
        match schema {
            Schema::Any => Seq::empty(),
            Schema::Scalar(kind) => check_scalar(mode, kind, v, ip, sp),
            Schema::Enum { values } => check_enum(values@, v, ip, sp),
            Schema::Array { elements } => match v {
                Value::Array(items) => check_items(
                    b,
                    mode,
                    max_depth,
                    *elements,
                    items@,
                    items@.len(),
                    ip,
                    sp,
                    depth,
                ),
                _ => seq![mismatch("array"@, v, ip, sp)],
            },
            Schema::Object { required, optional, additional } => match v {
                Value::Object(map) => check_required(
                    b,
                    mode,
                    max_depth,
                    required.entries@,
                    required.entries@.len(),
                    map.entries@,
                    ip,
                    sp,
                    depth,
                ) + check_optional(
                    b,
                    mode,
                    max_depth,
                    optional.entries@,
                    optional.entries@.len(),
                    map.entries@,
                    ip,
                    sp,
                    depth,
                ) + check_additional(
                    b,
                    mode,
                    max_depth,
                    additional,
                    required.entries@,
                    optional.entries@,
                    map.entries@,
                    map.entries@.len(),
                    ip,
                    sp,
                    depth,
                ),
                _ => seq![mismatch("object"@, v, ip, sp)],
            },
            Schema::Values { values } => match v {
                Value::Object(map) => check_values(
                    b,
                    mode,
                    max_depth,
                    *values,
                    map.entries@,
                    map.entries@.len(),
                    ip,
                    sp,
                    depth,
                ),
                _ => seq![mismatch("object (map)"@, v, ip, sp)],
            },
            Schema::DiscriminatedUnion { discriminator, mapping } => match v {
                Value::Object(map) => match lookup(map.entries@, discriminator@) {
                    Some(Value::String(tag)) => match find_key(mapping.entries@, tag@) {
                        Some(i) => {
                            proof {
                                crate::ordered_map::lemma_find_key(mapping.entries@, tag@);
                                assert(decreases_to!(schema => mapping));
                                assert(decreases_to!(mapping => mapping.entries));
                                assert(decreases_to!(mapping.entries => mapping.entries@));
                                assert(decreases_to!(mapping.entries@ => mapping.entries@[i]));
                            }
                            check(
                                b,
                                mode,
                                max_depth,
                                *mapping.entries@[i].1,
                                v,
                                ip,
                                sp + seq!["mapping"@, tag@],
                                depth,
                            )
                        },
                        None => seq![
                            err(
                                ip.push(discriminator@),
                                sp.push("mapping"@),
                                ErrorCode::InvalidDiscriminatorValue,
                                "discriminator value '"@ + tag@
                                    + "' not in mapping (expected one of: "@ + join(
                                    crate::ordered_map::keys_of(mapping.entries@),
                                    ", "@,
                                ) + ")"@,
                                None,
                            ),
                        ],
                    },
                    _ => seq![
                        err(
                            ip,
                            sp.push("discriminator"@),
                            ErrorCode::RequiredPropertyMissing,
                            "missing discriminator field '"@ + discriminator@
                                + "' (must be a string)"@,
                            None,
                        ),
                    ],
                },
                _ => seq![mismatch("object (discriminated union)"@, v, ip, sp)],
            },
            Schema::OneOf { variants } => {
                let matching = matching_variants(
                    b,
                    mode,
                    max_depth,
                    variants@,
                    variants@.len(),
                    v,
                    ip,
                    sp,
                    depth,
                );
                if matching.len() == 0 {
                    seq![
                        err(
                            ip,
                            sp.push("oneOf"@),
                            ErrorCode::NoMatchingVariant,
                            "no variant matches the value"@,
                            Some(
                                "expected one of: "@ + join(
                                    variants@.map_values(|x: OneOfVariant| x.label@),
                                    ", "@,
                                ),
                            ),
                        ),
                    ]
                } else if matching.len() == 1 {
                    Seq::empty()
                } else {
                    seq![
                        err(
                            ip,
                            sp.push("oneOf"@),
                            ErrorCode::AmbiguousVariant,
                            "ambiguous: multiple variants match ("@ + join(matching, ", "@) + ")"@,
                            Some("add more distinguishing fields to disambiguate variants"@),
                        ),
                    ]
                }
            },
            Schema::Ref { name } => match find_key(b.schemas.entries@, name@) {
                Some(i) => check(
                    b,
                    mode,
                    max_depth,
                    b.schemas.entries@[i].1,
                    v,
                    ip,
                    sp,
                    depth + 1,
                ),
                None => seq![
                    err(
                        ip,
                        sp,
                        ErrorCode::UnresolvedRef,
                        "unresolved type reference: '"@ + name@ + "'"@,
                        None,
                    ),
                ],
            },
        }
    }
}

/// Errors of the first `n` array items.
pub open spec fn check_items(
    b: SchemaBundle,
    mode: ValidationMode,
    max_depth: nat,
    elements: Schema,
    items: Seq<Value>,
    n: nat,
    ip: Seq<Seq<char>>,
    sp: Seq<Seq<char>>,
    depth: nat,
) -> Seq<ErrorView>
    decreases budget(max_depth, depth), elements, n,
{
    if n == 0 || n > items.len() {
        Seq::empty()
    } else {
        check_items(b, mode, max_depth, elements, items, (n - 1) as nat, ip, sp, depth) + check(
            b,
            mode,
            max_depth,
            elements,
            items[n - 1],
            ip.push(decimal((n - 1) as nat)),
            sp.push("elements"@),
            depth,
        )
    }
}

/// Errors of the first `n` required properties.
pub open spec fn check_required(
    b: SchemaBundle,
    mode: ValidationMode,
    max_depth: nat,
    props: Seq<(String, Box<Schema>)>,
    n: nat,
    map: Seq<(String, Value)>,
    ip: Seq<Seq<char>>,
    sp: Seq<Seq<char>>,
    depth: nat,
) -> Seq<ErrorView>
    decreases budget(max_depth, depth), props, n,
{
    if n == 0 || n > props.len() {
        Seq::empty()
    } else {
        let key = props[n - 1].0@;
        let ip2 = ip.push(key);
        let sp2 = sp + seq!["properties"@, key];
        check_required(b, mode, max_depth, props, (n - 1) as nat, map, ip, sp, depth) + match lookup(
            map,
            key,
        ) {
            Some(x) => {
                proof {
                    assert(decreases_to!(props => props[n - 1]));
                }
                check(b, mode, max_depth, *props[n - 1].1, x, ip2, sp2, depth)
            },
            None => seq![
                err(
                    ip2,
                    sp2,
                    ErrorCode::RequiredPropertyMissing,
                    "required property '"@ + key + "' is missing"@,
                    None,
                ),
            ],
        }
    }
}

/// Errors of the first `n` optional properties.
pub open spec fn check_optional(
    b: SchemaBundle,
    mode: ValidationMode,
    max_depth: nat,
    props: Seq<(String, Box<Schema>)>,
    n: nat,
    map: Seq<(String, Value)>,
    ip: Seq<Seq<char>>,
    sp: Seq<Seq<char>>,
    depth: nat,
) -> Seq<ErrorView>
    decreases budget(max_depth, depth), props, n,
{
    if n == 0 || n > props.len() {
        Seq::empty()
    } else {
        let key = props[n - 1].0@;
        check_optional(b, mode, max_depth, props, (n - 1) as nat, map, ip, sp, depth) + match lookup(
            map,
            key,
        ) {
            Some(x) => {
                proof {
                    assert(decreases_to!(props => props[n - 1]));
                }
                check(
                    b,
                    mode,
                    max_depth,
                    *props[n - 1].1,
                    x,
                    ip.push(key),
                    sp + seq!["optionalProperties"@, key],
                    depth,
                )
            },
            None => Seq::empty(),
        }
    }
}

/// Errors of the first `n` document keys that the object schema does not
/// name.
pub open spec fn check_additional(
    b: SchemaBundle,
    mode: ValidationMode,
    max_depth: nat,
    policy: AdditionalPolicy,
    required: Seq<(String, Box<Schema>)>,
    optional: Seq<(String, Box<Schema>)>,
    map: Seq<(String, Value)>,
    n: nat,
    ip: Seq<Seq<char>>,
    sp: Seq<Seq<char>>,
    depth: nat,
) -> Seq<ErrorView>
    decreases budget(max_depth, depth), policy, n,
{
    if n == 0 || n > map.len() {
        Seq::empty()
    } else {
        let key = map[n - 1].0@;
        let earlier = check_additional(
            b,
            mode,
            max_depth,
            policy,
            required,
            optional,
            map,
            (n - 1) as nat,
            ip,
            sp,
            depth,
        );
        if find_key(required, key) is Some || find_key(optional, key) is Some {
            earlier
        } else {
            earlier + match policy {
                AdditionalPolicy::Reject => if mode == ValidationMode::Strict {
                    seq![
                        err(
                            ip.push(key),
                            sp.push("additionalProperties"@),
                            ErrorCode::UnknownProperty,
                            "unknown property '"@ + key + "' (schema is closed)"@,
                            None,
                        ),
                    ]
                } else {
                    Seq::empty()
                },
                AdditionalPolicy::AllowAny => Seq::empty(),
                AdditionalPolicy::AllowSchema(s) => check(
                    b,
                    mode,
                    max_depth,
                    *s,
                    map[n - 1].1,
                    ip.push(key),
                    sp.push("additionalProperties"@),
                    depth,
                ),
            }
        }
    }
}

/// Errors of the first `n` entries of a map value.
pub open spec fn check_values(
    b: SchemaBundle,
    mode: ValidationMode,
    max_depth: nat,
    values: Schema,
    map: Seq<(String, Value)>,
    n: nat,
    ip: Seq<Seq<char>>,
    sp: Seq<Seq<char>>,
    depth: nat,
) -> Seq<ErrorView>
    decreases budget(max_depth, depth), values, n,
{
    if n == 0 || n > map.len() {
        Seq::empty()
    } else {
        check_values(b, mode, max_depth, values, map, (n - 1) as nat, ip, sp, depth) + check(
            b,
            mode,
            max_depth,
            values,
            map[n - 1].1,
            ip.push(map[n - 1].0@),
            sp.push("values"@),
            depth,
        )
    }
}

/// Whether every required key of an object schema is present in the map.
pub open spec fn has_required_keys(
    required: Seq<(String, Box<Schema>)>,
    map: Seq<(String, Value)>,
) -> bool {
    forall|i: int| 0 <= i < required.len() ==> #[trigger] find_key(map, required[i].0@) is Some
}

/// Whether a variant is passed over without validation: an object variant
/// whose required keys are not all present (or a non-object value).
pub open spec fn variant_skipped(schema: Schema, v: Value) -> bool {
    match schema {
        Schema::Object { required, .. } => match v {
            Value::Object(map) => !has_required_keys(required.entries@, map.entries@),
            _ => true,
        },
        _ => false,
    }
}

/// The labels of the first `n` variants that accept `v`.
pub open spec fn matching_variants(
    b: SchemaBundle,
    mode: ValidationMode,
    max_depth: nat,
    variants: Seq<OneOfVariant>,
    n: nat,
    v: Value,
    ip: Seq<Seq<char>>,
    sp: Seq<Seq<char>>,
    depth: nat,
) -> Seq<Seq<char>>
    decreases budget(max_depth, depth), variants, n,
{
    if n == 0 || n > variants.len() {
        Seq::empty()
    } else {
        let var = variants[n - 1];
        let earlier = matching_variants(
            b,
            mode,
            max_depth,
            variants,
            (n - 1) as nat,
            v,
            ip,
            sp,
            depth,
        );
        if variant_skipped(*var.schema, v) {
            earlier
        } else {
            proof {
                assert(decreases_to!(variants => variants[n - 1]));
            }
            if check(
                b,
                mode,
                max_depth,
                *var.schema,
                v,
                ip,
                sp + seq!["oneOf"@, decimal((n - 1) as nat)],
                depth,
            ).len() == 0 {
                earlier.push(var.label@)
            } else {
                earlier
            }
        }
    }
}

/// Whether no error in the list has the code.
pub open spec fn lacks_code(errs: Seq<ErrorView>, code: ErrorCode) -> bool {
    forall|i: int| 0 <= i < errs.len() ==> (#[trigger] errs[i]).code != code
}

proof fn lemma_lacks_concat(a: Seq<ErrorView>, b: Seq<ErrorView>, code: ErrorCode)
    requires
        lacks_code(a, code),
        lacks_code(b, code),
    ensures
        lacks_code(a + b, code),
{
    assert forall|i: int| 0 <= i < (a + b).len() implies (#[trigger] (a + b)[i]).code != code by {
        if i < a.len() {
            assert((a + b)[i] == a[i]);
        } else {
            assert((a + b)[i] == b[i - a.len()]);
        }
    }
}

proof fn lemma_scalar_no_unknown(
    mode: ValidationMode,
    kind: ScalarKind,
    v: Value,
    ip: Seq<Seq<char>>,
    sp: Seq<Seq<char>>,
)
    ensures
        lacks_code(check_scalar(mode, kind, v, ip, sp), ErrorCode::UnknownProperty),
{
    let errs = check_scalar(mode, kind, v, ip, sp);
    assert forall|i: int| 0 <= i < errs.len() implies (#[trigger] errs[i]).code
        != ErrorCode::UnknownProperty by {
        match kind {
            ScalarKind::Custom { name, constraints } => {
                if v is String {
                    let s = v->String_0@;
                    let pat = match constraints.pattern {
                        Some(p) => pattern_errors(p@, s, ip, sp),
                        None => Seq::empty(),
                    };
                    let rest = custom_errors(constraints, s, ip, sp);
                    assert(rest == pat + (rest.skip(pat.len() as int)));
                }
            },
            _ => {},
        }
    }
}

/// In open mode, validating against a schema never reports an unknown
/// property (with the items, properties, entries and values below).
pub proof fn lemma_open_check(
    b: SchemaBundle,
    max_depth: nat,
    schema: Schema,
    v: Value,
    ip: Seq<Seq<char>>,
    sp: Seq<Seq<char>>,
    depth: nat,
)
    ensures
        lacks_code(
            check(b, ValidationMode::Open, max_depth, schema, v, ip, sp, depth),
            ErrorCode::UnknownProperty,
        ),
    decreases budget(max_depth, depth), schema, 0nat,
{
    let mode = ValidationMode::Open;
    if depth <= max_depth {
        match schema {
            Schema::Scalar(kind) => lemma_scalar_no_unknown(mode, kind, v, ip, sp),
            Schema::Array { elements } => {
                if v is Array {
                    let items = v->Array_0@;
                    lemma_open_items(b, max_depth, *elements, items, items.len(), ip, sp, depth);
                }
            },
            Schema::Object { required, optional, additional } => {
                if v is Object {
                    let map = v->Object_0.entries@;
                    lemma_open_required(
                        b,
                        max_depth,
                        required.entries@,
                        required.entries@.len(),
                        map,
                        ip,
                        sp,
                        depth,
                    );
                    lemma_open_optional(
                        b,
                        max_depth,
                        optional.entries@,
                        optional.entries@.len(),
                        map,
                        ip,
                        sp,
                        depth,
                    );
                    lemma_open_additional(
                        b,
                        max_depth,
                        additional,
                        required.entries@,
                        optional.entries@,
                        map,
                        map.len(),
                        ip,
                        sp,
                        depth,
                    );
                    let a = check_required(
                        b,
                        mode,
                        max_depth,
                        required.entries@,
                        required.entries@.len(),
                        map,
                        ip,
                        sp,
                        depth,
                    );
                    let o = check_optional(
                        b,
                        mode,
                        max_depth,
                        optional.entries@,
                        optional.entries@.len(),
                        map,
                        ip,
                        sp,
                        depth,
                    );
                    let c = check_additional(
                        b,
                        mode,
                        max_depth,
                        additional,
                        required.entries@,
                        optional.entries@,
                        map,
                        map.len(),
                        ip,
                        sp,
                        depth,
                    );
                    lemma_lacks_concat(a, o, ErrorCode::UnknownProperty);
                    lemma_lacks_concat(a + o, c, ErrorCode::UnknownProperty);
                }
            },
            Schema::Values { values } => {
                if v is Object {
                    let map = v->Object_0.entries@;
                    lemma_open_values(b, max_depth, *values, map, map.len(), ip, sp, depth);
                }
            },
            Schema::DiscriminatedUnion { discriminator, mapping } => {
                if v is Object {
                    let map = v->Object_0.entries@;
                    match lookup(map, discriminator@) {
                        Some(Value::String(tag)) => match find_key(mapping.entries@, tag@) {
                            Some(i) => {
                                crate::ordered_map::lemma_find_key(mapping.entries@, tag@);
                                assert(decreases_to!(schema => mapping));
                                assert(decreases_to!(mapping => mapping.entries));
                                assert(decreases_to!(mapping.entries => mapping.entries@));
                                assert(decreases_to!(mapping.entries@ => mapping.entries@[i]));
                                lemma_open_check(
                                    b,
                                    max_depth,
                                    *mapping.entries@[i].1,
                                    v,
                                    ip,
                                    sp + seq!["mapping"@, tag@],
                                    depth,
                                );
                            },
                            None => {},
                        },
                        _ => {},
                    }
                }
            },
            Schema::Ref { name } => {
                match find_key(b.schemas.entries@, name@) {
                    Some(i) => {
                        lemma_open_check(
                            b,
                            max_depth,
                            b.schemas.entries@[i].1,
                            v,
                            ip,
                            sp,
                            depth + 1,
                        );
                    },
                    None => {},
                }
            },
            _ => {},
        }
    }
}

proof fn lemma_open_items(
    b: SchemaBundle,
    max_depth: nat,
    elements: Schema,
    items: Seq<Value>,
    n: nat,
    ip: Seq<Seq<char>>,
    sp: Seq<Seq<char>>,
    depth: nat,
)
    ensures
        lacks_code(
            check_items(b, ValidationMode::Open, max_depth, elements, items, n, ip, sp, depth),
            ErrorCode::UnknownProperty,
        ),
    decreases budget(max_depth, depth), elements, n,
{
    if n > 0 && n <= items.len() {
        lemma_open_items(b, max_depth, elements, items, (n - 1) as nat, ip, sp, depth);
        lemma_open_check(
            b,
            max_depth,
            elements,
            items[n - 1],
            ip.push(decimal((n - 1) as nat)),
            sp.push("elements"@),
            depth,
        );
        lemma_lacks_concat(
            check_items(
                b,
                ValidationMode::Open,
                max_depth,
                elements,
                items,
                (n - 1) as nat,
                ip,
                sp,
                depth,
            ),
            check(
                b,
                ValidationMode::Open,
                max_depth,
                elements,
                items[n - 1],
                ip.push(decimal((n - 1) as nat)),
                sp.push("elements"@),
                depth,
            ),
            ErrorCode::UnknownProperty,
        );
    }
}

proof fn lemma_open_required(
    b: SchemaBundle,
    max_depth: nat,
    props: Seq<(String, Box<Schema>)>,
    n: nat,
    map: Seq<(String, Value)>,
    ip: Seq<Seq<char>>,
    sp: Seq<Seq<char>>,
    depth: nat,
)
    ensures
        lacks_code(
            check_required(b, ValidationMode::Open, max_depth, props, n, map, ip, sp, depth),
            ErrorCode::UnknownProperty,
        ),
    decreases budget(max_depth, depth), props, n,
{
    if n > 0 && n <= props.len() {
        let key = props[n - 1].0@;
        lemma_open_required(b, max_depth, props, (n - 1) as nat, map, ip, sp, depth);
        let earlier = check_required(
            b,
            ValidationMode::Open,
            max_depth,
            props,
            (n - 1) as nat,
            map,
            ip,
            sp,
            depth,
        );
        match lookup(map, key) {
            Some(x) => {
                assert(decreases_to!(props => props[n - 1]));
                lemma_open_check(
                    b,
                    max_depth,
                    *props[n - 1].1,
                    x,
                    ip.push(key),
                    sp + seq!["properties"@, key],
                    depth,
                );
                lemma_lacks_concat(
                    earlier,
                    check(
                        b,
                        ValidationMode::Open,
                        max_depth,
                        *props[n - 1].1,
                        x,
                        ip.push(key),
                        sp + seq!["properties"@, key],
                        depth,
                    ),
                    ErrorCode::UnknownProperty,
                );
            },
            None => {
                let e = seq![
                    err(
                        ip.push(key),
                        sp + seq!["properties"@, key],
                        ErrorCode::RequiredPropertyMissing,
                        "required property '"@ + key + "' is missing"@,
                        None,
                    ),
                ];
                lemma_lacks_concat(earlier, e, ErrorCode::UnknownProperty);
            },
        }
    }
}

proof fn lemma_open_optional(
    b: SchemaBundle,
    max_depth: nat,
    props: Seq<(String, Box<Schema>)>,
    n: nat,
    map: Seq<(String, Value)>,
    ip: Seq<Seq<char>>,
    sp: Seq<Seq<char>>,
    depth: nat,
)
    ensures
        lacks_code(
            check_optional(b, ValidationMode::Open, max_depth, props, n, map, ip, sp, depth),
            ErrorCode::UnknownProperty,
        ),
    decreases budget(max_depth, depth), props, n,
{
    if n > 0 && n <= props.len() {
        let key = props[n - 1].0@;
        lemma_open_optional(b, max_depth, props, (n - 1) as nat, map, ip, sp, depth);
        let earlier = check_optional(
            b,
            ValidationMode::Open,
            max_depth,
            props,
            (n - 1) as nat,
            map,
            ip,
            sp,
            depth,
        );
        match lookup(map, key) {
            Some(x) => {
                assert(decreases_to!(props => props[n - 1]));
                lemma_open_check(
                    b,
                    max_depth,
                    *props[n - 1].1,
                    x,
                    ip.push(key),
                    sp + seq!["optionalProperties"@, key],
                    depth,
                );
                lemma_lacks_concat(
                    earlier,
                    check(
                        b,
                        ValidationMode::Open,
                        max_depth,
                        *props[n - 1].1,
                        x,
                        ip.push(key),
                        sp + seq!["optionalProperties"@, key],
                        depth,
                    ),
                    ErrorCode::UnknownProperty,
                );
            },
            None => {
                lemma_lacks_concat(earlier, Seq::empty(), ErrorCode::UnknownProperty);
            },
        }
    }
}

proof fn lemma_open_additional(
    b: SchemaBundle,
    max_depth: nat,
    policy: AdditionalPolicy,
    required: Seq<(String, Box<Schema>)>,
    optional: Seq<(String, Box<Schema>)>,
    map: Seq<(String, Value)>,
    n: nat,
    ip: Seq<Seq<char>>,
    sp: Seq<Seq<char>>,
    depth: nat,
)
    ensures
        lacks_code(
            check_additional(
                b,
                ValidationMode::Open,
                max_depth,
                policy,
                required,
                optional,
                map,
                n,
                ip,
                sp,
                depth,
            ),
            ErrorCode::UnknownProperty,
        ),
    decreases budget(max_depth, depth), policy, n,
{
    if n > 0 && n <= map.len() {
        let key = map[n - 1].0@;
        lemma_open_additional(
            b,
            max_depth,
            policy,
            required,
            optional,
            map,
            (n - 1) as nat,
            ip,
            sp,
            depth,
        );
        let earlier = check_additional(
            b,
            ValidationMode::Open,
            max_depth,
            policy,
            required,
            optional,
            map,
            (n - 1) as nat,
            ip,
            sp,
            depth,
        );
        if !(find_key(required, key) is Some || find_key(optional, key) is Some) {
            match policy {
                AdditionalPolicy::AllowSchema(s) => {
                    lemma_open_check(
                        b,
                        max_depth,
                        *s,
                        map[n - 1].1,
                        ip.push(key),
                        sp.push("additionalProperties"@),
                        depth,
                    );
                    lemma_lacks_concat(
                        earlier,
                        check(
                            b,
                            ValidationMode::Open,
                            max_depth,
                            *s,
                            map[n - 1].1,
                            ip.push(key),
                            sp.push("additionalProperties"@),
                            depth,
                        ),
                        ErrorCode::UnknownProperty,
                    );
                },
                _ => {
                    lemma_lacks_concat(earlier, Seq::empty(), ErrorCode::UnknownProperty);
                },
            }
        }
    }
}

proof fn lemma_open_values(
    b: SchemaBundle,
    max_depth: nat,
    values: Schema,
    map: Seq<(String, Value)>,
    n: nat,
    ip: Seq<Seq<char>>,
    sp: Seq<Seq<char>>,
    depth: nat,
)
    ensures
        lacks_code(
            check_values(b, ValidationMode::Open, max_depth, values, map, n, ip, sp, depth),
            ErrorCode::UnknownProperty,
        ),
    decreases budget(max_depth, depth), values, n,
{
    if n > 0 && n <= map.len() {
        lemma_open_values(b, max_depth, values, map, (n - 1) as nat, ip, sp, depth);
        lemma_open_check(
            b,
            max_depth,
            values,
            map[n - 1].1,
            ip.push(map[n - 1].0@),
            sp.push("values"@),
            depth,
        );
        lemma_lacks_concat(
            check_values(
                b,
                ValidationMode::Open,
                max_depth,
                values,
                map,
                (n - 1) as nat,
                ip,
                sp,
                depth,
            ),
            check(
                b,
                ValidationMode::Open,
                max_depth,
                values,
                map[n - 1].1,
                ip.push(map[n - 1].0@),
                sp.push("values"@),
                depth,
            ),
            ErrorCode::UnknownProperty,
        );
    }
}


proof fn lemma_find_key_push_other<V>(m: Seq<(String, V)>, e: (String, V), k: Seq<char>)
    requires
        e.0@ != k,
    ensures
        find_key(m.push(e), k) == find_key(m, k),
{
    assert(m.push(e).drop_last() =~= m);
    crate::ordered_map::lemma_find_key(m, k);
    match find_key(m, k) {
        Some(i) => {
            assert(m.push(e)[i] == m[i]);
        },
        None => {},
    }
}

proof fn lemma_allow_any_adds_nothing(
    b: SchemaBundle,
    mode: ValidationMode,
    max_depth: nat,
    required: Seq<(String, Box<Schema>)>,
    optional: Seq<(String, Box<Schema>)>,
    map: Seq<(String, Value)>,
    n: nat,
    ip: Seq<Seq<char>>,
    sp: Seq<Seq<char>>,
    depth: nat,
)
    ensures
        check_additional(
            b,
            mode,
            max_depth,
            AdditionalPolicy::AllowAny,
            required,
            optional,
            map,
            n,
            ip,
            sp,
            depth,
        ) == Seq::<ErrorView>::empty(),
    decreases n,
{
    if n > 0 && n <= map.len() {
        lemma_allow_any_adds_nothing(b, mode, max_depth, required, optional, map, (n - 1) as nat, ip, sp, depth);
    }
}

proof fn lemma_required_extra_key(
    b: SchemaBundle,
    mode: ValidationMode,
    max_depth: nat,
    props: Seq<(String, Box<Schema>)>,
    n: nat,
    map: Seq<(String, Value)>,
    e: (String, Value),
    ip: Seq<Seq<char>>,
    sp: Seq<Seq<char>>,
    depth: nat,
)
    requires
        find_key(props, e.0@) is None,
    ensures
        check_required(b, mode, max_depth, props, n, map.push(e), ip, sp, depth)
            == check_required(b, mode, max_depth, props, n, map, ip, sp, depth),
    decreases n,
{
    if n > 0 && n <= props.len() {
        crate::ordered_map::lemma_find_key(props, e.0@);
        lemma_required_extra_key(b, mode, max_depth, props, (n - 1) as nat, map, e, ip, sp, depth);
        lemma_find_key_push_other(map, e, props[n - 1].0@);
        crate::ordered_map::lemma_find_key(map, props[n - 1].0@);
        match find_key(map, props[n - 1].0@) {
            Some(i) => {
                assert(map.push(e)[i] == map[i]);
            },
            None => {},
        }
    }
}

proof fn lemma_optional_extra_key(
    b: SchemaBundle,
    mode: ValidationMode,
    max_depth: nat,
    props: Seq<(String, Box<Schema>)>,
    n: nat,
    map: Seq<(String, Value)>,
    e: (String, Value),
    ip: Seq<Seq<char>>,
    sp: Seq<Seq<char>>,
    depth: nat,
)
    requires
        find_key(props, e.0@) is None,
    ensures
        check_optional(b, mode, max_depth, props, n, map.push(e), ip, sp, depth)
            == check_optional(b, mode, max_depth, props, n, map, ip, sp, depth),
    decreases n,
{
    if n > 0 && n <= props.len() {
        crate::ordered_map::lemma_find_key(props, e.0@);
        lemma_optional_extra_key(b, mode, max_depth, props, (n - 1) as nat, map, e, ip, sp, depth);
        lemma_find_key_push_other(map, e, props[n - 1].0@);
        crate::ordered_map::lemma_find_key(map, props[n - 1].0@);
        match find_key(map, props[n - 1].0@) {
            Some(i) => {
                assert(map.push(e)[i] == map[i]);
            },
            None => {},
        }
    }
}

/// An object schema that allows any additional key (`@open`) reports the
/// same errors, in every mode, for a document and for that document with
/// one more key that the schema names neither as required nor as
/// optional: an unnamed key is never an error there.
pub proof fn law_allow_any_ignores_unnamed_keys(
    b: SchemaBundle,
    mode: ValidationMode,
    max_depth: nat,
    schema: Schema,
    v: Value,
    w: Value,
    e: (String, Value),
    ip: Seq<Seq<char>>,
    sp: Seq<Seq<char>>,
    depth: nat,
)
    requires
        schema matches Schema::Object { required, optional, additional } && additional
            == AdditionalPolicy::AllowAny && find_key(required.entries@, e.0@) is None && find_key(
            optional.entries@,
            e.0@,
        ) is None,
        v matches Value::Object(m) && w matches Value::Object(m2) && m2.entries@ == m.entries@.push(
            e,
        ),
    ensures
        check(b, mode, max_depth, schema, w, ip, sp, depth) == check(
            b,
            mode,
            max_depth,
            schema,
            v,
            ip,
            sp,
            depth,
        ),
{
    if depth <= max_depth {
        match schema {
            Schema::Object { required, optional, .. } => match v {
                Value::Object(m) => match w {
                    Value::Object(m2) => {
                        let r = required.entries@;
                        let o = optional.entries@;
                        lemma_required_extra_key(b, mode, max_depth, r, r.len(), m.entries@, e, ip, sp, depth);
                        lemma_optional_extra_key(b, mode, max_depth, o, o.len(), m.entries@, e, ip, sp, depth);
                        lemma_allow_any_adds_nothing(
                            b,
                            mode,
                            max_depth,
                            r,
                            o,
                            m.entries@,
                            m.entries@.len(),
                            ip,
                            sp,
                            depth,
                        );
                        lemma_allow_any_adds_nothing(
                            b,
                            mode,
                            max_depth,
                            r,
                            o,
                            m2.entries@,
                            m2.entries@.len(),
                            ip,
                            sp,
                            depth,
                        );
                    },
                    _ => {},
                },
                _ => {},
            },
            _ => {},
        }
    }
}

} // verus!
