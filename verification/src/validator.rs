//! Validation of documents against a schema bundle, by recursive descent.
use crate::diagnostics::{
    error_views, opt_view, ErrorCode, ErrorView, ValidationError, ValidationMode, ValidationResult,
};
use crate::ir::{
    resolve_spec, root_spec, AdditionalPolicy, OneOfVariant, ScalarKind, Schema, SchemaBundle,
};
use crate::numeric::{double_text_of, float_gt, float_integral, float_lt, i64_to_double};
use crate::ordered_map::{find_key, keys_of, lemma_find_key, lookup, OrderedMap};
use crate::pattern::{compile_pattern, pattern_is_match, pattern_matches};
use crate::pointer::{render_spec, JsonPointer};
use crate::rules::{
    budget, check, check_additional, check_enum, check_items, check_optional, check_required,
    check_scalar, check_values, custom_errors, err, float_lower_text, float_range_errors,
    float_upper_text, has_required_keys, int_lower_text, int_range_errors, int_upper_text,
    matching_variants, mismatch, pattern_errors, range_message, timestamp_pattern,
    variant_skipped,
};
use crate::text::{
    decimal, i64_text, int_text, join, join_strings, push_decimal, push_str, str_eq, to_string,
    usize_text, views,
};
use crate::value::{value_kind_name, FloatNumber, Number, Value};
use vstd::prelude::*;

verus! {

/// Schema validator with recursive descent.
pub struct Validator<'a> {
    bundle: &'a SchemaBundle,
    mode: ValidationMode,
    max_depth: usize,
}

/// What validating `v` against the bundle's root schema reports.
pub open spec fn validate_spec(
    b: SchemaBundle,
    mode: ValidationMode,
    max_depth: nat,
    v: Value,
) -> Seq<ErrorView> {
    match root_spec(b) {
        Some(s) => check(b, mode, max_depth, s, v, Seq::empty(), Seq::empty(), 0),
        None => seq![
            err(
                Seq::empty(),
                Seq::empty(),
                ErrorCode::UnresolvedRef,
                "no root schema defined in bundle"@,
                None,
            ),
        ],
    }
}

/// What validating `v` against the bundle's schema `name` reports.
pub open spec fn validate_named_spec(
    b: SchemaBundle,
    mode: ValidationMode,
    max_depth: nat,
    name: Seq<char>,
    v: Value,
) -> Seq<ErrorView> {
    match resolve_spec(b, name) {
        Some(s) => check(b, mode, max_depth, s, v, Seq::empty(), Seq::empty(), 0),
        None => seq![
            err(
                Seq::empty(),
                Seq::empty(),
                ErrorCode::UnresolvedRef,
                "unknown schema: '"@ + name + "'"@,
                None,
            ),
        ],
    }
}

proof fn lemma_assoc(a: Seq<ErrorView>, b: Seq<ErrorView>, c: Seq<ErrorView>)
    ensures
        a + b + c == a + (b + c),
{
    assert(a + b + c =~= a + (b + c));
}

fn push_error(errors: &mut Vec<ValidationError>, e: ValidationError)
    ensures
        error_views(final(errors)@) == error_views(old(errors)@).push(e@),
{
    errors.push(e);
    assert(error_views(errors@) =~= error_views(old(errors)@).push(e@));
}

fn make_error(
    ip: &JsonPointer,
    sp: &JsonPointer,
    code: ErrorCode,
    message: String,
    hint: Option<String>,
) -> (e: ValidationError)
    ensures
        e@ == err(ip@, sp@, code, message@, opt_view(hint)),
{
    ValidationError {
        instance_path: ip.render(),
        schema_path: sp.render(),
        code,
        message,
        hint,
    }
}

fn concat3(a: &str, b: &str, c: &str) -> (r: String)
    ensures
        r@ == a@ + b@ + c@,
{
    let mut s = to_string(a);
    push_str(&mut s, b);
    push_str(&mut s, c);
    s
}

fn mismatch_error(expected: &str, v: &Value, ip: &JsonPointer, sp: &JsonPointer) -> (e:
    ValidationError)
    ensures
        e@ == mismatch(expected@, *v, ip@, sp@),
{
    let mut m = concat3("expected ", expected, ", got ");
    push_str(&mut m, value_kind_name(v));
    make_error(ip, sp, ErrorCode::TypeMismatch, m, None)
}

fn range_text(val: &str, lo: &str, hi: &str) -> (r: String)
    ensures
        r@ == range_message(val@, lo@, hi@),
{
    let mut m = concat3("value ", val, " is out of range [");
    push_str(&mut m, lo);
    push_str(&mut m, ", ");
    push_str(&mut m, hi);
    push_str(&mut m, "]");
    m
}

fn int_bound_text(b: Option<i64>, upper: bool) -> (r: String)
    ensures
        r@ == if upper {
            int_upper_text(b)
        } else {
            int_lower_text(b)
        },
{
    match b {
        Some(x) => i64_text(x),
        None => if upper {
            to_string("\u{221e}")
        } else {
            to_string("\u{2212}\u{221e}")
        },
    }
}

fn float_bound_text(b: Option<i64>, upper: bool) -> (r: String)
    ensures
        r@ == if upper {
            float_upper_text(b)
        } else {
            float_lower_text(b)
        },
{
    match b {
        Some(x) => double_text_of(i64_to_double(x)),
        None => if upper {
            to_string("\u{221e}")
        } else {
            to_string("\u{2212}\u{221e}")
        },
    }
}

fn push_int_range_errors(
    i: i64,
    min: Option<i64>,
    max: Option<i64>,
    ip: &JsonPointer,
    sp: &JsonPointer,
    errors: &mut Vec<ValidationError>,
)
    ensures
        error_views(final(errors)@) == error_views(old(errors)@) + int_range_errors(
            i as int,
            min,
            max,
            ip@,
            sp@,
        ),
{
    let ghost base = error_views(errors@);
    let ghost low: Seq<ErrorView> = Seq::empty();
    if let Some(lo) = min {
        if i < lo {
            let it = i64_text(i);
            let lt = i64_text(lo);
            let ht = int_bound_text(max, true);
            let m = range_text(it.as_str(), lt.as_str(), ht.as_str());
            let e = make_error(ip, sp, ErrorCode::ValueOutOfRange, m, None);
            proof {
                low = seq![e@];
            }
            push_error(errors, e);
        }
    }
    assert(error_views(errors@) == base + low);
    let ghost high: Seq<ErrorView> = Seq::empty();
    if let Some(hi) = max {
        if i > hi {
            let it = i64_text(i);
            let lt = int_bound_text(min, false);
            let ht = i64_text(hi);
            let m = range_text(it.as_str(), lt.as_str(), ht.as_str());
            let e = make_error(ip, sp, ErrorCode::ValueOutOfRange, m, None);
            proof {
                high = seq![e@];
            }
            push_error(errors, e);
        }
    }
    assert(int_range_errors(i as int, min, max, ip@, sp@) == low + high);
    assert(error_views(errors@) =~= base + (low + high));
}

fn push_float_range_errors(
    val: &str,
    below_min: bool,
    above_max: bool,
    min: Option<i64>,
    max: Option<i64>,
    ip: &JsonPointer,
    sp: &JsonPointer,
    errors: &mut Vec<ValidationError>,
)
    ensures
        error_views(final(errors)@) == error_views(old(errors)@) + float_range_errors(
            val@,
            below_min,
            above_max,
            min,
            max,
            ip@,
            sp@,
        ),
{
    let ghost base = error_views(errors@);
    let ghost low: Seq<ErrorView> = Seq::empty();
    if min.is_some() && below_min {
        let lt = float_bound_text(min, false);
        let ht = float_bound_text(max, true);
        let m = range_text(val, lt.as_str(), ht.as_str());
        let e = make_error(ip, sp, ErrorCode::ValueOutOfRange, m, None);
        proof {
            low = seq![e@];
        }
        push_error(errors, e);
    }
    let ghost high: Seq<ErrorView> = Seq::empty();
    if max.is_some() && above_max {
        let lt = float_bound_text(min, false);
        let ht = float_bound_text(max, true);
        let m = range_text(val, lt.as_str(), ht.as_str());
        let e = make_error(ip, sp, ErrorCode::ValueOutOfRange, m, None);
        proof {
            high = seq![e@];
        }
        push_error(errors, e);
    }
    assert(float_range_errors(val@, below_min, above_max, min, max, ip@, sp@) == low + high);
    assert(error_views(errors@) =~= base + (low + high));
}

fn push_pattern_errors(
    pat: &str,
    s: &str,
    ip: &JsonPointer,
    sp: &JsonPointer,
    errors: &mut Vec<ValidationError>,
)
    ensures
        error_views(final(errors)@) == error_views(old(errors)@) + pattern_errors(
            pat@,
            s@,
            ip@,
            sp@,
        ),
{
    if let Some(false) = pattern_matches(pat, s) {
        let mut m = concat3("string '", s, "' does not match pattern '");
        push_str(&mut m, pat);
        push_str(&mut m, "'");
        let sp2 = sp.with("pattern");
        let e = make_error(ip, &sp2, ErrorCode::PatternMismatch, m, None);
        push_error(errors, e);
    } else {
        assert(error_views(errors@) =~= error_views(old(errors)@) + Seq::<ErrorView>::empty());
    }
}

fn push_length_error(
    len: usize,
    bound: usize,
    below: bool,
    ip: &JsonPointer,
    sp: &JsonPointer,
    errors: &mut Vec<ValidationError>,
)
    ensures
        error_views(final(errors)@) == error_views(old(errors)@).push(
            if below {
                err(
                    ip@,
                    sp@.push("minLength"@),
                    ErrorCode::ValueOutOfRange,
                    "string length "@ + decimal(len as nat) + " is below minimum "@ + decimal(
                        bound as nat,
                    ),
                    None,
                )
            } else {
                err(
                    ip@,
                    sp@.push("maxLength"@),
                    ErrorCode::ValueOutOfRange,
                    "string length "@ + decimal(len as nat) + " exceeds maximum "@ + decimal(
                        bound as nat,
                    ),
                    None,
                )
            },
        ),
{
    let mut m = to_string("string length ");
    push_decimal(&mut m, len as u64);
    if below {
        push_str(&mut m, " is below minimum ");
    } else {
        push_str(&mut m, " exceeds maximum ");
    }
    push_decimal(&mut m, bound as u64);
    let sp2 = if below {
        sp.with("minLength")
    } else {
        sp.with("maxLength")
    };
    let e = make_error(ip, &sp2, ErrorCode::ValueOutOfRange, m, None);
    push_error(errors, e);
}

fn timestamp_pattern_text() -> (r: &'static str)
    ensures
        r@ == timestamp_pattern(),
{
    "^\\d{4}-\\d{2}-\\d{2}(T\\d{2}:\\d{2}:\\d{2})?"
}

impl<'a> Validator<'a> {
    /// The bundle this validator checks against.
    pub closed spec fn bundle_of(&self) -> SchemaBundle {
        *self.bundle
    }

    /// The validation mode.
    pub closed spec fn mode_of(&self) -> ValidationMode {
        self.mode
    }

    /// The greatest number of references followed in one descent.
    pub closed spec fn max_depth_of(&self) -> nat {
        self.max_depth as nat
    }

    /// A strict validator with a reference depth limit of 64.
    pub fn new(bundle: &'a SchemaBundle) -> (r: Self)
        ensures
            r.bundle_of() == *bundle,
            r.mode_of() == ValidationMode::Strict,
            r.max_depth_of() == 64,
    {
        Self { bundle, mode: ValidationMode::Strict, max_depth: 64 }
    }

    /// The same validator with another mode.
    pub fn with_mode(self, mode: ValidationMode) -> (r: Self)
        ensures
            r.bundle_of() == self.bundle_of(),
            r.mode_of() == mode,
            r.max_depth_of() == self.max_depth_of(),
    {
        Self { bundle: self.bundle, mode, max_depth: self.max_depth }
    }

    /// The same validator with another reference depth limit.
    pub fn with_max_depth(self, depth: usize) -> (r: Self)
        ensures
            r.bundle_of() == self.bundle_of(),
            r.mode_of() == self.mode_of(),
            r.max_depth_of() == depth,
    {
        Self { bundle: self.bundle, mode: self.mode, max_depth: depth }
    }

    fn check_scalar_exec(
        &self,
        kind: &ScalarKind,
        v: &Value,
        ip: &JsonPointer,
        sp: &JsonPointer,
        errors: &mut Vec<ValidationError>,
    )
        ensures
            error_views(final(errors)@) == error_views(old(errors)@) + check_scalar(
                self.mode,
                *kind,
                *v,
                ip@,
                sp@,
            ),
    {
        let ghost base = error_views(errors@);
        match kind {
            ScalarKind::String { pattern } => match v {
                Value::String(s) => match pattern {
                    Some(p) => push_pattern_errors(p.as_str(), s.as_str(), ip, sp, errors),
                    None => {
                        assert(error_views(errors@) =~= base + Seq::<ErrorView>::empty());
                    },
                },
                _ => push_error(errors, mismatch_error("string", v, ip, sp)),
            },
            ScalarKind::Boolean => match v {
                Value::Bool(_) => {
                    assert(error_views(errors@) =~= base + Seq::<ErrorView>::empty());
                },
                _ => push_error(errors, mismatch_error("boolean", v, ip, sp)),
            },
            ScalarKind::Int { min, max } => match v {
                Value::Number(Number::Integer(i)) => push_int_range_errors(
                    *i,
                    *min,
                    *max,
                    ip,
                    sp,
                    errors,
                ),
                Value::Number(Number::Float(f)) => {
                    if self.mode == ValidationMode::Strict {
                        push_error(errors, mismatch_error("integer", v, ip, sp));
                    } else {
                        match float_integral(f.bits) {
                            Some(x) => push_int_range_errors(x, *min, *max, ip, sp, errors),
                            None => push_error(errors, mismatch_error("integer", v, ip, sp)),
                        }
                    }
                },
                _ => push_error(errors, mismatch_error("integer", v, ip, sp)),
            },
            ScalarKind::Float { min, max } => match v {
                Value::Number(Number::Float(f)) => {
                    let below = match min {
                        Some(lo) => float_lt(f.bits, i64_to_double(*lo)),
                        None => false,
                    };
                    let above = match max {
                        Some(hi) => float_gt(f.bits, i64_to_double(*hi)),
                        None => false,
                    };
                    push_float_range_errors(
                        f.text.as_str(),
                        below,
                        above,
                        *min,
                        *max,
                        ip,
                        sp,
                        errors,
                    );
                },
                Value::Number(Number::Integer(i)) => {
                    let x = i64_to_double(*i);
                    let below = match min {
                        Some(lo) => x < i64_to_double(*lo),
                        None => false,
                    };
                    let above = match max {
                        Some(hi) => x > i64_to_double(*hi),
                        None => false,
                    };
                    let t = double_text_of(x);
                    push_float_range_errors(t.as_str(), below, above, *min, *max, ip, sp, errors);
                },
                _ => push_error(errors, mismatch_error("float", v, ip, sp)),
            },
            ScalarKind::Timestamp => match v {
                Value::String(s) => {
                    if let Some(true) = pattern_matches(timestamp_pattern_text(), s.as_str()) {
                        assert(error_views(errors@) =~= base + Seq::<ErrorView>::empty());
                    } else {
                        let m = concat3("'", s.as_str(), "' is not a valid ISO 8601 timestamp");
                        push_error(errors, make_error(ip, sp, ErrorCode::InvalidScalar, m, None));
                    }
                },
                _ => push_error(errors, mismatch_error("timestamp (ISO 8601 string)", v, ip, sp)),
            },
            ScalarKind::Custom { name, constraints } => match v {
                Value::String(s) => {
                    let ghost s0 = error_views(errors@);
                    match &constraints.pattern {
                        Some(p) => push_pattern_errors(p.as_str(), s.as_str(), ip, sp, errors),
                        None => {
                            assert(error_views(errors@) =~= s0 + Seq::<ErrorView>::empty());
                        },
                    }
                    let ghost s1 = error_views(errors@);
                    let len = s.as_str().len();
                    match constraints.min_length {
                        Some(min) => {
                            if len < min {
                                push_length_error(len, min, true, ip, sp, errors);
                            } else {
                                assert(error_views(errors@) =~= s1 + Seq::<ErrorView>::empty());
                            }
                        },
                        None => {
                            assert(error_views(errors@) =~= s1 + Seq::<ErrorView>::empty());
                        },
                    }
                    let ghost s2 = error_views(errors@);
                    match constraints.max_length {
                        Some(max) => {
                            if len > max {
                                push_length_error(len, max, false, ip, sp, errors);
                            } else {
                                assert(error_views(errors@) =~= s2 + Seq::<ErrorView>::empty());
                            }
                        },
                        None => {
                            assert(error_views(errors@) =~= s2 + Seq::<ErrorView>::empty());
                        },
                    }
                    assert(error_views(errors@) =~= base + custom_errors(
                        *constraints,
                        s@,
                        ip@,
                        sp@,
                    ));
                },
                _ => push_error(errors, mismatch_error("string (custom scalar)", v, ip, sp)),
            },
        }
    }

    fn check_enum_exec(
        values: &Vec<String>,
        v: &Value,
        ip: &JsonPointer,
        sp: &JsonPointer,
        errors: &mut Vec<ValidationError>,
    )
        ensures
            error_views(final(errors)@) == error_views(old(errors)@) + check_enum(
                values@,
                *v,
                ip@,
                sp@,
            ),
    {
        match v {
            Value::String(s) => {
                let mut i: usize = 0;
                while i < values.len()
                    invariant
                        i <= values@.len(),
                        *v == Value::String(*s),
                        forall|j: int| 0 <= j < i ==> values@[j]@ != s@,
                    decreases values@.len() - i,
                {
                    if str_eq(values[i].as_str(), s.as_str()) {
                        assert(views(values@)[i as int] == s@);
                        assert(views(values@).contains(s@));
                        assert(check_enum(values@, *v, ip@, sp@) =~= Seq::<ErrorView>::empty());
                        assert(error_views(errors@) =~= error_views(old(errors)@)
                            + Seq::<ErrorView>::empty());
                        return;
                    }
                    i = i + 1;
                }
                assert(!views(values@).contains(s@));
                let joined = join_strings(values, ", ");
                let mut m = concat3("'", s.as_str(), "' is not a valid enum value (expected one of: ");
                push_str(&mut m, joined.as_str());
                push_str(&mut m, ")");
                push_error(errors, make_error(ip, sp, ErrorCode::InvalidEnumValue, m, None));
            },
            _ => push_error(errors, mismatch_error("string (enum)", v, ip, sp)),
        }
    }

    fn check_schema(
        &self,
        schema: &Schema,
        v: &Value,
        ip: &JsonPointer,
        sp: &JsonPointer,
        depth: u128,
        errors: &mut Vec<ValidationError>,
    )
        requires
            depth <= self.max_depth + 1,
        ensures
            error_views(final(errors)@) == error_views(old(errors)@) + check(
                *self.bundle,
                self.mode,
                self.max_depth as nat,
                *schema,
                *v,
                ip@,
                sp@,
                depth as nat,
            ),
        decreases budget(self.max_depth as nat, depth as nat), *schema, 1nat,
    {
        let ghost b = *self.bundle;
        let ghost md = self.max_depth as nat;
        if depth > self.max_depth as u128 {
            let mut m = to_string("max recursion depth (");
            push_decimal(&mut m, self.max_depth as u64);
            push_str(&mut m, ") exceeded");
            let hint = to_string("check for deeply nested or recursive types");
            push_error(
                errors,
                make_error(ip, sp, ErrorCode::MaxDepthExceeded, m, Some(hint)),
            );
            return;
        }
        match schema {
            Schema::Any => {
                assert(error_views(errors@) =~= error_views(old(errors)@) + Seq::<ErrorView>::empty());
            },
            Schema::Scalar(kind) => self.check_scalar_exec(kind, v, ip, sp, errors),
            Schema::Enum { values } => Self::check_enum_exec(values, v, ip, sp, errors),
            Schema::Array { .. } => match v {
                Value::Array(items) => self.check_items_exec(schema, items, ip, sp, depth, errors),
                _ => push_error(errors, mismatch_error("array", v, ip, sp)),
            },
            Schema::Object { .. } => match v {
                Value::Object(map) => {
                    let ghost e0 = error_views(errors@);
                    self.check_required_exec(schema, map, ip, sp, depth, errors);
                    let ghost e1 = error_views(errors@);
                    self.check_optional_exec(schema, map, ip, sp, depth, errors);
                    let ghost e2 = error_views(errors@);
                    self.check_additional_exec(schema, map, ip, sp, depth, errors);
                    proof {
                        let (required, optional, additional) = (
                            schema->Object_required,
                            schema->Object_optional,
                            schema->Object_additional,
                        );
                        let a = check_required(
                            b,
                            self.mode,
                            md,
                            required.entries@,
                            required.entries@.len(),
                            map.entries@,
                            ip@,
                            sp@,
                            depth as nat,
                        );
                        let o = check_optional(
                            b,
                            self.mode,
                            md,
                            optional.entries@,
                            optional.entries@.len(),
                            map.entries@,
                            ip@,
                            sp@,
                            depth as nat,
                        );
                        let c = check_additional(
                            b,
                            self.mode,
                            md,
                            additional,
                            required.entries@,
                            optional.entries@,
                            map.entries@,
                            map.entries@.len(),
                            ip@,
                            sp@,
                            depth as nat,
                        );
                        assert(error_views(errors@) =~= e0 + (a + o + c));
                    }
                },
                _ => push_error(errors, mismatch_error("object", v, ip, sp)),
            },
            Schema::Values { .. } => match v {
                Value::Object(map) => self.check_values_exec(schema, map, ip, sp, depth, errors),
                _ => push_error(errors, mismatch_error("object (map)", v, ip, sp)),
            },
            Schema::DiscriminatedUnion { .. } => match v {
                Value::Object(map) => self.check_discriminated_exec(
                    schema,
                    v,
                    map,
                    ip,
                    sp,
                    depth,
                    errors,
                ),
                _ => push_error(errors, mismatch_error("object (discriminated union)", v, ip, sp)),
            },
            Schema::OneOf { .. } => self.check_one_of_exec(schema, v, ip, sp, depth, errors),
            Schema::Ref { name } => match self.bundle.schemas.index_of(name.as_str()) {
                Some(i) => {
                    let resolved = &self.bundle.schemas.entries[i].1;
                    self.check_schema(resolved, v, ip, sp, depth + 1, errors);
                },
                None => {
                    let m = concat3("unresolved type reference: '", name.as_str(), "'");
                    push_error(errors, make_error(ip, sp, ErrorCode::UnresolvedRef, m, None));
                },
            },
        }
    }

    fn check_items_exec(
        &self,
        schema: &Schema,
        items: &Vec<Value>,
        ip: &JsonPointer,
        sp: &JsonPointer,
        depth: u128,
        errors: &mut Vec<ValidationError>,
    )
        requires
            depth <= self.max_depth,
            schema is Array,
        ensures
            error_views(final(errors)@) == error_views(old(errors)@) + check_items(
                *self.bundle,
                self.mode,
                self.max_depth as nat,
                *schema->Array_elements,
                items@,
                items@.len(),
                ip@,
                sp@,
                depth as nat,
            ),
        decreases budget(self.max_depth as nat, depth as nat), *schema, 0nat,
    {
        let Schema::Array { elements } = schema else {
            return;
        };
        let ghost base = error_views(errors@);
        let sp2 = sp.with("elements");
        let mut i: usize = 0;
        while i < items.len()
            invariant
                i <= items@.len(),
                depth <= self.max_depth,
                *schema == (Schema::Array { elements: *elements }),
                sp2@ == sp@.push("elements"@),
                error_views(errors@) == base + check_items(
                    *self.bundle,
                    self.mode,
                    self.max_depth as nat,
                    **elements,
                    items@,
                    i as nat,
                    ip@,
                    sp@,
                    depth as nat,
                ),
            decreases items@.len() - i,
        {
            let key = usize_text(i);
            let ip2 = ip.with(key.as_str());
            let ghost before = error_views(errors@);
            proof {
                assert(decreases_to!(*schema => schema->Array_elements));
            }
            self.check_schema(elements, &items[i], &ip2, &sp2, depth, errors);
            proof {
                lemma_assoc(
                    base,
                    check_items(
                        *self.bundle,
                        self.mode,
                        self.max_depth as nat,
                        **elements,
                        items@,
                        i as nat,
                        ip@,
                        sp@,
                        depth as nat,
                    ),
                    check(
                        *self.bundle,
                        self.mode,
                        self.max_depth as nat,
                        **elements,
                        items@[i as int],
                        ip@.push(decimal(i as nat)),
                        sp@.push("elements"@),
                        depth as nat,
                    ),
                );
            }
            i = i + 1;
        }
    }

    fn check_required_exec(
        &self,
        schema: &Schema,
        map: &OrderedMap<Value>,
        ip: &JsonPointer,
        sp: &JsonPointer,
        depth: u128,
        errors: &mut Vec<ValidationError>,
    )
        requires
            depth <= self.max_depth,
            schema is Object,
        ensures
            error_views(final(errors)@) == error_views(old(errors)@) + check_required(
                *self.bundle,
                self.mode,
                self.max_depth as nat,
                schema->Object_required.entries@,
                schema->Object_required.entries@.len(),
                map.entries@,
                ip@,
                sp@,
                depth as nat,
            ),
        decreases budget(self.max_depth as nat, depth as nat), *schema, 0nat,
    {
        let Schema::Object { required, .. } = schema else {
            return;
        };
        let ghost base = error_views(errors@);
        let ghost props = required.entries@;
        let mut i: usize = 0;
        while i < required.entries.len()
            invariant
                i <= props.len(),
                props == required.entries@,
                depth <= self.max_depth,
                *schema is Object,
                schema->Object_required == *required,
                error_views(errors@) == base + check_required(
                    *self.bundle,
                    self.mode,
                    self.max_depth as nat,
                    props,
                    i as nat,
                    map.entries@,
                    ip@,
                    sp@,
                    depth as nat,
                ),
            decreases props.len() - i,
        {
            let key = &required.entries[i].0;
            let sub = &required.entries[i].1;
            let ip2 = ip.with(key.as_str());
            let sp2 = sp.with("properties").with(key.as_str());
            let ghost earlier = check_required(
                *self.bundle,
                self.mode,
                self.max_depth as nat,
                props,
                i as nat,
                map.entries@,
                ip@,
                sp@,
                depth as nat,
            );
            assert(sp2@ == sp@ + seq!["properties"@, key@]);
            match map.get(key.as_str()) {
                Some(x) => {
                    proof {
                        assert(decreases_to!(*schema => *required));
                        assert(decreases_to!(*required => required.entries));
                        assert(decreases_to!(required.entries => required.entries@));
                        assert(decreases_to!(required.entries@ => required.entries@[i as int]));
                    }
                    self.check_schema(sub, x, &ip2, &sp2, depth, errors);
                    proof {
                        lemma_assoc(
                            base,
                            earlier,
                            check(
                                *self.bundle,
                                self.mode,
                                self.max_depth as nat,
                                **sub,
                                *x,
                                ip2@,
                                sp2@,
                                depth as nat,
                            ),
                        );
                    }
                },
                None => {
                    let m = concat3("required property '", key.as_str(), "' is missing");
                    let e = make_error(&ip2, &sp2, ErrorCode::RequiredPropertyMissing, m, None);
                    push_error(errors, e);
                    proof {
                        lemma_assoc(base, earlier, seq![e@]);
                    }
                },
            }
            i = i + 1;
        }
    }

    fn check_optional_exec(
        &self,
        schema: &Schema,
        map: &OrderedMap<Value>,
        ip: &JsonPointer,
        sp: &JsonPointer,
        depth: u128,
        errors: &mut Vec<ValidationError>,
    )
        requires
            depth <= self.max_depth,
            schema is Object,
        ensures
            error_views(final(errors)@) == error_views(old(errors)@) + check_optional(
                *self.bundle,
                self.mode,
                self.max_depth as nat,
                schema->Object_optional.entries@,
                schema->Object_optional.entries@.len(),
                map.entries@,
                ip@,
                sp@,
                depth as nat,
            ),
        decreases budget(self.max_depth as nat, depth as nat), *schema, 0nat,
    {
        let Schema::Object { optional, .. } = schema else {
            return;
        };
        let ghost base = error_views(errors@);
        let ghost props = optional.entries@;
        let mut i: usize = 0;
        while i < optional.entries.len()
            invariant
                i <= props.len(),
                props == optional.entries@,
                depth <= self.max_depth,
                *schema is Object,
                schema->Object_optional == *optional,
                error_views(errors@) == base + check_optional(
                    *self.bundle,
                    self.mode,
                    self.max_depth as nat,
                    props,
                    i as nat,
                    map.entries@,
                    ip@,
                    sp@,
                    depth as nat,
                ),
            decreases props.len() - i,
        {
            let key = &optional.entries[i].0;
            let sub = &optional.entries[i].1;
            let ghost earlier = check_optional(
                *self.bundle,
                self.mode,
                self.max_depth as nat,
                props,
                i as nat,
                map.entries@,
                ip@,
                sp@,
                depth as nat,
            );
            match map.get(key.as_str()) {
                Some(x) => {
                    let ip2 = ip.with(key.as_str());
                    let sp2 = sp.with("optionalProperties").with(key.as_str());
                    assert(sp2@ == sp@ + seq!["optionalProperties"@, key@]);
                    proof {
                        assert(decreases_to!(*schema => *optional));
                        assert(decreases_to!(*optional => optional.entries));
                        assert(decreases_to!(optional.entries => optional.entries@));
                        assert(decreases_to!(optional.entries@ => optional.entries@[i as int]));
                    }
                    self.check_schema(sub, x, &ip2, &sp2, depth, errors);
                    proof {
                        lemma_assoc(
                            base,
                            earlier,
                            check(
                                *self.bundle,
                                self.mode,
                                self.max_depth as nat,
                                **sub,
                                *x,
                                ip2@,
                                sp2@,
                                depth as nat,
                            ),
                        );
                    }
                },
                None => {
                    assert(error_views(errors@) =~= base + earlier + Seq::<ErrorView>::empty());
                },
            }
            i = i + 1;
        }
    }

    fn check_additional_exec(
        &self,
        schema: &Schema,
        map: &OrderedMap<Value>,
        ip: &JsonPointer,
        sp: &JsonPointer,
        depth: u128,
        errors: &mut Vec<ValidationError>,
    )
        requires
            depth <= self.max_depth,
            schema is Object,
        ensures
            error_views(final(errors)@) == error_views(old(errors)@) + check_additional(
                *self.bundle,
                self.mode,
                self.max_depth as nat,
                schema->Object_additional,
                schema->Object_required.entries@,
                schema->Object_optional.entries@,
                map.entries@,
                map.entries@.len(),
                ip@,
                sp@,
                depth as nat,
            ),
        decreases budget(self.max_depth as nat, depth as nat), *schema, 0nat,
    {
        let Schema::Object { required, optional, additional } = schema else {
            return;
        };
        let ghost base = error_views(errors@);
        let ghost entries = map.entries@;
        let mut i: usize = 0;
        while i < map.entries.len()
            invariant
                i <= entries.len(),
                entries == map.entries@,
                depth <= self.max_depth,
                *schema is Object,
                schema->Object_required == *required,
                schema->Object_optional == *optional,
                schema->Object_additional == *additional,
                error_views(errors@) == base + check_additional(
                    *self.bundle,
                    self.mode,
                    self.max_depth as nat,
                    *additional,
                    required.entries@,
                    optional.entries@,
                    entries,
                    i as nat,
                    ip@,
                    sp@,
                    depth as nat,
                ),
            decreases entries.len() - i,
        {
            let key = &map.entries[i].0;
            let x = &map.entries[i].1;
            let ghost earlier = check_additional(
                *self.bundle,
                self.mode,
                self.max_depth as nat,
                *additional,
                required.entries@,
                optional.entries@,
                entries,
                i as nat,
                ip@,
                sp@,
                depth as nat,
            );
            if required.contains_key(key.as_str()) || optional.contains_key(key.as_str()) {
            } else {
                match additional {
                    AdditionalPolicy::Reject => {
                        if self.mode == ValidationMode::Strict {
                            let ip2 = ip.with(key.as_str());
                            let sp2 = sp.with("additionalProperties");
                            let m = concat3(
                                "unknown property '",
                                key.as_str(),
                                "' (schema is closed)",
                            );
                            let e = make_error(&ip2, &sp2, ErrorCode::UnknownProperty, m, None);
                            push_error(errors, e);
                            proof {
                                lemma_assoc(base, earlier, seq![e@]);
                            }
                        } else {
                            assert(error_views(errors@) =~= base + earlier
                                + Seq::<ErrorView>::empty());
                        }
                    },
                    AdditionalPolicy::AllowAny => {
                        assert(error_views(errors@) =~= base + earlier
                            + Seq::<ErrorView>::empty());
                    },
                    AdditionalPolicy::AllowSchema(sub) => {
                        let ip2 = ip.with(key.as_str());
                        let sp2 = sp.with("additionalProperties");
                        proof {
                            assert(decreases_to!(*schema => *additional));
                            assert(decreases_to!(*additional => **sub));
                        }
                        self.check_schema(sub, x, &ip2, &sp2, depth, errors);
                        proof {
                            lemma_assoc(
                                base,
                                earlier,
                                check(
                                    *self.bundle,
                                    self.mode,
                                    self.max_depth as nat,
                                    **sub,
                                    *x,
                                    ip2@,
                                    sp2@,
                                    depth as nat,
                                ),
                            );
                        }
                    },
                }
            }
            i = i + 1;
        }
    }

    fn check_values_exec(
        &self,
        schema: &Schema,
        map: &OrderedMap<Value>,
        ip: &JsonPointer,
        sp: &JsonPointer,
        depth: u128,
        errors: &mut Vec<ValidationError>,
    )
        requires
            depth <= self.max_depth,
            schema is Values,
        ensures
            error_views(final(errors)@) == error_views(old(errors)@) + check_values(
                *self.bundle,
                self.mode,
                self.max_depth as nat,
                *schema->Values_values,
                map.entries@,
                map.entries@.len(),
                ip@,
                sp@,
                depth as nat,
            ),
        decreases budget(self.max_depth as nat, depth as nat), *schema, 0nat,
    {
        let Schema::Values { values } = schema else {
            return;
        };
        let ghost base = error_views(errors@);
        let ghost entries = map.entries@;
        let sp2 = sp.with("values");
        let mut i: usize = 0;
        while i < map.entries.len()
            invariant
                i <= entries.len(),
                entries == map.entries@,
                depth <= self.max_depth,
                *schema == (Schema::Values { values: *values }),
                sp2@ == sp@.push("values"@),
                error_views(errors@) == base + check_values(
                    *self.bundle,
                    self.mode,
                    self.max_depth as nat,
                    **values,
                    entries,
                    i as nat,
                    ip@,
                    sp@,
                    depth as nat,
                ),
            decreases entries.len() - i,
        {
            let key = &map.entries[i].0;
            let x = &map.entries[i].1;
            let ip2 = ip.with(key.as_str());
            proof {
                assert(decreases_to!(*schema => schema->Values_values));
            }
            self.check_schema(values, x, &ip2, &sp2, depth, errors);
            proof {
                lemma_assoc(
                    base,
                    check_values(
                        *self.bundle,
                        self.mode,
                        self.max_depth as nat,
                        **values,
                        entries,
                        i as nat,
                        ip@,
                        sp@,
                        depth as nat,
                    ),
                    check(
                        *self.bundle,
                        self.mode,
                        self.max_depth as nat,
                        **values,
                        *x,
                        ip2@,
                        sp2@,
                        depth as nat,
                    ),
                );
            }
            i = i + 1;
        }
    }

    fn check_discriminated_exec(
        &self,
        schema: &Schema,
        v: &Value,
        map: &OrderedMap<Value>,
        ip: &JsonPointer,
        sp: &JsonPointer,
        depth: u128,
        errors: &mut Vec<ValidationError>,
    )
        requires
            depth <= self.max_depth,
            schema is DiscriminatedUnion,
            *v == Value::Object(*map),
        ensures
            error_views(final(errors)@) == error_views(old(errors)@) + check(
                *self.bundle,
                self.mode,
                self.max_depth as nat,
                *schema,
                *v,
                ip@,
                sp@,
                depth as nat,
            ),
        decreases budget(self.max_depth as nat, depth as nat), *schema, 0nat,
    {
        let Schema::DiscriminatedUnion { discriminator, mapping } = schema else {
            return;
        };
        match map.get(discriminator.as_str()) {
            Some(Value::String(tag)) => match mapping.index_of(tag.as_str()) {
                Some(i) => {
                    let sp2 = sp.with("mapping").with(tag.as_str());
                    assert(sp2@ == sp@ + seq!["mapping"@, tag@]);
                    proof {
                        lemma_find_key(mapping.entries@, tag@);
                        assert(decreases_to!(*schema => *mapping));
                        assert(decreases_to!(*mapping => mapping.entries));
                        assert(decreases_to!(mapping.entries => mapping.entries@));
                        assert(decreases_to!(mapping.entries@ => mapping.entries@[i as int]));
                    }
                    self.check_schema(&mapping.entries[i].1, v, ip, &sp2, depth, errors);
                },
                None => {
                    let ip2 = ip.with(discriminator.as_str());
                    let sp2 = sp.with("mapping");
                    let keys = join_keys(&mapping.entries, ", ");
                    let mut m = concat3(
                        "discriminator value '",
                        tag.as_str(),
                        "' not in mapping (expected one of: ",
                    );
                    push_str(&mut m, keys.as_str());
                    push_str(&mut m, ")");
                    push_error(
                        errors,
                        make_error(&ip2, &sp2, ErrorCode::InvalidDiscriminatorValue, m, None),
                    );
                },
            },
            _ => {
                let sp2 = sp.with("discriminator");
                let m = concat3(
                    "missing discriminator field '",
                    discriminator.as_str(),
                    "' (must be a string)",
                );
                push_error(
                    errors,
                    make_error(ip, &sp2, ErrorCode::RequiredPropertyMissing, m, None),
                );
            },
        }
    }

    fn check_one_of_exec(
        &self,
        schema: &Schema,
        v: &Value,
        ip: &JsonPointer,
        sp: &JsonPointer,
        depth: u128,
        errors: &mut Vec<ValidationError>,
    )
        requires
            depth <= self.max_depth,
            schema is OneOf,
        ensures
            error_views(final(errors)@) == error_views(old(errors)@) + check(
                *self.bundle,
                self.mode,
                self.max_depth as nat,
                *schema,
                *v,
                ip@,
                sp@,
                depth as nat,
            ),
        decreases budget(self.max_depth as nat, depth as nat), *schema, 0nat,
    {
        let Schema::OneOf { variants } = schema else {
            return;
        };
        let ghost b = *self.bundle;
        let ghost md = self.max_depth as nat;
        let one_of_sp = sp.with("oneOf");
        let mut matching: Vec<String> = Vec::new();
        let mut i: usize = 0;
        while i < variants.len()
            invariant
                i <= variants@.len(),
                depth <= self.max_depth,
                *schema == (Schema::OneOf { variants: *variants }),
                one_of_sp@ == sp@.push("oneOf"@),
                b == *self.bundle,
                md == self.max_depth as nat,
                views(matching@) == matching_variants(
                    b,
                    self.mode,
                    md,
                    variants@,
                    i as nat,
                    *v,
                    ip@,
                    sp@,
                    depth as nat,
                ),
            decreases variants@.len() - i,
        {
            let var = &variants[i];
            let ghost earlier = views(matching@);
            let ghost c = check(
                b,
                self.mode,
                md,
                *var.schema,
                *v,
                ip@,
                sp@ + seq!["oneOf"@, decimal(i as nat)],
                depth as nat,
            );
            assert(matching_variants(b, self.mode, md, variants@, (i + 1) as nat, *v, ip@, sp@, depth as nat)
                == if variant_skipped(*var.schema, *v) {
                    earlier
                } else if c.len() == 0 {
                    earlier.push(var.label@)
                } else {
                    earlier
                });
            if !variant_skipped_exec(&var.schema, v) {
                let key = usize_text(i);
                let vsp = one_of_sp.with(key.as_str());
                assert(vsp@ == sp@ + seq!["oneOf"@, decimal(i as nat)]);
                let mut found: Vec<ValidationError> = Vec::new();
                proof {
                    assert(decreases_to!(*schema => schema->OneOf_variants));
                    assert(decreases_to!(schema->OneOf_variants => variants@));
                    assert(decreases_to!(variants@ => variants@[i as int]));
                    assert(decreases_to!(variants@[i as int] => variants@[i as int].schema));
                }
                assert(error_views(found@) =~= Seq::<ErrorView>::empty());
                self.check_schema(&var.schema, v, ip, &vsp, depth, &mut found);
                assert(found@.len() == c.len());
                if found.len() == 0 {
                    let ghost prev = matching@;
                    let label = var.label.clone();
                    matching.push(label);
                    assert(views(matching@) =~= views(prev).push(var.label@));
                }
            }
            i = i + 1;
        }
        if matching.len() == 0 {
            let sp2 = sp.with("oneOf");
            let labels = join_labels(variants, ", ");
            let mut hint = to_string("expected one of: ");
            push_str(&mut hint, labels.as_str());
            let m = to_string("no variant matches the value");
            push_error(
                errors,
                make_error(ip, &sp2, ErrorCode::NoMatchingVariant, m, Some(hint)),
            );
        } else if matching.len() == 1 {
            assert(error_views(errors@) =~= error_views(old(errors)@) + Seq::<ErrorView>::empty());
        } else {
            let sp2 = sp.with("oneOf");
            let joined = join_strings(&matching, ", ");
            let m = concat3("ambiguous: multiple variants match (", joined.as_str(), ")");
            let hint = to_string("add more distinguishing fields to disambiguate variants");
            push_error(
                errors,
                make_error(ip, &sp2, ErrorCode::AmbiguousVariant, m, Some(hint)),
            );
        }
    }

    /// Validate a value against the root schema in the bundle.
    pub fn validate(&self, value: &Value) -> (r: ValidationResult)
        ensures
            error_views(r.errors@) == validate_spec(
                self.bundle_of(),
                self.mode_of(),
                self.max_depth_of(),
                *value,
            ),
            r.valid == (r.errors@.len() == 0),
    {
        let mut errors: Vec<ValidationError> = Vec::new();
        let ip = JsonPointer::root();
        let sp = JsonPointer::root();
        match self.bundle.root() {
            Some(root) => {
                self.check_schema(root, value, &ip, &sp, 0, &mut errors);
                assert(error_views(errors@) =~= check(
                    *self.bundle,
                    self.mode,
                    self.max_depth as nat,
                    *root,
                    *value,
                    Seq::empty(),
                    Seq::empty(),
                    0,
                ));
            },
            None => {
                let m = to_string("no root schema defined in bundle");
                push_error(&mut errors, make_error(&ip, &sp, ErrorCode::UnresolvedRef, m, None));
                assert(error_views(errors@) =~= validate_spec(
                    *self.bundle,
                    self.mode,
                    self.max_depth as nat,
                    *value,
                ));
            },
        }
        ValidationResult::from_errors(errors)
    }

    /// Validate a value against a specific named schema.
    pub fn validate_named(&self, name: &str, value: &Value) -> (r: ValidationResult)
        ensures
            error_views(r.errors@) == validate_named_spec(
                self.bundle_of(),
                self.mode_of(),
                self.max_depth_of(),
                name@,
                *value,
            ),
            r.valid == (r.errors@.len() == 0),
    {
        let mut errors: Vec<ValidationError> = Vec::new();
        let ip = JsonPointer::root();
        let sp = JsonPointer::root();
        match self.bundle.resolve(name) {
            Some(schema) => {
                self.check_schema(schema, value, &ip, &sp, 0, &mut errors);
                assert(error_views(errors@) =~= check(
                    *self.bundle,
                    self.mode,
                    self.max_depth as nat,
                    *schema,
                    *value,
                    Seq::empty(),
                    Seq::empty(),
                    0,
                ));
            },
            None => {
                let m = concat3("unknown schema: '", name, "'");
                push_error(&mut errors, make_error(&ip, &sp, ErrorCode::UnresolvedRef, m, None));
                assert(error_views(errors@) =~= validate_named_spec(
                    *self.bundle,
                    self.mode,
                    self.max_depth as nat,
                    name@,
                    *value,
                ));
            },
        }
        ValidationResult::from_errors(errors)
    }
}

/// Whether a oneOf variant is passed over without validation.
fn variant_skipped_exec(schema: &Schema, v: &Value) -> (r: bool)
    ensures
        r == variant_skipped(*schema, *v),
{
    match schema {
        Schema::Object { required, .. } => match v {
            Value::Object(map) => {
                let mut i: usize = 0;
                while i < required.entries.len()
                    invariant
                        i <= required.entries@.len(),
                        *v == Value::Object(*map),
                        *schema is Object,
                        schema->Object_required == *required,
                        forall|j: int|
                            0 <= j < i ==> #[trigger] find_key(
                                map.entries@,
                                required.entries@[j].0@,
                            ) is Some,
                    decreases required.entries@.len() - i,
                {
                    if !map.contains_key(required.entries[i].0.as_str()) {
                        assert(find_key(map.entries@, required.entries@[i as int].0@) is None);
                        assert(!has_required_keys(required.entries@, map.entries@));
                        assert(variant_skipped(*schema, *v));
                        return true;
                    }
                    i = i + 1;
                }
                false
            },
            _ => true,
        },
        _ => false,
    }
}

/// The keys of the entries joined with `sep`.
fn join_keys<V>(entries: &Vec<(String, V)>, sep: &str) -> (r: String)
    ensures
        r@ == join(keys_of(entries@), sep@),
{
    let mut out = String::new();
    let mut i: usize = 0;
    while i < entries.len()
        invariant
            i <= entries@.len(),
            out@ == join(keys_of(entries@).take(i as int), sep@),
        decreases entries@.len() - i,
    {
        let ghost before = keys_of(entries@).take(i as int);
        if i > 0 {
            push_str(&mut out, sep);
        }
        push_str(&mut out, entries[i].0.as_str());
        i = i + 1;
        assert(keys_of(entries@).take(i as int).drop_last() == before);
        if i == 1 {
            assert(keys_of(entries@).take(1) == seq![entries@[0].0@]);
        }
    }
    assert(keys_of(entries@).take(entries@.len() as int) == keys_of(entries@));
    out
}

/// The labels of the variants joined with `sep`.
fn join_labels(variants: &Vec<OneOfVariant>, sep: &str) -> (r: String)
    ensures
        r@ == join(variants@.map_values(|x: OneOfVariant| x.label@), sep@),
{
    let ghost labels = variants@.map_values(|x: OneOfVariant| x.label@);
    let mut out = String::new();
    let mut i: usize = 0;
    while i < variants.len()
        invariant
            i <= variants@.len(),
            labels == variants@.map_values(|x: OneOfVariant| x.label@),
            out@ == join(labels.take(i as int), sep@),
        decreases variants@.len() - i,
    {
        let ghost before = labels.take(i as int);
        if i > 0 {
            push_str(&mut out, sep);
        }
        push_str(&mut out, variants[i].label.as_str());
        i = i + 1;
        assert(labels.take(i as int).drop_last() == before);
        if i == 1 {
            assert(labels.take(1) == seq![variants@[0].label@]);
        }
    }
    assert(labels.take(variants@.len() as int) == labels);
    out
}

/// Past the depth limit, checking any schema against any value reports
/// exactly one error: `MaxDepthExceeded`, at the current document and
/// schema paths. (The recursive checker appends `check`'s errors to those
/// already found, so the errors before stay a prefix.)
pub proof fn law_depth_limit(
    b: SchemaBundle,
    mode: ValidationMode,
    max_depth: nat,
    schema: Schema,
    v: Value,
    ip: Seq<Seq<char>>,
    sp: Seq<Seq<char>>,
    depth: nat,
)
    requires
        depth > max_depth,
    ensures
        check(b, mode, max_depth, schema, v, ip, sp, depth).len() == 1,
        check(b, mode, max_depth, schema, v, ip, sp, depth)[0].code == ErrorCode::MaxDepthExceeded,
        check(b, mode, max_depth, schema, v, ip, sp, depth)[0].instance_path == render_spec(ip),
        check(b, mode, max_depth, schema, v, ip, sp, depth)[0].schema_path == render_spec(sp),
{
}

/// In open mode no validation reports an unknown property: whatever the
/// bundle, the depth limit and the value, against the root schema or a
/// named one.
pub proof fn law_open_mode_allows_unknown_properties(
    b: SchemaBundle,
    max_depth: nat,
    name: Seq<char>,
    v: Value,
)
    ensures
        crate::rules::lacks_code(
            validate_spec(b, ValidationMode::Open, max_depth, v),
            ErrorCode::UnknownProperty,
        ),
        crate::rules::lacks_code(
            validate_named_spec(b, ValidationMode::Open, max_depth, name, v),
            ErrorCode::UnknownProperty,
        ),
{
    match root_spec(b) {
        Some(s) => crate::rules::lemma_open_check(
            b,
            max_depth,
            s,
            v,
            Seq::empty(),
            Seq::empty(),
            0,
        ),
        None => {},
    }
    match resolve_spec(b, name) {
        Some(s) => crate::rules::lemma_open_check(
            b,
            max_depth,
            s,
            v,
            Seq::empty(),
            Seq::empty(),
            0,
        ),
        None => {},
    }
}

} // verus!
