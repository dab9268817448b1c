//! Lowering the SDL's type definitions to the schema IR: scalars, enums,
//! input objects and unions become named schemas of a bundle, with the
//! constraints their directives give.
use crate::diagnostics::{lowering_views, LoweringError, LoweringErrorView};
use crate::ir::{
    bundle_entries, entries_view, insert_entry, key_index, lemma_bundle_insert, lemma_entries_view,
    lemma_key_index, lemma_map_insert, lemma_variants_view, map_entries, opt_chars, variant_entries,
    schema_view, variants_view, AdditionalPolicy, OneOfVariant, PolicyView, ScalarConstraints,
    ScalarKind, ScalarKindView, Schema, SchemaBundle, SchemaView,
};
use crate::literals::{
    char_from_u32, decimal_int_value, hex_value, hex_value_exec, int_parse_error_text,
    is_scalar_value, parse_i64,
};
use crate::ordered_map::{find_key, OrderedMap};
use crate::pattern::{check_pattern, regex_compiles, regex_error_text};
use crate::sdl::{
    directive_views, DirectiveInfo, DirectiveView, EnumTypeInfo, EnumTypeView, InputFieldInfo, InputFieldView,
    InputTypeInfo, InputTypeView, ScalarTypeInfo, ScalarTypeView, SdlAst, SdlAstView,
    UnionTypeInfo, UnionTypeView,
};
use crate::text::{
    chars_of, push_char, push_str, str_eq, strip_back, strip_back_exec, strip_front,
    strip_front_exec, string_from_chars, to_string, trim_class, trim_class_exec, views, CharClass,
};
use vstd::prelude::*;

verus! {

/// The value text of the first argument called `name`.
pub open spec fn arg_value(args: Seq<(Seq<char>, Seq<char>)>, name: Seq<char>) -> Option<Seq<char>>
    decreases args.len(),
{
    if args.len() == 0 {
        None
    } else if args[0].0 == name {
        Some(args[0].1)
    } else {
        arg_value(args.drop_first(), name)
    }
}

/// The code point of a character.
pub open spec fn code_of(c: char) -> int {
    c as int
}

/// The character with a code point.
pub open spec fn char_with_code(code: int) -> char {
    choose|c: char| #[trigger] code_of(c) == code
}

/// A GraphQL string body with its escapes resolved: `\n`, `\t`, `\r`, `\b`,
/// `\f`, `\\`, `\"`, `\'`, and `\u` with up to four hexadecimal digits (the
/// escape vanishes when they do not denote a character); any other escaped
/// character keeps its backslash, as does a final lone backslash.
pub open spec fn unescape(t: Seq<char>) -> Seq<char>
    decreases t.len(),
{
    if t.len() == 0 {
        Seq::empty()
    } else if t[0] != '\\' {
        seq![t[0]] + unescape(t.drop_first())
    } else if t.len() == 1 {
        seq!['\\']
    } else {
        let c = t[1];
        let rest = t.skip(2);
        if c == 'u' {
            let n: int = if rest.len() < 4 {
                rest.len() as int
            } else {
                4
            };
            let decoded = match hex_value(rest.take(n)) {
                Some(code) => if is_scalar_value(code) {
                    seq![char_with_code(code)]
                } else {
                    Seq::empty()
                },
                None => Seq::empty(),
            };
            decoded + unescape(rest.skip(n))
        } else {
            let out = if c == 'n' {
                seq!['\n']
            } else if c == 't' {
                seq!['\t']
            } else if c == 'r' {
                seq!['\r']
            } else if c == 'b' {
                seq!['\x08']
            } else if c == 'f' {
                seq!['\x0c']
            } else if c == '\\' {
                seq!['\\']
            } else if c == '"' {
                seq!['"']
            } else if c == '\'' {
                seq!['\'']
            } else {
                seq!['\\', c]
            };
            out + unescape(rest)
        }
    }
}

/// Whether a (trimmed) value starts and ends with the same quote character.
pub open spec fn is_quoted(s: Seq<char>) -> bool {
    s.len() > 0 && ((s[0] == '"' && s.last() == '"') || (s[0] == '\'' && s.last() == '\''))
}

/// An argument value as a plain string: trimmed of white space, then, when
/// quoted, without its quotes and with its escapes resolved.
pub open spec fn unquote(v: Seq<char>) -> Seq<char> {
    let s = trim_class(v, CharClass::WhiteSpace);
    if is_quoted(s) {
        unescape(s.subrange(1, s.len() - 1))
    } else {
        s
    }
}

/// Whether a value, trimmed, is a single quote character (which has no
/// inside to take).
pub open spec fn lone_quote(v: Seq<char>) -> bool {
    let s = trim_class(v, CharClass::WhiteSpace);
    is_quoted(s) && s.len() == 1
}

/// The first argument called `name` of a directive, as a plain string.
pub open spec fn arg_unquoted(d: DirectiveView, name: Seq<char>) -> Option<Seq<char>> {
    match arg_value(d.arguments, name) {
        Some(v) => Some(unquote(v)),
        None => None,
    }
}

/// Whether the first argument called `name`, if any, can be unquoted.
pub open spec fn arg_unquotable(d: DirectiveView, name: Seq<char>) -> bool {
    match arg_value(d.arguments, name) {
        Some(v) => !lone_quote(v),
        None => true,
    }
}

/// The first directive called `name`.
pub open spec fn first_directive(ds: Seq<DirectiveView>, name: Seq<char>) -> Option<DirectiveView>
    decreases ds.len(),
{
    if ds.len() == 0 {
        None
    } else if ds[0].name == name {
        Some(ds[0])
    } else {
        first_directive(ds.drop_first(), name)
    }
}

/// The schema of a named type: the built-in scalars, else a reference.
pub open spec fn named_type_schema(n: Seq<char>) -> SchemaView {
    if n == "String"@ || n == "ID"@ {
        SchemaView::Scalar(ScalarKindView::String { pattern: None })
    } else if n == "Int"@ {
        SchemaView::Scalar(ScalarKindView::Int { min: None, max: None })
    } else if n == "Float"@ {
        SchemaView::Scalar(ScalarKindView::Float { min: None, max: None })
    } else if n == "Boolean"@ {
        SchemaView::Scalar(ScalarKindView::Boolean)
    } else {
        SchemaView::Ref(n)
    }
}

/// The schema of a type reference: `[T]` (any `!` marks dropped) is an
/// array of `T`, anything else a named type.
pub open spec fn type_ref_schema(t: Seq<char>) -> SchemaView {
    let trimmed = strip_back(t, CharClass::Is('!'));
    if trimmed.len() > 0 && trimmed[0] == '[' && trimmed.last() == ']' {
        let inner = strip_back(strip_front(trimmed, CharClass::Is('[')), CharClass::Is(']'));
        SchemaView::Array(Box::new(named_type_schema(strip_back(inner, CharClass::Is('!')))))
    } else {
        named_type_schema(trimmed)
    }
}

/// A schema with a pattern set: on a string or custom scalar; others are
/// left as they are.
pub open spec fn with_pattern(schema: SchemaView, p: Seq<char>) -> SchemaView {
    match schema {
        SchemaView::Scalar(ScalarKindView::String { .. }) => SchemaView::Scalar(
            ScalarKindView::String { pattern: Some(p) },
        ),
        SchemaView::Scalar(ScalarKindView::Custom { name, min_length, max_length, .. }) =>
            SchemaView::Scalar(
            ScalarKindView::Custom { name, pattern: Some(p), min_length, max_length },
        ),
        _ => schema,
    }
}

/// A schema with a bound set by directive `dir_name` (`min` or `max`): on
/// an integer or float scalar; others are left as they are.
pub open spec fn with_range(schema: SchemaView, dir_name: Seq<char>, v: i64) -> SchemaView {
    match schema {
        SchemaView::Scalar(ScalarKindView::Int { min, max }) => SchemaView::Scalar(
            ScalarKindView::Int {
                min: if dir_name == "min"@ {
                    Some(v)
                } else {
                    min
                },
                max: if dir_name == "max"@ {
                    Some(v)
                } else {
                    max
                },
            },
        ),
        SchemaView::Scalar(ScalarKindView::Float { min, max }) => SchemaView::Scalar(
            ScalarKindView::Float {
                min: if dir_name == "min"@ {
                    Some(v)
                } else {
                    min
                },
                max: if dir_name == "max"@ {
                    Some(v)
                } else {
                    max
                },
            },
        ),
        _ => schema,
    }
}

/// The bounds of a numeric scalar (integer or float): minimum and maximum.
pub open spec fn numeric_bounds(s: SchemaView) -> Option<(Option<i64>, Option<i64>)> {
    match s {
        SchemaView::Scalar(ScalarKindView::Int { min, max }) => Some((min, max)),
        SchemaView::Scalar(ScalarKindView::Float { min, max }) => Some((min, max)),
        _ => None,
    }
}

/// `@min(value: v)` and `@max(value: v)` on a numeric field, integer or
/// float alike, keep the scalar's kind and set that bound to `v`, leaving
/// the other bound as it was; on any other schema they change nothing.
pub proof fn law_range_sets_bound(s: SchemaView, v: i64)
    ensures
        numeric_bounds(s) matches Some((lo, hi)) ==> {
            &&& numeric_bounds(with_range(s, "min"@, v)) == Some((Some(v), hi))
            &&& numeric_bounds(with_range(s, "max"@, v)) == Some((lo, Some(v)))
            &&& (s matches SchemaView::Scalar(ScalarKindView::Float { .. })) ==> with_range(
                s,
                "min"@,
                v,
            ) is Scalar && with_range(s, "min"@, v)->Scalar_0 is Float && with_range(
                s,
                "max"@,
                v,
            )->Scalar_0 is Float
            &&& (s matches SchemaView::Scalar(ScalarKindView::Int { .. })) ==> with_range(
                s,
                "min"@,
                v,
            ) is Scalar && with_range(s, "min"@, v)->Scalar_0 is Int && with_range(
                s,
                "max"@,
                v,
            )->Scalar_0 is Int
        },
        numeric_bounds(s) is None ==> with_range(s, "min"@, v) == s && with_range(s, "max"@, v) == s,
{
    reveal_strlit("min");
    reveal_strlit("max");
    assert("min"@ != "max"@) by {
        assert("min"@[1] != "max"@[1]);
    }
}

/// The `i64` a decimal text denotes, if it denotes one.
pub open spec fn range_value(v: Seq<char>) -> Option<i64> {
    match decimal_int_value(v) {
        Some(x) => if i64::MIN <= x <= i64::MAX {
            Some(x as i64)
        } else {
            None
        },
        None => None,
    }
}

/// The error for a pattern the regex crate refuses.
pub open spec fn invalid_regex(target: Seq<char>, p: Seq<char>) -> LoweringErrorView {
    pattern_rejected(target, regex_error_text(p))
}

/// The error for a `@pattern` whose regex the regex crate refused with the
/// message `message`.
pub open spec fn pattern_rejected(target: Seq<char>, message: Seq<char>) -> LoweringErrorView {
    LoweringErrorView::InvalidDirective {
        directive: "pattern"@,
        target,
        reason: "invalid regex: "@ + message,
    }
}

/// The error for a bound that is not an `i64`.
pub open spec fn invalid_integer(dir_name: Seq<char>, target: Seq<char>, v: Seq<char>) -> LoweringErrorView {
    LoweringErrorView::InvalidDirective {
        directive: dir_name,
        target,
        reason: "invalid integer: "@ + int_parse_error_text(v),
    }
}

/// A field's schema and errors after one more directive.
pub open spec fn field_step(
    f: InputFieldView,
    acc: (SchemaView, Seq<LoweringErrorView>),
    d: DirectiveView,
) -> (SchemaView, Seq<LoweringErrorView>) {
    if d.name == "pattern"@ {
        match arg_unquoted(d, "regex"@) {
            Some(p) => if regex_compiles(p) {
                (with_pattern(acc.0, p), acc.1)
            } else {
                (acc.0, acc.1.push(invalid_regex(f.name, p)))
            },
            None => acc,
        }
    } else if d.name == "min"@ || d.name == "max"@ {
        match arg_unquoted(d, "value"@) {
            Some(v) => match range_value(v) {
                Some(x) => (with_range(acc.0, d.name, x), acc.1),
                None => (acc.0, acc.1.push(invalid_integer(d.name, f.name, v))),
            },
            None => acc,
        }
    } else {
        acc
    }
}

/// A field's schema and errors after its first `n` directives.
pub open spec fn field_fold(f: InputFieldView, n: nat) -> (SchemaView, Seq<LoweringErrorView>)
    decreases n,
{
    if n == 0 || n > f.directives.len() {
        (type_ref_schema(f.type_ref), Seq::empty())
    } else {
        field_step(f, field_fold(f, (n - 1) as nat), f.directives[n - 1])
    }
}

/// A field's schema and the errors of its directives.
pub open spec fn field_lowered(f: InputFieldView) -> (SchemaView, Seq<LoweringErrorView>) {
    field_fold(f, f.directives.len())
}

/// The additional-properties policy of an input type and the errors of its
/// directives: `@mapRest(value: T)` allows values of a known type `T`
/// (else any, with an error); `@open` allows any; `@closed`, or no
/// directive, rejects; `@closed` with `@open` is an error.
pub open spec fn policy_of(
    ds: Seq<DirectiveView>,
    target: Seq<char>,
    names: Seq<Seq<char>>,
) -> (PolicyView, Seq<LoweringErrorView>) {
    let closed = first_directive(ds, "closed"@) is Some;
    let open = first_directive(ds, "open"@) is Some;
    let conflict = if closed && open {
        seq![
            LoweringErrorView::ConflictingDirectives {
                target,
                detail: "@closed and @open are mutually exclusive"@,
            },
        ]
    } else {
        Seq::empty()
    };
    match first_directive(ds, "mapRest"@) {
        Some(mr) => match arg_value(mr.arguments, "value"@) {
            Some(rt) => if names.contains(rt) {
                (PolicyView::AllowSchema(Box::new(SchemaView::Ref(rt))), conflict)
            } else {
                (PolicyView::AllowAny, conflict.push(LoweringErrorView::UnresolvedRef { name: rt }))
            },
            None => (PolicyView::AllowAny, conflict),
        },
        None => if closed {
            (PolicyView::Reject, conflict)
        } else if open {
            (PolicyView::AllowAny, conflict)
        } else {
            (PolicyView::Reject, conflict)
        },
    }
}

/// The required and optional property maps and the errors of an input
/// type's first `n` fields.
pub open spec fn fields_fold(input: InputTypeView, n: nat) -> (
    Seq<(Seq<char>, SchemaView)>,
    Seq<(Seq<char>, SchemaView)>,
    Seq<LoweringErrorView>,
)
    decreases n,
{
    if n == 0 || n > input.fields.len() {
        (Seq::empty(), Seq::empty(), Seq::empty())
    } else {
        let acc = fields_fold(input, (n - 1) as nat);
        let f = input.fields[n - 1];
        let lowered = field_lowered(f);
        if f.required {
            (insert_entry(acc.0, f.name, lowered.0), acc.1, acc.2 + lowered.1)
        } else {
            (acc.0, insert_entry(acc.1, f.name, lowered.0), acc.2 + lowered.1)
        }
    }
}

/// The object schema of an input type.
pub open spec fn input_schema(input: InputTypeView, names: Seq<Seq<char>>) -> SchemaView {
    let props = fields_fold(input, input.fields.len());
    SchemaView::Object {
        required: props.0,
        optional: props.1,
        additional: policy_of(input.directives, input.name, names).0,
    }
}

/// The errors of lowering an input type: its policy's, then its fields'.
pub open spec fn input_errors(input: InputTypeView, names: Seq<Seq<char>>) -> Seq<LoweringErrorView> {
    policy_of(input.directives, input.name, names).1 + fields_fold(input, input.fields.len()).2
}

/// A custom scalar's pattern (the last valid one) and errors after its
/// first `n` directives.
pub open spec fn scalar_fold(sc: ScalarTypeView, n: nat) -> (Option<Seq<char>>, Seq<LoweringErrorView>)
    decreases n,
{
    if n == 0 || n > sc.directives.len() {
        (None, Seq::empty())
    } else {
        let acc = scalar_fold(sc, (n - 1) as nat);
        let d = sc.directives[n - 1];
        if d.name == "pattern"@ {
            match arg_unquoted(d, "regex"@) {
                Some(v) => if regex_compiles(v) {
                    (Some(v), acc.1)
                } else {
                    (acc.0, acc.1.push(invalid_regex(sc.name, v)))
                },
                None => acc,
            }
        } else {
            acc
        }
    }
}

/// The schema of a custom scalar.
pub open spec fn scalar_schema(sc: ScalarTypeView) -> SchemaView {
    SchemaView::Scalar(
        ScalarKindView::Custom {
            name: sc.name,
            pattern: scalar_fold(sc, sc.directives.len()).0,
            min_length: None,
            max_length: None,
        },
    )
}

/// Each member with a reference to it.
pub open spec fn member_refs(ms: Seq<Seq<char>>) -> Seq<(Seq<char>, SchemaView)> {
    ms.map_values(|m: Seq<char>| (m, SchemaView::Ref(m)))
}

/// The first `n` members inserted into a map, each to a reference to it.
pub open spec fn members_inserted(ms: Seq<Seq<char>>, n: nat) -> Seq<(Seq<char>, SchemaView)>
    decreases n,
{
    if n == 0 || n > ms.len() {
        Seq::empty()
    } else {
        insert_entry(members_inserted(ms, (n - 1) as nat), ms[n - 1], SchemaView::Ref(ms[n - 1]))
    }
}

/// The schema of a union: discriminated by the `field` of a
/// `@discriminator` directive, else a oneOf of its members.
pub open spec fn union_schema(u: UnionTypeView) -> SchemaView {
    match first_directive(u.directives, "discriminator"@) {
        Some(d) => match arg_value(d.arguments, "field"@) {
            Some(field) => SchemaView::DiscriminatedUnion {
                discriminator: field,
                mapping: members_inserted(u.members, u.members.len()),
            },
            None => SchemaView::OneOf(member_refs(u.members)),
        },
        None => SchemaView::OneOf(member_refs(u.members)),
    }
}

/// The names of all type definitions.
pub open spec fn type_names(ast: SdlAstView) -> Seq<Seq<char>> {
    ast.inputs.map_values(|i: InputTypeView| i.name) + ast.enums.map_values(
        |e: EnumTypeView| e.name,
    ) + ast.unions.map_values(|u: UnionTypeView| u.name) + ast.scalars.map_values(
        |s: ScalarTypeView| s.name,
    )
}

/// The named schemas in the order they are inserted: scalars, enums,
/// inputs, unions.
pub open spec fn lowered_definitions(ast: SdlAstView) -> Seq<(Seq<char>, SchemaView)> {
    let names = type_names(ast);
    ast.scalars.map_values(|s: ScalarTypeView| (s.name, scalar_schema(s))) + ast.enums.map_values(
        |e: EnumTypeView| (e.name, SchemaView::Enum(e.values)),
    ) + ast.inputs.map_values(|i: InputTypeView| (i.name, input_schema(i, names)))
        + ast.unions.map_values(|u: UnionTypeView| (u.name, union_schema(u)))
}

/// The first `n` definitions inserted into a bundle.
pub open spec fn inserted(defs: Seq<(Seq<char>, SchemaView)>, n: nat) -> Seq<(Seq<char>, SchemaView)>
    decreases n,
{
    if n == 0 || n > defs.len() {
        Seq::empty()
    } else {
        insert_entry(inserted(defs, (n - 1) as nat), defs[n - 1].0, defs[n - 1].1)
    }
}

/// The entries of the compiled bundle.
pub open spec fn compiled_entries(ast: SdlAstView) -> Seq<(Seq<char>, SchemaView)> {
    let defs = lowered_definitions(ast);
    inserted(defs, defs.len())
}

/// The errors of the first `n` scalars.
pub open spec fn scalars_errors(scs: Seq<ScalarTypeView>, n: nat) -> Seq<LoweringErrorView>
    decreases n,
{
    if n == 0 || n > scs.len() {
        Seq::empty()
    } else {
        scalars_errors(scs, (n - 1) as nat) + scalar_fold(scs[n - 1], scs[n - 1].directives.len()).1
    }
}

/// The errors of the first `n` inputs.
pub open spec fn inputs_errors(ins: Seq<InputTypeView>, n: nat, names: Seq<Seq<char>>) -> Seq<
    LoweringErrorView,
>
    decreases n,
{
    if n == 0 || n > ins.len() {
        Seq::empty()
    } else {
        inputs_errors(ins, (n - 1) as nat, names) + input_errors(ins[n - 1], names)
    }
}

/// All errors of compiling: the scalars', then the inputs'.
pub open spec fn compile_errors(ast: SdlAstView) -> Seq<LoweringErrorView> {
    scalars_errors(ast.scalars, ast.scalars.len()) + inputs_errors(
        ast.inputs,
        ast.inputs.len(),
        type_names(ast),
    )
}

/// The name of the first input type with a `@root` directive.
pub open spec fn first_root(ins: Seq<InputTypeView>) -> Option<Seq<char>>
    decreases ins.len(),
{
    if ins.len() == 0 {
        None
    } else if first_directive(ins[0].directives, "root"@) is Some {
        Some(ins[0].name)
    } else {
        first_root(ins.drop_first())
    }
}

/// The root schema name: the first input marked `@root`, else the last
/// input type.
pub open spec fn compiled_root(ast: SdlAstView) -> Option<Seq<char>> {
    match first_root(ast.inputs) {
        Some(n) => Some(n),
        None => if ast.inputs.len() > 0 {
            Some(ast.inputs.last().name)
        } else {
            None
        },
    }
}

/// Whether the pattern arguments of a scalar's directives can be unquoted.
pub open spec fn scalar_unquotable(sc: ScalarTypeView) -> bool {
    forall|k: int|
        0 <= k < sc.directives.len() && (#[trigger] sc.directives[k]).name == "pattern"@
            ==> arg_unquotable(sc.directives[k], "regex"@)
}

/// Whether the pattern and bound arguments of a field's directives can be
/// unquoted.
pub open spec fn field_unquotable(f: InputFieldView) -> bool {
    forall|k: int|
        0 <= k < f.directives.len() ==> {
            let d = #[trigger] f.directives[k];
            &&& d.name == "pattern"@ ==> arg_unquotable(d, "regex"@)
            &&& (d.name == "min"@ || d.name == "max"@) ==> arg_unquotable(d, "value"@)
        }
}

/// Whether every argument value that compiling unquotes can be unquoted:
/// none is, trimmed, a single quote character.
pub open spec fn unquotable(ast: SdlAstView) -> bool {
    &&& forall|k: int| 0 <= k < ast.scalars.len() ==> scalar_unquotable(#[trigger] ast.scalars[k])
    &&& forall|k: int, j: int|
        0 <= k < ast.inputs.len() && 0 <= j < ast.inputs[k].fields.len() ==> field_unquotable(
            #[trigger] ast.inputs[k].fields[j],
        )
}

/// The value text of the first argument of `dir` called `name`.
fn dir_arg<'a>(dir: &'a DirectiveInfo, name: &str) -> (r: Option<&'a str>)
    ensures
        match r {
            Some(v) => arg_value(dir@.arguments, name@) == Some(v@),
            None => arg_value(dir@.arguments, name@) is None,
        },
{
    let ghost args = dir@.arguments;
    let mut k: usize = 0;
    assert(args.skip(0) =~= args);
    while k < dir.arguments.len()
        invariant
            k <= dir.arguments@.len(),
            args == dir@.arguments,
            args.len() == dir.arguments@.len(),
            arg_value(args, name@) == arg_value(args.skip(k as int), name@),
        decreases dir.arguments@.len() - k,
    {
        assert(args.skip(k as int)[0] == args[k as int]);
        if str_eq(dir.arguments[k].0.as_str(), name) {
            return Some(dir.arguments[k].1.as_str());
        }
        assert(args.skip(k as int).drop_first() =~= args.skip(k as int + 1));
        k = k + 1;
    }
    None
}

proof fn lemma_concat_assoc(a: Seq<char>, b: Seq<char>, c: Seq<char>)
    ensures
        a + (b + c) == (a + b) + c,
{
    assert(a + (b + c) =~= (a + b) + c);
}

/// A GraphQL string body with its escapes resolved.
fn unescape_graphql_string(s: &str) -> (r: String)
    ensures
        r@ == unescape(s@),
{
    let v = chars_of(s);
    let n = v.len();
    let mut out = String::new();
    let mut i: usize = 0;
    assert(v@.skip(0) =~= v@);
    while i < n
        invariant
            i <= n,
            n == v@.len(),
            v@ == s@,
            out@ + unescape(v@.skip(i as int)) == unescape(s@),
        decreases n - i,
    {
        let ghost t = v@.skip(i as int);
        let ghost before = out@;
        assert(t[0] == v@[i as int]);
        let c = v[i];
        if c != '\\' {
            push_char(&mut out, c);
            assert(t.drop_first() =~= v@.skip(i as int + 1));
            proof {
                lemma_concat_assoc(before, seq![c], unescape(v@.skip(i as int + 1)));
            }
            i = i + 1;
        } else if i + 1 == n {
            push_char(&mut out, '\\');
            assert(t.len() == 1);
            assert(v@.skip(n as int) =~= Seq::<char>::empty());
            assert(out@ =~= before + seq!['\\']);
            i = i + 1;
        } else {
            let e = v[i + 1];
            assert(t[1] == e);
            assert(t.skip(2) =~= v@.skip(i as int + 2));
            if e == 'u' {
                let mut hex: Vec<char> = Vec::new();
                let mut j = i + 2;
                while j < n && j - i < 6
                    invariant
                        i + 2 <= j <= n,
                        j - i <= 6,
                        n == v@.len(),
                        hex@ == v@.subrange(i as int + 2, j as int),
                    decreases n - j,
                {
                    hex.push(v[j]);
                    assert(hex@ =~= v@.subrange(i as int + 2, j as int + 1));
                    j = j + 1;
                }
                let ghost rest = v@.skip(i as int + 2);
                let ghost m: int = if rest.len() < 4 {
                    rest.len() as int
                } else {
                    4
                };
                assert(j == i + 2 + m);
                assert(rest.take(m) =~= hex@);
                assert(rest.skip(m) =~= v@.skip(j as int));
                let ghost decoded = match hex_value(rest.take(m)) {
                    Some(code) => if is_scalar_value(code) {
                        seq![char_with_code(code)]
                    } else {
                        Seq::<char>::empty()
                    },
                    None => Seq::<char>::empty(),
                };
                match hex_value_exec(hex.as_slice()) {
                    Some(code) => match char_from_u32(code) {
                        Some(ch) => {
                            assert(code_of(ch) == code as int);
                            assert(char_with_code(code as int) == ch);
                            push_char(&mut out, ch);
                            assert(out@ =~= before + decoded);
                        },
                        None => {
                            assert(out@ =~= before + decoded);
                        },
                    },
                    None => {
                        assert(out@ =~= before + decoded);
                    },
                }
                proof {
                    lemma_concat_assoc(before, decoded, unescape(v@.skip(j as int)));
                }
                i = j;
            } else {
                let ghost piece = if e == 'n' {
                    seq!['\n']
                } else if e == 't' {
                    seq!['\t']
                } else if e == 'r' {
                    seq!['\r']
                } else if e == 'b' {
                    seq!['\x08']
                } else if e == 'f' {
                    seq!['\x0c']
                } else if e == '\\' {
                    seq!['\\']
                } else if e == '"' {
                    seq!['"']
                } else if e == '\'' {
                    seq!['\'']
                } else {
                    seq!['\\', e]
                };
                if e == 'n' {
                    push_char(&mut out, '\n');
                } else if e == 't' {
                    push_char(&mut out, '\t');
                } else if e == 'r' {
                    push_char(&mut out, '\r');
                } else if e == 'b' {
                    push_char(&mut out, '\x08');
                } else if e == 'f' {
                    push_char(&mut out, '\x0c');
                } else if e == '\\' {
                    push_char(&mut out, '\\');
                } else if e == '"' {
                    push_char(&mut out, '"');
                } else if e == '\'' {
                    push_char(&mut out, '\'');
                } else {
                    push_char(&mut out, '\\');
                    push_char(&mut out, e);
                }
                assert(out@ =~= before + piece);
                proof {
                    lemma_concat_assoc(before, piece, unescape(v@.skip(i as int + 2)));
                }
                i = i + 2;
            }
        }
    }
    assert(v@.skip(n as int) =~= Seq::<char>::empty());
    assert(out@ + Seq::<char>::empty() =~= out@);
    out
}

/// The first argument of `dir` called `name`, as a plain string.
fn dir_arg_unquote(dir: &DirectiveInfo, name: &str) -> (r: Option<String>)
    requires
        arg_unquotable(dir@, name@),
    ensures
        opt_chars(r) == arg_unquoted(dir@, name@),
{
    match dir_arg(dir, name) {
        Some(v) => {
            let s = trim_class_exec(v, CharClass::WhiteSpace);
            let cs = chars_of(s.as_str());
            let n = cs.len();
            if n > 0 && ((cs[0] == '"' && cs[n - 1] == '"') || (cs[0] == '\'' && cs[n - 1]
                == '\'')) {
                let inner = crate::text::string_from_range(&cs, 1, n - 1);
                Some(unescape_graphql_string(inner.as_str()))
            } else {
                Some(s)
            }
        },
        None => None,
    }
}

/// The schema after a `@pattern` directive on a field, given the outcome of
/// compiling its pattern: on success the pattern is set (string and custom
/// scalars; other schemas are unchanged); on failure the schema is unchanged
/// and an error with the regex crate's message is added for the field.
pub fn apply_pattern_outcome(
    schema: Schema,
    pattern: &str,
    field_name: &str,
    outcome: Result<(), String>,
    errors: &mut Vec<LoweringError>,
) -> (r: Schema)
    ensures
        outcome is Ok ==> schema_view(r) == with_pattern(schema_view(schema), pattern@)
            && final(errors)@ == old(errors)@,
        outcome matches Err(e) ==> r == schema && lowering_views(final(errors)@)
            == lowering_views(old(errors)@).push(pattern_rejected(field_name@, e@)),
{
    match outcome {
        Ok(_) => match schema {
            Schema::Scalar(ScalarKind::String { .. }) => Schema::Scalar(
                ScalarKind::String { pattern: Some(to_string(pattern)) },
            ),
            Schema::Scalar(ScalarKind::Custom { name, constraints }) => {
                let constraints = ScalarConstraints {
                    pattern: Some(to_string(pattern)),
                    min_length: constraints.min_length,
                    max_length: constraints.max_length,
                };
                Schema::Scalar(ScalarKind::Custom { name, constraints })
            },
            other => other,
        },
        Err(e) => {
            let mut reason = to_string("invalid regex: ");
            push_str(&mut reason, e.as_str());
            let err = LoweringError::InvalidDirective {
                directive: to_string("pattern"),
                target: to_string(field_name),
                reason,
            };
            proof {
                reveal_strlit("pattern");
            }
            errors.push(err);
            assert(lowering_views(errors@) =~= lowering_views(old(errors)@).push(err@));
            schema
        },
    }
}

/// The schema with the pattern set (string and custom scalars) when the
/// pattern compiles; otherwise unchanged, with an error for the field.
fn apply_pattern_to_schema(
    schema: Schema,
    pattern: &str,
    field_name: &str,
    errors: &mut Vec<LoweringError>,
) -> (r: Schema)
    ensures
        regex_compiles(pattern@) ==> schema_view(r) == with_pattern(schema_view(schema), pattern@)
            && final(errors)@ == old(errors)@,
        !regex_compiles(pattern@) ==> r == schema && lowering_views(final(errors)@)
            == lowering_views(old(errors)@).push(invalid_regex(field_name@, pattern@)),
{
    let outcome = check_pattern(pattern);
    apply_pattern_outcome(schema, pattern, field_name, outcome, errors)
}

/// The schema with the bound of directive `dir_name` set (integer and
/// float scalars) when the value is an `i64`; otherwise unchanged, with an
/// error for the field.
fn apply_range_to_schema(
    schema: Schema,
    dir_name: &str,
    value_str: &str,
    field_name: &str,
    errors: &mut Vec<LoweringError>,
) -> (r: Schema)
    ensures
        range_value(value_str@) matches Some(x) ==> schema_view(r) == with_range(
            schema_view(schema),
            dir_name@,
            x,
        ) && final(errors)@ == old(errors)@,
        range_value(value_str@) is None ==> r == schema && lowering_views(final(errors)@)
            == lowering_views(old(errors)@).push(invalid_integer(dir_name@, field_name@, value_str@)),
{
    let value = match parse_i64(value_str) {
        Ok(v) => v,
        Err(e) => {
            let mut reason = to_string("invalid integer: ");
            push_str(&mut reason, e.as_str());
            let err = LoweringError::InvalidDirective {
                directive: to_string(dir_name),
                target: to_string(field_name),
                reason,
            };
            errors.push(err);
            assert(lowering_views(errors@) =~= lowering_views(old(errors)@).push(err@));
            return schema;
        },
    };
    let is_min = str_eq(dir_name, "min");
    let is_max = str_eq(dir_name, "max");
    match schema {
        Schema::Scalar(ScalarKind::Int { min, max }) => Schema::Scalar(
            ScalarKind::Int {
                min: if is_min {
                    Some(value)
                } else {
                    min
                },
                max: if is_max {
                    Some(value)
                } else {
                    max
                },
            },
        ),
        Schema::Scalar(ScalarKind::Float { min, max }) => Schema::Scalar(
            ScalarKind::Float {
                min: if is_min {
                    Some(value)
                } else {
                    min
                },
                max: if is_max {
                    Some(value)
                } else {
                    max
                },
            },
        ),
        other => other,
    }
}

/// The first directive called `name`.
fn find_directive<'a>(ds: &'a Vec<DirectiveInfo>, name: &str) -> (r: Option<&'a DirectiveInfo>)
    ensures
        match r {
            Some(d) => first_directive(directive_views(ds@), name@) == Some(d@),
            None => first_directive(directive_views(ds@), name@) is None,
        },
{
    let ghost dv = directive_views(ds@);
    let mut k: usize = 0;
    assert(dv.skip(0) =~= dv);
    while k < ds.len()
        invariant
            k <= ds@.len(),
            dv == directive_views(ds@),
            first_directive(dv, name@) == first_directive(dv.skip(k as int), name@),
        decreases ds@.len() - k,
    {
        assert(dv.skip(k as int)[0] == ds@[k as int]@);
        if str_eq(ds[k].name.as_str(), name) {
            return Some(&ds[k]);
        }
        assert(dv.skip(k as int).drop_first() =~= dv.skip(k as int + 1));
        k = k + 1;
    }
    None
}

/// The state of lowering: the bundle built so far, the errors found so far
/// and the names of all type definitions.
struct LoweringContext {
    bundle: SchemaBundle,
    errors: Vec<LoweringError>,
    type_names: Vec<String>,
}

impl LoweringContext {
    spec fn entries(&self) -> Seq<(Seq<char>, SchemaView)> {
        bundle_entries(self.bundle.schemas.entries@)
    }

    spec fn errs(&self) -> Seq<LoweringErrorView> {
        lowering_views(self.errors@)
    }

    spec fn names(&self) -> Seq<Seq<char>> {
        views(self.type_names@)
    }

    fn has_type_name(&self, name: &str) -> (r: bool)
        ensures
            r == self.names().contains(name@),
    {
        let mut k: usize = 0;
        while k < self.type_names.len()
            invariant
                k <= self.type_names@.len(),
                forall|j: int| 0 <= j < k ==> self.type_names@[j]@ != name@,
            decreases self.type_names@.len() - k,
        {
            if str_eq(self.type_names[k].as_str(), name) {
                assert(self.names()[k as int] == name@);
                return true;
            }
            k = k + 1;
        }
        false
    }

    fn insert_schema(&mut self, name: String, schema: Schema)
        ensures
            final(self).entries() == insert_entry(old(self).entries(), name@, schema_view(schema)),
            final(self).errors == old(self).errors,
            final(self).type_names == old(self).type_names,
            final(self).bundle.root_name == old(self).bundle.root_name,
    {
        let ghost before = self.bundle.schemas.entries@;
        let ghost key = name;
        let ghost sch = schema;
        self.bundle.insert(name, schema);
        proof {
            lemma_bundle_insert(before, self.bundle.schemas.entries@, key, sch);
        }
    }

    fn lower_scalar(&mut self, scalar: &ScalarTypeInfo)
        requires
            scalar_unquotable(scalar@),
        ensures
            final(self).entries() == insert_entry(
                old(self).entries(),
                scalar.name@,
                scalar_schema(scalar@),
            ),
            final(self).errs() == old(self).errs() + scalar_fold(
                scalar@,
                scalar@.directives.len(),
            ).1,
            final(self).type_names == old(self).type_names,
            final(self).bundle.root_name == old(self).bundle.root_name,
    {
        let ghost sc = scalar@;
        let ghost base = self.errs();
        let mut pattern: Option<String> = None;
        let mut k: usize = 0;
        while k < scalar.directives.len()
            invariant
                k <= scalar.directives@.len(),
                sc == scalar@,
                scalar_unquotable(sc),
                opt_chars(pattern) == scalar_fold(sc, k as nat).0,
                self.errs() == base + scalar_fold(sc, k as nat).1,
                self.type_names == old(self).type_names,
                self.bundle == old(self).bundle,
            decreases scalar.directives@.len() - k,
        {
            let dir = &scalar.directives[k];
            assert(sc.directives[k as int] == dir@);
            if str_eq(dir.name.as_str(), "pattern") {
                match dir_arg_unquote(dir, "regex") {
                    Some(val) => match check_pattern(val.as_str()) {
                        Ok(_) => {
                            pattern = Some(val);
                        },
                        Err(e) => {
                            let mut reason = to_string("invalid regex: ");
                            push_str(&mut reason, e.as_str());
                            let err = LoweringError::InvalidDirective {
                                directive: to_string("pattern"),
                                target: scalar.name.clone(),
                                reason,
                            };
                            let ghost prev = self.errs();
                            self.errors.push(err);
                            proof {
                                reveal_strlit("pattern");
                            }
                            assert(self.errs() =~= prev.push(err@));
                            assert(base + scalar_fold(sc, k as nat).1.push(err@) =~= (base
                                + scalar_fold(sc, k as nat).1).push(err@));
                        },
                    },
                    None => {},
                }
            }
            k = k + 1;
        }
        let constraints = ScalarConstraints { pattern, min_length: None, max_length: None };
        let schema = Schema::Scalar(ScalarKind::Custom { name: scalar.name.clone(), constraints });
        self.insert_schema(scalar.name.clone(), schema);
    }

    fn lower_enum(&mut self, en: &EnumTypeInfo)
        ensures
            final(self).entries() == insert_entry(
                old(self).entries(),
                en.name@,
                SchemaView::Enum(en@.values),
            ),
            final(self).errors == old(self).errors,
            final(self).type_names == old(self).type_names,
            final(self).bundle.root_name == old(self).bundle.root_name,
    {
        let schema = Schema::Enum { values: crate::text::clone_strings(&en.values) };
        self.insert_schema(en.name.clone(), schema);
    }

    fn resolve_named_type(&self, name: &str) -> (r: Schema)
        ensures
            schema_view(r) == named_type_schema(name@),
    {
        proof {
            reveal_strlit("String");
            reveal_strlit("ID");
            reveal_strlit("Int");
            reveal_strlit("Float");
            reveal_strlit("Boolean");
        }
        if str_eq(name, "String") || str_eq(name, "ID") {
            Schema::Scalar(ScalarKind::String { pattern: None })
        } else if str_eq(name, "Int") {
            Schema::Scalar(ScalarKind::Int { min: None, max: None })
        } else if str_eq(name, "Float") {
            Schema::Scalar(ScalarKind::Float { min: None, max: None })
        } else if str_eq(name, "Boolean") {
            Schema::Scalar(ScalarKind::Boolean)
        } else {
            Schema::Ref { name: to_string(name) }
        }
    }

    fn resolve_type_ref(&self, type_ref: &str) -> (r: Schema)
        ensures
            schema_view(r) == type_ref_schema(type_ref@),
    {
        let trimmed = strip_back_exec(type_ref, CharClass::Is('!'));
        let cs = chars_of(trimmed.as_str());
        let n = cs.len();
        if n > 0 && cs[0] == '[' && cs[n - 1] == ']' {
            let front = strip_front_exec(trimmed.as_str(), CharClass::Is('['));
            let inner = strip_back_exec(front.as_str(), CharClass::Is(']'));
            let inner_trimmed = strip_back_exec(inner.as_str(), CharClass::Is('!'));
            let element = self.resolve_named_type(inner_trimmed.as_str());
            Schema::Array { elements: Box::new(element) }
        } else {
            self.resolve_named_type(trimmed.as_str())
        }
    }

    fn lower_field_type(&mut self, field: &InputFieldInfo) -> (r: Schema)
        requires
            field_unquotable(field@),
        ensures
            schema_view(r) == field_lowered(field@).0,
            final(self).errs() == old(self).errs() + field_lowered(field@).1,
            final(self).type_names == old(self).type_names,
            final(self).bundle == old(self).bundle,
    {
        let ghost f = field@;
        let ghost base = self.errs();
        let mut schema = self.resolve_type_ref(field.type_ref.as_str());
        assert(base + Seq::<LoweringErrorView>::empty() =~= base);
        let mut k: usize = 0;
        while k < field.directives.len()
            invariant
                k <= field.directives@.len(),
                f == field@,
                field_unquotable(f),
                schema_view(schema) == field_fold(f, k as nat).0,
                self.errs() == base + field_fold(f, k as nat).1,
                self.type_names == old(self).type_names,
                self.bundle == old(self).bundle,
            decreases field.directives@.len() - k,
        {
            let dir = &field.directives[k];
            assert(f.directives[k as int] == dir@);
            let ghost acc = field_fold(f, k as nat);
            let ghost prev = self.errs();
            if str_eq(dir.name.as_str(), "pattern") {
                match dir_arg_unquote(dir, "regex") {
                    Some(pat) => {
                        schema = apply_pattern_to_schema(
                            schema,
                            pat.as_str(),
                            field.name.as_str(),
                            &mut self.errors,
                        );
                        assert(base + acc.1.push(invalid_regex(f.name, pat@)) =~= (base
                            + acc.1).push(invalid_regex(f.name, pat@)));
                    },
                    None => {},
                }
            } else if str_eq(dir.name.as_str(), "min") || str_eq(dir.name.as_str(), "max") {
                match dir_arg_unquote(dir, "value") {
                    Some(val) => {
                        schema = apply_range_to_schema(
                            schema,
                            dir.name.as_str(),
                            val.as_str(),
                            field.name.as_str(),
                            &mut self.errors,
                        );
                        assert(base + acc.1.push(invalid_integer(dir@.name, f.name, val@)) =~= (
                        base + acc.1).push(invalid_integer(dir@.name, f.name, val@)));
                    },
                    None => {},
                }
            }
            k = k + 1;
        }
        schema
    }

    fn lower_input(&mut self, input: &InputTypeInfo)
        requires
            forall|j: int|
                0 <= j < input@.fields.len() ==> field_unquotable(#[trigger] input@.fields[j]),
        ensures
            final(self).entries() == insert_entry(
                old(self).entries(),
                input.name@,
                input_schema(input@, old(self).names()),
            ),
            final(self).errs() == old(self).errs() + input_errors(input@, old(self).names()),
            final(self).type_names == old(self).type_names,
            final(self).bundle.root_name == old(self).bundle.root_name,
    {
        let ghost inp = input@;
        let ghost names = self.names();
        let ghost base = self.errs();
        let additional = self.compute_additional_policy(&input.directives, input.name.as_str());
        let ghost after_policy = self.errs();
        let mut required: OrderedMap<Box<Schema>> = OrderedMap::new();
        let mut optional: OrderedMap<Box<Schema>> = OrderedMap::new();
        assert(map_entries(required.entries@) =~= Seq::<(Seq<char>, SchemaView)>::empty());
        assert(map_entries(optional.entries@) =~= Seq::<(Seq<char>, SchemaView)>::empty());
        assert(after_policy + Seq::<LoweringErrorView>::empty() =~= after_policy);
        let mut k: usize = 0;
        while k < input.fields.len()
            invariant
                k <= input.fields@.len(),
                inp == input@,
                names == self.names(),
                forall|j: int|
                    0 <= j < inp.fields.len() ==> field_unquotable(#[trigger] inp.fields[j]),
                map_entries(required.entries@) == fields_fold(inp, k as nat).0,
                map_entries(optional.entries@) == fields_fold(inp, k as nat).1,
                self.errs() == after_policy + fields_fold(inp, k as nat).2,
                self.type_names == old(self).type_names,
                self.bundle == old(self).bundle,
            decreases input.fields@.len() - k,
        {
            let field = &input.fields[k];
            assert(inp.fields[k as int] == field@);
            let ghost acc = fields_fold(inp, k as nat);
            let field_schema = self.lower_field_type(field);
            let ghost lowered = field_lowered(field@);
            assert(after_policy + (acc.2 + lowered.1) =~= (after_policy + acc.2) + lowered.1);
            let boxed = Box::new(field_schema);
            if field.required {
                let ghost before = required.entries@;
                let key = field.name.clone();
                let ghost key_v = key;
                required.insert(key, boxed);
                proof {
                    lemma_map_insert(before, required.entries@, key_v, boxed);
                }
            } else {
                let ghost before = optional.entries@;
                let key = field.name.clone();
                let ghost key_v = key;
                optional.insert(key, boxed);
                proof {
                    lemma_map_insert(before, optional.entries@, key_v, boxed);
                }
            }
            k = k + 1;
        }
        let schema = Schema::Object { required, optional, additional };
        proof {
            lemma_entries_view(required.entries@, required.entries@.len());
            lemma_entries_view(optional.entries@, optional.entries@.len());
            assert(required.entries@.take(required.entries@.len() as int) =~= required.entries@);
            assert(optional.entries@.take(optional.entries@.len() as int) =~= optional.entries@);
            assert(schema_view(schema) == input_schema(inp, names));
            assert(base + input_errors(inp, names) =~= after_policy + fields_fold(
                inp,
                inp.fields.len(),
            ).2);
        }
        self.insert_schema(input.name.clone(), schema);
    }

    fn lower_union(&mut self, union: &UnionTypeInfo)
        ensures
            final(self).entries() == insert_entry(
                old(self).entries(),
                union.name@,
                union_schema(union@),
            ),
            final(self).errors == old(self).errors,
            final(self).type_names == old(self).type_names,
            final(self).bundle.root_name == old(self).bundle.root_name,
    {
        let ghost u = union@;
        let ghost members = union@.members;
        let discriminator = find_directive(&union.directives, "discriminator");
        let field = match discriminator {
            Some(disc) => dir_arg(disc, "field"),
            None => None,
        };
        match field {
            Some(field) => {
                let mut mapping: OrderedMap<Box<Schema>> = OrderedMap::new();
                assert(map_entries(mapping.entries@) =~= Seq::<(Seq<char>, SchemaView)>::empty());
                let mut k: usize = 0;
                while k < union.members.len()
                    invariant
                        k <= union.members@.len(),
                        members == union@.members,
                        map_entries(mapping.entries@) == members_inserted(members, k as nat),
                    decreases union.members@.len() - k,
                {
                    let ghost before = mapping.entries@;
                    let member = &union.members[k];
                    assert(members[k as int] == member@);
                    let key = member.clone();
                    let ghost key_v = key;
                    let boxed = Box::new(Schema::Ref { name: member.clone() });
                    mapping.insert(key, boxed);
                    proof {
                        lemma_map_insert(before, mapping.entries@, key_v, boxed);
                    }
                    k = k + 1;
                }
                let schema = Schema::DiscriminatedUnion { discriminator: to_string(field), mapping };
                proof {
                    lemma_entries_view(mapping.entries@, mapping.entries@.len());
                    assert(mapping.entries@.take(mapping.entries@.len() as int) =~= mapping.entries@);
                }
                self.insert_schema(union.name.clone(), schema);
            },
            None => {
                let mut variants: Vec<OneOfVariant> = Vec::new();
                let mut k: usize = 0;
                while k < union.members.len()
                    invariant
                        k <= union.members@.len(),
                        members == union@.members,
                        variant_entries(variants@) == member_refs(members).take(k as int),
                    decreases union.members@.len() - k,
                {
                    let ghost before = variants@;
                    let member = &union.members[k];
                    assert(members[k as int] == member@);
                    let v = OneOfVariant {
                        label: member.clone(),
                        schema: Box::new(Schema::Ref { name: member.clone() }),
                    };
                    variants.push(v);
                    assert(variant_entries(variants@) =~= variant_entries(before).push(
                        (member@, SchemaView::Ref(member@)),
                    ));
                    assert(member_refs(members).take(k as int + 1) =~= member_refs(members).take(
                        k as int,
                    ).push((member@, SchemaView::Ref(member@))));
                    k = k + 1;
                }
                let schema = Schema::OneOf { variants };
                proof {
                    lemma_variants_view(variants@, variants@.len());
                    assert(variants@.take(variants@.len() as int) =~= variants@);
                    assert(member_refs(members).take(members.len() as int) =~= member_refs(
                        members,
                    ));
                }
                self.insert_schema(union.name.clone(), schema);
            },
        }
    }

    fn compute_additional_policy(
        &mut self,
        directives: &Vec<DirectiveInfo>,
        target: &str,
    ) -> (r: AdditionalPolicy)
        ensures
            crate::ir::policy_view(r) == policy_of(
                directive_views(directives@),
                target@,
                old(self).names(),
            ).0,
            final(self).errs() == old(self).errs() + policy_of(
                directive_views(directives@),
                target@,
                old(self).names(),
            ).1,
            final(self).type_names == old(self).type_names,
            final(self).bundle == old(self).bundle,
    {
        let has_closed = find_directive(directives, "closed").is_some();
        let has_open = find_directive(directives, "open").is_some();
        let map_rest = find_directive(directives, "mapRest");
        let ghost base = self.errs();
        if has_closed && has_open {
            let err = LoweringError::ConflictingDirectives {
                target: to_string(target),
                detail: to_string("@closed and @open are mutually exclusive"),
            };
            self.errors.push(err);
            assert(self.errs() =~= base + seq![err@]);
        } else {
            assert(self.errs() =~= base + Seq::<LoweringErrorView>::empty());
        }
        let ghost mid = self.errs();
        match map_rest {
            Some(mr) => match dir_arg(mr, "value") {
                Some(ref_type) => {
                    if self.has_type_name(ref_type) {
                        AdditionalPolicy::AllowSchema(
                            Box::new(Schema::Ref { name: to_string(ref_type) }),
                        )
                    } else {
                        let err = LoweringError::UnresolvedRef { name: to_string(ref_type) };
                        self.errors.push(err);
                        assert(self.errs() =~= mid.push(err@));
                        AdditionalPolicy::AllowAny
                    }
                },
                None => AdditionalPolicy::AllowAny,
            },
            None => {
                if has_closed {
                    AdditionalPolicy::Reject
                } else if has_open {
                    AdditionalPolicy::AllowAny
                } else {
                    AdditionalPolicy::Reject
                }
            },
        }
    }
}

/// Compile an SDL AST into a schema bundle: scalars, enums, inputs and
/// unions in turn, each inserted under its name; the root is the first
/// input marked `@root`, else the last input. The errors of all directives
/// when there are any.
pub fn compile(ast: &SdlAst) -> (r: Result<SchemaBundle, Vec<LoweringError>>)
    requires
        unquotable(ast@),
    ensures
        match r {
            Ok(b) => compile_errors(ast@).len() == 0 && bundle_entries(b.schemas.entries@)
                == compiled_entries(ast@) && opt_chars(b.root_name) == compiled_root(ast@),
            Err(e) => compile_errors(ast@).len() > 0 && lowering_views(e@) == compile_errors(
                ast@,
            ),
        },
{
    let ghost a = ast@;
    let ghost defs = lowered_definitions(a);
    let ghost ns = a.scalars.len();
    let ghost ne = a.enums.len();
    let ghost ni = a.inputs.len();
    let mut names: Vec<String> = Vec::new();
    let mut k: usize = 0;
    while k < ast.inputs.len()
        invariant
            k <= ast.inputs@.len(),
            a == ast@,
            views(names@) == a.inputs.map_values(|i: InputTypeView| i.name).take(k as int),
        decreases ast.inputs@.len() - k,
    {
        let ghost before = views(names@);
        names.push(ast.inputs[k].name.clone());
        assert(views(names@) =~= before.push(ast.inputs@[k as int].name@));
        assert(a.inputs.map_values(|i: InputTypeView| i.name).take(k as int + 1) =~= a.inputs.map_values(
            |i: InputTypeView| i.name,
        ).take(k as int).push(a.inputs[k as int].name));
        k = k + 1;
    }
    let ghost p1 = views(names@);
    assert(p1 =~= a.inputs.map_values(|i: InputTypeView| i.name));
    let mut k: usize = 0;
    while k < ast.enums.len()
        invariant
            k <= ast.enums@.len(),
            a == ast@,
            views(names@) == p1 + a.enums.map_values(|e: EnumTypeView| e.name).take(k as int),
        decreases ast.enums@.len() - k,
    {
        let ghost before = views(names@);
        names.push(ast.enums[k].name.clone());
        assert(views(names@) =~= before.push(ast.enums@[k as int].name@));
        assert(a.enums.map_values(|e: EnumTypeView| e.name).take(k as int + 1) =~= a.enums.map_values(
            |e: EnumTypeView| e.name,
        ).take(k as int).push(a.enums[k as int].name));
        k = k + 1;
    }
    let ghost p2 = views(names@);
    assert(p2 =~= p1 + a.enums.map_values(|e: EnumTypeView| e.name));
    let mut k: usize = 0;
    while k < ast.unions.len()
        invariant
            k <= ast.unions@.len(),
            a == ast@,
            views(names@) == p2 + a.unions.map_values(|u: UnionTypeView| u.name).take(
                k as int,
            ),
        decreases ast.unions@.len() - k,
    {
        let ghost before = views(names@);
        names.push(ast.unions[k].name.clone());
        assert(views(names@) =~= before.push(ast.unions@[k as int].name@));
        assert(a.unions.map_values(|u: UnionTypeView| u.name).take(k as int + 1) =~= a.unions.map_values(
            |u: UnionTypeView| u.name,
        ).take(k as int).push(a.unions[k as int].name));
        k = k + 1;
    }
    let ghost p3 = views(names@);
    assert(p3 =~= p2 + a.unions.map_values(|u: UnionTypeView| u.name));
    let mut k: usize = 0;
    while k < ast.scalars.len()
        invariant
            k <= ast.scalars@.len(),
            a == ast@,
            views(names@) == p3 + a.scalars.map_values(|s: ScalarTypeView| s.name).take(
                k as int,
            ),
        decreases ast.scalars@.len() - k,
    {
        let ghost before = views(names@);
        names.push(ast.scalars[k].name.clone());
        assert(views(names@) =~= before.push(ast.scalars@[k as int].name@));
        assert(a.scalars.map_values(|s: ScalarTypeView| s.name).take(k as int + 1)
            =~= a.scalars.map_values(|s: ScalarTypeView| s.name).take(k as int).push(
            a.scalars[k as int].name,
        ));
        k = k + 1;
    }
    assert(views(names@) =~= type_names(a));
    let mut ctx = LoweringContext { bundle: SchemaBundle::new(), errors: Vec::new(), type_names: names };
    assert(ctx.entries() =~= inserted(defs, 0));
    assert(ctx.errs() =~= scalars_errors(a.scalars, 0));
    // Scalars first: other types refer to them.
    let mut k: usize = 0;
    while k < ast.scalars.len()
        invariant
            k <= ast.scalars@.len(),
            a == ast@,
            unquotable(a),
            defs == lowered_definitions(a),
            ns == a.scalars.len(),
            ctx.names() == type_names(a),
            ctx.bundle.root_name is None,
            ctx.entries() == inserted(defs, k as nat),
            ctx.errs() == scalars_errors(a.scalars, k as nat),
        decreases ast.scalars@.len() - k,
    {
        assert(a.scalars[k as int] == ast.scalars@[k as int]@);
        assert(scalar_unquotable(a.scalars[k as int]));
        assert(defs[k as int] == (a.scalars[k as int].name, scalar_schema(a.scalars[k as int])));
        ctx.lower_scalar(&ast.scalars[k]);
        k = k + 1;
    }
    let ghost scalar_errs = ctx.errs();
    let mut k: usize = 0;
    while k < ast.enums.len()
        invariant
            k <= ast.enums@.len(),
            a == ast@,
            unquotable(a),
            defs == lowered_definitions(a),
            ns == a.scalars.len(),
            ctx.names() == type_names(a),
            ctx.bundle.root_name is None,
            ctx.entries() == inserted(defs, (ns + k) as nat),
            ctx.errs() == scalar_errs,
        decreases ast.enums@.len() - k,
    {
        assert(a.enums[k as int] == ast.enums@[k as int]@);
        assert(defs[ns + k] == (a.enums[k as int].name, SchemaView::Enum(a.enums[k as int].values)));
        ctx.lower_enum(&ast.enums[k]);
        k = k + 1;
    }
    assert(scalar_errs + inputs_errors(a.inputs, 0, type_names(a)) =~= scalar_errs);
    let mut k: usize = 0;
    while k < ast.inputs.len()
        invariant
            k <= ast.inputs@.len(),
            a == ast@,
            unquotable(a),
            defs == lowered_definitions(a),
            ns == a.scalars.len(),
            ne == a.enums.len(),
            ctx.names() == type_names(a),
            ctx.bundle.root_name is None,
            ctx.entries() == inserted(defs, (ns + ne + k) as nat),
            ctx.errs() == scalar_errs + inputs_errors(a.inputs, k as nat, type_names(a)),
        decreases ast.inputs@.len() - k,
    {
        assert(a.inputs[k as int] == ast.inputs@[k as int]@);
        assert forall|j: int|
            0 <= j < a.inputs[k as int].fields.len() implies field_unquotable(
            #[trigger] a.inputs[k as int].fields[j],
        ) by {
            assert(field_unquotable(a.inputs[k as int].fields[j]));
        }
        assert(defs[ns + ne + k] == (
            a.inputs[k as int].name,
            input_schema(a.inputs[k as int], type_names(a)),
        ));
        let ghost before = ctx.errs();
        ctx.lower_input(&ast.inputs[k]);
        assert(scalar_errs + inputs_errors(a.inputs, k as nat + 1, type_names(a)) =~= before
            + input_errors(a.inputs[k as int], type_names(a)));
        k = k + 1;
    }
    let mut k: usize = 0;
    while k < ast.unions.len()
        invariant
            k <= ast.unions@.len(),
            a == ast@,
            defs == lowered_definitions(a),
            ns == a.scalars.len(),
            ne == a.enums.len(),
            ni == a.inputs.len(),
            ctx.bundle.root_name is None,
            ctx.entries() == inserted(defs, (ns + ne + ni + k) as nat),
            ctx.errs() == compile_errors(a),
        decreases ast.unions@.len() - k,
    {
        assert(a.unions[k as int] == ast.unions@[k as int]@);
        assert(defs[ns + ne + ni + k] == (a.unions[k as int].name, union_schema(
            a.unions[k as int],
        )));
        ctx.lower_union(&ast.unions[k]);
        k = k + 1;
    }
    assert(defs.len() == ns + ne + ni + a.unions.len());
    // The root: an explicit @root directive, otherwise the last input type.
    let mut k: usize = 0;
    assert(a.inputs.skip(0) =~= a.inputs);
    while k < ast.inputs.len()
        invariant_except_break
            ctx.bundle.root_name is None,
            first_root(a.inputs) == first_root(a.inputs.skip(k as int)),
        invariant
            k <= ast.inputs@.len(),
            a == ast@,
            ctx.entries() == compiled_entries(a),
            ctx.errs() == compile_errors(a),
        ensures
            ctx.entries() == compiled_entries(a),
            ctx.errs() == compile_errors(a),
            match first_root(a.inputs) {
                Some(n) => opt_chars(ctx.bundle.root_name) == Some(n),
                None => ctx.bundle.root_name is None,
            },
        decreases ast.inputs@.len() - k,
    {
        let input = &ast.inputs[k];
        assert(a.inputs.skip(k as int)[0] == input@);
        if find_directive(&input.directives, "root").is_some() {
            ctx.bundle.set_root(input.name.as_str());
            break;
        }
        assert(a.inputs.skip(k as int).drop_first() =~= a.inputs.skip(k as int + 1));
        k = k + 1;
    }
    if ctx.bundle.root_name.is_none() {
        if ast.inputs.len() > 0 {
            let last = &ast.inputs[ast.inputs.len() - 1];
            ctx.bundle.set_root(last.name.as_str());
        }
    }
    if ctx.errors.len() == 0 {
        Ok(ctx.bundle)
    } else {
        Err(ctx.errors)
    }
}

/// Whether every argument value compiling unquotes can be unquoted (what
/// `compile` requires).
pub fn arguments_unquotable(ast: &SdlAst) -> (r: bool)
    ensures
        r == unquotable(ast@),
{
    let ghost a = ast@;
    let mut k: usize = 0;
    while k < ast.scalars.len()
        invariant
            k <= ast.scalars@.len(),
            a == ast@,
            forall|m: int| 0 <= m < k ==> scalar_unquotable(#[trigger] a.scalars[m]),
        decreases ast.scalars@.len() - k,
    {
        let sc = &ast.scalars[k];
        let mut d: usize = 0;
        while d < sc.directives.len()
            invariant
                d <= sc.directives@.len(),
                a == ast@,
                k < ast.scalars@.len(),
                sc@ == a.scalars[k as int],
                forall|m: int|
                    0 <= m < d && (#[trigger] sc@.directives[m]).name == "pattern"@
                        ==> arg_unquotable(sc@.directives[m], "regex"@),
            decreases sc.directives@.len() - d,
        {
            let dir = &sc.directives[d];
            assert(sc@.directives[d as int] == dir@);
            if str_eq(dir.name.as_str(), "pattern") && !arg_ok(dir, "regex") {
                assert(!scalar_unquotable(a.scalars[k as int]));
                return false;
            }
            d = d + 1;
        }
        k = k + 1;
    }
    let mut k: usize = 0;
    while k < ast.inputs.len()
        invariant
            k <= ast.inputs@.len(),
            a == ast@,
            forall|m: int| 0 <= m < a.scalars.len() ==> scalar_unquotable(#[trigger] a.scalars[m]),
            forall|m: int, j: int|
                0 <= m < k && 0 <= j < a.inputs[m].fields.len() ==> field_unquotable(
                    #[trigger] a.inputs[m].fields[j],
                ),
        decreases ast.inputs@.len() - k,
    {
        let input = &ast.inputs[k];
        let mut j: usize = 0;
        while j < input.fields.len()
            invariant
                j <= input.fields@.len(),
                a == ast@,
                k < ast.inputs@.len(),
                input@ == a.inputs[k as int],
                forall|m: int, i: int|
                    0 <= m < k && 0 <= i < a.inputs[m].fields.len() ==> field_unquotable(
                        #[trigger] a.inputs[m].fields[i],
                    ),
                forall|i: int| 0 <= i < j ==> field_unquotable(#[trigger] a.inputs[k as int].fields[i]),
            decreases input.fields@.len() - j,
        {
            let field = &input.fields[j];
            assert(a.inputs[k as int].fields[j as int] == field@);
            let mut d: usize = 0;
            while d < field.directives.len()
                invariant
                    d <= field.directives@.len(),
                    a == ast@,
                    k < a.inputs.len(),
                    j < a.inputs[k as int].fields.len(),
                    field@ == a.inputs[k as int].fields[j as int],
                    forall|m: int|
                        0 <= m < d ==> {
                            let x = #[trigger] field@.directives[m];
                            &&& x.name == "pattern"@ ==> arg_unquotable(x, "regex"@)
                            &&& (x.name == "min"@ || x.name == "max"@) ==> arg_unquotable(
                                x,
                                "value"@,
                            )
                        },
                decreases field.directives@.len() - d,
            {
                let dir = &field.directives[d];
                assert(field@.directives[d as int] == dir@);
                let is_pattern = str_eq(dir.name.as_str(), "pattern");
                let is_bound = str_eq(dir.name.as_str(), "min") || str_eq(dir.name.as_str(), "max");
                if (is_pattern && !arg_ok(dir, "regex")) || (is_bound && !arg_ok(dir, "value")) {
                    assert(!field_unquotable(field@));
                    assert(!field_unquotable(a.inputs[k as int].fields[j as int]));
                    return false;
                }
                d = d + 1;
            }
            j = j + 1;
        }
        k = k + 1;
    }
    true
}

/// Whether the first argument of `dir` called `name`, if any, can be
/// unquoted.
fn arg_ok(dir: &DirectiveInfo, name: &str) -> (r: bool)
    ensures
        r == arg_unquotable(dir@, name@),
{
    let ghost args = dir@.arguments;
    let mut k: usize = 0;
    assert(args.skip(0) =~= args);
    while k < dir.arguments.len()
        invariant
            k <= dir.arguments@.len(),
            args == dir@.arguments,
            args.len() == dir.arguments@.len(),
            arg_value(args, name@) == arg_value(
                args.skip(k as int),
                name@,
            ),
        decreases dir.arguments@.len() - k,
    {
        assert(args.skip(k as int)[0] == args[k as int]);
        if str_eq(dir.arguments[k].0.as_str(), name) {
            let s = crate::text::trim_class_exec(
                dir.arguments[k].1.as_str(),
                crate::text::CharClass::WhiteSpace,
            );
            let cs = crate::text::chars_of(s.as_str());
            let n = cs.len();
            let quoted = n > 0 && ((cs[0] == '"' && cs[n - 1] == '"') || (cs[0] == '\''
                && cs[n - 1] == '\''));
            return !(quoted && n == 1);
        }
        assert(args.skip(k as int).drop_first() =~= args.skip(k as int + 1));
        k = k + 1;
    }
    true
}

proof fn lemma_key_index_found<V>(es: Seq<(Seq<char>, V)>, k: Seq<char>)
    ensures
        match key_index(es, k) {
            Some(i) => 0 <= i < es.len() && es[i].0 == k,
            None => forall|m: int| 0 <= m < es.len() ==> es[m].0 != k,
        },
    decreases es.len(),
{
    if es.len() > 0 {
        lemma_key_index_found(es.drop_last(), k);
        assert forall|m: int| 0 <= m < es.len() - 1 implies es.drop_last()[m] == es[m] by {}
    }
}

/// The keys after an insertion: those before, and the inserted one.
proof fn lemma_insert_entry_keys<V>(es: Seq<(Seq<char>, V)>, k: Seq<char>, v: V, j: Seq<char>)
    ensures
        key_index(insert_entry(es, k, v), j) is Some <==> (key_index(es, j) is Some || j == k),
{
    let after = insert_entry(es, k, v);
    lemma_key_index_found(es, k);
    lemma_key_index_found(es, j);
    lemma_key_index_found(after, j);
    match key_index(es, k) {
        Some(i) => {
            if key_index(es, j) is Some {
                let m = key_index(es, j)->Some_0;
                assert(after[m].0 == j);
            }
            if j == k {
                assert(after[i].0 == k);
            }
            if key_index(after, j) is Some {
                let m = key_index(after, j)->Some_0;
                assert(after[m].0 == es[m].0);
            }
        },
        None => {
            if key_index(es, j) is Some {
                let m = key_index(es, j)->Some_0;
                assert(after[m] == es[m]);
            }
            if j == k {
                assert(after[es.len() as int].0 == k);
            }
            if key_index(after, j) is Some {
                let m = key_index(after, j)->Some_0;
                if m < es.len() {
                    assert(after[m] == es[m]);
                }
            }
        },
    }
}

/// The keys of the first `n` definitions inserted are their names.
proof fn lemma_inserted_keys(defs: Seq<(Seq<char>, SchemaView)>, n: nat, j: Seq<char>)
    requires
        n <= defs.len(),
    ensures
        key_index(inserted(defs, n), j) is Some <==> exists|m: int|
            0 <= m < n && (#[trigger] defs[m]).0 == j,
    decreases n,
{
    if n > 0 {
        lemma_inserted_keys(defs, (n - 1) as nat, j);
        lemma_insert_entry_keys(inserted(defs, (n - 1) as nat), defs[n - 1].0, defs[n - 1].1, j);
        if exists|m: int| 0 <= m < n && (#[trigger] defs[m]).0 == j {
            let m = choose|m: int| 0 <= m < n && (#[trigger] defs[m]).0 == j;
            if m < n - 1 {
                assert(exists|m2: int| 0 <= m2 < n - 1 && (#[trigger] defs[m2]).0 == j);
            }
        }
    } else {
        assert(inserted(defs, 0) =~= Seq::<(Seq<char>, SchemaView)>::empty());
    }
}

/// A `Float` field with one `@min` (or `@max`) directive whose value reads
/// as the integer `n` lowers to a float scalar with that bound set to `n`
/// and the other unset, with no error.
pub proof fn law_float_field_bound(f: InputFieldView, n: i64)
    requires
        f.type_ref == "Float"@ || f.type_ref == "Float!"@,
        f.directives.len() == 1,
        f.directives[0].name == "min"@ || f.directives[0].name == "max"@,
        arg_unquoted(f.directives[0], "value"@) matches Some(t) && range_value(t) == Some(n),
    ensures
        field_lowered(f).1.len() == 0,
        f.directives[0].name == "min"@ ==> field_lowered(f).0 == SchemaView::Scalar(
            ScalarKindView::Float { min: Some(n), max: None },
        ),
        f.directives[0].name == "max"@ ==> field_lowered(f).0 == SchemaView::Scalar(
            ScalarKindView::Float { min: None, max: Some(n) },
        ),
{
    reveal_strlit("Float");
    reveal_strlit("Float!");
    reveal_strlit("min");
    reveal_strlit("max");
    reveal_strlit("pattern");
    reveal_strlit("String");
    reveal_strlit("ID");
    reveal_strlit("Int");
    reveal_strlit("Boolean");
    assert(strip_back("Float"@, CharClass::Is('!')) == "Float"@) by {
        assert("Float"@.last() == 't');
    }
    assert(strip_back("Float!"@, CharClass::Is('!')) == "Float"@) by {
        assert("Float!"@.drop_last() =~= "Float"@);
        assert("Float"@.last() == 't');
    }
    assert(type_ref_schema(f.type_ref) == SchemaView::Scalar(
        ScalarKindView::Float { min: None, max: None },
    )) by {
        assert("Float"@[0] != '[');
        assert("Float"@ != "String"@);
        assert("Float"@ != "ID"@);
        assert("Float"@ != "Int"@);
    }
    assert("min"@ != "max"@) by {
        assert("min"@[1] != "max"@[1]);
    }
    assert("min"@ != "pattern"@) by {
        assert("min"@.len() != "pattern"@.len());
    }
    assert("max"@ != "pattern"@) by {
        assert("max"@.len() != "pattern"@.len());
    }
    assert(field_fold(f, 1) == field_step(f, field_fold(f, 0), f.directives[0]));
}

/// A compiled bundle holds exactly one entry name per type definition name:
/// a name is a key of the bundle if and only if some definition has it.
pub proof fn law_compiled_names(ast: SdlAstView, name: Seq<char>)
    ensures
        key_index(compiled_entries(ast), name) is Some <==> type_names(ast).contains(name),
{
    let defs = lowered_definitions(ast);
    let names = type_names(ast);
    let (ni, ne, nu, ns) = (ast.inputs.len(), ast.enums.len(), ast.unions.len(), ast.scalars.len());
    lemma_inserted_keys(defs, defs.len(), name);
    assert(defs.len() == ns + ne + ni + nu);
    assert(names.len() == ni + ne + nu + ns);
    if exists|m: int| 0 <= m < defs.len() && (#[trigger] defs[m]).0 == name {
        let m = choose|m: int| 0 <= m < defs.len() && (#[trigger] defs[m]).0 == name;
        let t: int = if m < ns {
            ni + ne + nu + m
        } else if m < ns + ne {
            ni + (m - ns)
        } else if m < ns + ne + ni {
            m - ns - ne
        } else {
            ni + ne + (m - ns - ne - ni)
        };
        assert(names[t] == name);
    }
    if names.contains(name) {
        let t = choose|t: int| 0 <= t < names.len() && names[t] == name;
        let m: int = if t < ni {
            ns + ne + t
        } else if t < ni + ne {
            ns + (t - ni)
        } else if t < ni + ne + nu {
            ns + ne + ni + (t - ni - ne)
        } else {
            t - ni - ne - nu
        };
        assert(defs[m].0 == name);
    }
}

} // verus!
