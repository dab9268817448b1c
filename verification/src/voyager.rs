//! A GraphQL Voyager-compatible rendering of a validation schema: input
//! types become object types, the custom directives are dropped, and a
//! `Query` type points at the first input type.
use crate::diagnostics::{sdl_error_text, SdlError};
use crate::sdl::{
    extract_ast, EnumTypeView, InputFieldView, InputTypeView, ScalarTypeView, SdlAst, SdlAstView,
    UnionTypeView,
};
use crate::syntax::{graphql_syntax, graphql_syntax_errors};
use crate::sdl::{ast_of, reports_messages};
use crate::text::{
    chars_of, join, join_strings, push_str, string_from_range, to_string, trim_class,
    trim_class_exec, views, CharClass,
};
use vstd::prelude::*;

verus! {

/// The parts written one after another.
pub open spec fn concat_all(parts: Seq<Seq<char>>) -> Seq<char>
    decreases parts.len(),
{
    if parts.len() == 0 {
        Seq::empty()
    } else {
        concat_all(parts.drop_last()) + parts.last()
    }
}

/// A type reference in standard GraphQL syntax: white space trimmed and
/// the outer non-null marker `!` removed (the field's `required` flag gives
/// it back); the markers inside a list type stay, so `[String!]` stays
/// `[String!]` and `TypeName!` becomes `TypeName`, then `TypeName!` again
/// on a required field.
pub open spec fn converted_type_ref(t: Seq<char>) -> Seq<char> {
    let u = trim_class(t, CharClass::WhiteSpace);
    if u.len() > 0 && u.last() == '!' {
        u.drop_last()
    } else {
        u
    }
}

/// The line of an object type's field.
pub open spec fn field_line(f: InputFieldView) -> Seq<char> {
    "    "@ + f.name + ": "@ + converted_type_ref(f.type_ref) + (if f.required {
        "!"@
    } else {
        ""@
    }) + "\n"@
}

/// The block of an input type, as an object type.
pub open spec fn input_block(i: InputTypeView) -> Seq<char> {
    "type "@ + i.name + " {\n"@ + concat_all(i.fields.map_values(|f: InputFieldView| field_line(f)))
        + "}\n\n"@
}

/// The block of an enum type.
pub open spec fn enum_block(e: EnumTypeView) -> Seq<char> {
    "enum "@ + e.name + " {\n"@ + concat_all(e.values.map_values(|v: Seq<char>| "    "@ + v + "\n"@))
        + "}\n\n"@
}

/// The line of a scalar type.
pub open spec fn scalar_line(s: ScalarTypeView) -> Seq<char> {
    "scalar "@ + s.name + "\n"@
}

/// The line of a union type: its name, then its members joined with `|`.
pub open spec fn union_line(u: UnionTypeView) -> Seq<char> {
    "union "@ + u.name + (if u.members.len() == 0 {
        ""@
    } else {
        " = "@ + join(u.members, " | "@)
    }) + "\n"@
}

/// The `Query` entry point: on the first input type, if there is one.
pub open spec fn query_block(ast: SdlAstView) -> Seq<char> {
    if ast.inputs.len() > 0 {
        "type Query {\n"@ + "    workflow: "@ + ast.inputs[0].name + "\n"@ + "}\n"@
    } else {
        Seq::empty()
    }
}

/// The Voyager schema of a document's type definitions: input types as
/// object types, then enums, then scalars, then unions, then the `Query`
/// type.
pub open spec fn voyager_text(ast: SdlAstView) -> Seq<char> {
    concat_all(ast.inputs.map_values(|i: InputTypeView| input_block(i))) + concat_all(
        ast.enums.map_values(|e: EnumTypeView| enum_block(e)),
    ) + concat_all(ast.scalars.map_values(|s: ScalarTypeView| scalar_line(s))) + concat_all(
        ast.unions.map_values(|u: UnionTypeView| union_line(u)),
    ) + query_block(ast)
}

/// The report of SDL errors: their texts joined with `"; "`.
pub open spec fn sdl_errors_text(errs: Seq<SdlError>) -> Seq<char> {
    "SDL parse errors: "@ + join(errs.map_values(|e: SdlError| sdl_error_text(e)), "; "@)
}

/// The report of parse errors at line 0, column 0 with these messages.
pub open spec fn parse_messages_text(messages: Seq<Seq<char>>) -> Seq<char> {
    "SDL parse errors: "@ + join(
        messages.map_values(|m: Seq<char>| "parse error at line 0, column 0: "@ + m),
        "; "@,
    )
}

proof fn lemma_concat_all_push(parts: Seq<Seq<char>>, x: Seq<char>)
    ensures
        concat_all(parts.push(x)) == concat_all(parts) + x,
{
    assert(parts.push(x).drop_last() =~= parts);
}

/// Converts a validation type reference to standard GraphQL syntax: the
/// outer non-null marker is dropped, the inner ones kept.
fn convert_type_ref(ty: &str) -> (r: String)
    ensures
        r@ == converted_type_ref(ty@),
{
    let t = trim_class_exec(ty, CharClass::WhiteSpace);
    let cs = chars_of(t.as_str());
    if cs.len() > 0 && cs[cs.len() - 1] == '!' {
        let r = string_from_range(&cs, 0, cs.len() - 1);
        assert(r@ =~= t@.drop_last());
        r
    } else {
        t
    }
}

fn push_field_lines(out: &mut String, fields: &Vec<crate::sdl::InputFieldInfo>)
    ensures
        final(out)@ == old(out)@ + concat_all(
            fields@.map_values(|f: crate::sdl::InputFieldInfo| field_line(f@)),
        ),
{
    let ghost base = out@;
    let ghost lines = fields@.map_values(|f: crate::sdl::InputFieldInfo| field_line(f@));
    let mut k: usize = 0;
    assert(lines.take(0) =~= Seq::<Seq<char>>::empty());
    while k < fields.len()
        invariant
            k <= fields@.len(),
            lines == fields@.map_values(|f: crate::sdl::InputFieldInfo| field_line(f@)),
            out@ == base + concat_all(lines.take(k as int)),
        decreases fields@.len() - k,
    {
        let f = &fields[k];
        let ghost before = out@;
        push_str(out, "    ");
        push_str(out, f.name.as_str());
        push_str(out, ": ");
        let t = convert_type_ref(f.type_ref.as_str());
        push_str(out, t.as_str());
        if f.required {
            push_str(out, "!");
        } else {
            push_str(out, "");
        }
        push_str(out, "\n");
        assert(out@ =~= before + field_line(f@));
        proof {
            assert(lines.take(k as int + 1) =~= lines.take(k as int).push(lines[k as int]));
            lemma_concat_all_push(lines.take(k as int), lines[k as int]);
            assert(base + concat_all(lines.take(k as int)) + lines[k as int] =~= base + (
            concat_all(lines.take(k as int)) + lines[k as int]));
        }
        k = k + 1;
    }
    assert(lines.take(fields@.len() as int) =~= lines);
}

fn push_enum_lines(out: &mut String, values: &Vec<String>)
    ensures
        final(out)@ == old(out)@ + concat_all(
            values@.map_values(|v: String| v@).map_values(|v: Seq<char>| "    "@ + v + "\n"@),
        ),
{
    let ghost base = out@;
    let ghost lines = values@.map_values(|v: String| v@).map_values(
        |v: Seq<char>| "    "@ + v + "\n"@,
    );
    let mut k: usize = 0;
    assert(lines.take(0) =~= Seq::<Seq<char>>::empty());
    while k < values.len()
        invariant
            k <= values@.len(),
            lines == values@.map_values(|v: String| v@).map_values(
                |v: Seq<char>| "    "@ + v + "\n"@,
            ),
            out@ == base + concat_all(lines.take(k as int)),
        decreases values@.len() - k,
    {
        let ghost before = out@;
        push_str(out, "    ");
        push_str(out, values[k].as_str());
        push_str(out, "\n");
        assert(out@ =~= before + lines[k as int]);
        proof {
            assert(lines.take(k as int + 1) =~= lines.take(k as int).push(lines[k as int]));
            lemma_concat_all_push(lines.take(k as int), lines[k as int]);
            assert(base + concat_all(lines.take(k as int)) + lines[k as int] =~= base + (
            concat_all(lines.take(k as int)) + lines[k as int]));
        }
        k = k + 1;
    }
    assert(lines.take(values@.len() as int) =~= lines);
}

/// The Voyager schema of a document's type definitions.
pub fn voyager_from_ast(ast: &SdlAst) -> (r: String)
    ensures
        r@ == voyager_text(ast@),
{
    let ghost a = ast@;
    let mut out = String::new();
    let ghost blocks = a.inputs.map_values(|i: InputTypeView| input_block(i));
    let mut k: usize = 0;
    assert(blocks.take(0) =~= Seq::<Seq<char>>::empty());
    while k < ast.inputs.len()
        invariant
            k <= ast.inputs@.len(),
            a == ast@,
            blocks == a.inputs.map_values(|i: InputTypeView| input_block(i)),
            out@ == concat_all(blocks.take(k as int)),
        decreases ast.inputs@.len() - k,
    {
        let input = &ast.inputs[k];
        let ghost before = out@;
        push_str(&mut out, "type ");
        push_str(&mut out, input.name.as_str());
        push_str(&mut out, " {\n");
        push_field_lines(&mut out, &input.fields);
        push_str(&mut out, "}\n\n");
        assert(input@.fields.map_values(|f: InputFieldView| field_line(f)) =~= input.fields@.map_values(
            |f: crate::sdl::InputFieldInfo| field_line(f@),
        ));
        assert(out@ =~= before + input_block(input@));
        proof {
            assert(blocks.take(k as int + 1) =~= blocks.take(k as int).push(blocks[k as int]));
            lemma_concat_all_push(blocks.take(k as int), blocks[k as int]);
        }
        k = k + 1;
    }
    assert(blocks.take(ast.inputs@.len() as int) =~= blocks);
    let ghost p1 = out@;
    let ghost eblocks = a.enums.map_values(|e: EnumTypeView| enum_block(e));
    let mut k: usize = 0;
    assert(eblocks.take(0) =~= Seq::<Seq<char>>::empty());
    assert(p1 + concat_all(eblocks.take(0)) =~= p1);
    while k < ast.enums.len()
        invariant
            k <= ast.enums@.len(),
            a == ast@,
            eblocks == a.enums.map_values(|e: EnumTypeView| enum_block(e)),
            out@ == p1 + concat_all(eblocks.take(k as int)),
        decreases ast.enums@.len() - k,
    {
        let en = &ast.enums[k];
        let ghost before = out@;
        push_str(&mut out, "enum ");
        push_str(&mut out, en.name.as_str());
        push_str(&mut out, " {\n");
        push_enum_lines(&mut out, &en.values);
        push_str(&mut out, "}\n\n");
        assert(out@ =~= before + enum_block(en@));
        proof {
            assert(eblocks.take(k as int + 1) =~= eblocks.take(k as int).push(eblocks[k as int]));
            lemma_concat_all_push(eblocks.take(k as int), eblocks[k as int]);
            assert(p1 + concat_all(eblocks.take(k as int)) + eblocks[k as int] =~= p1 + (concat_all(
                eblocks.take(k as int),
            ) + eblocks[k as int]));
        }
        k = k + 1;
    }
    assert(eblocks.take(ast.enums@.len() as int) =~= eblocks);
    let ghost p2 = out@;
    let ghost sblocks = a.scalars.map_values(|s: ScalarTypeView| scalar_line(s));
    let mut k: usize = 0;
    assert(sblocks.take(0) =~= Seq::<Seq<char>>::empty());
    assert(p2 + concat_all(sblocks.take(0)) =~= p2);
    while k < ast.scalars.len()
        invariant
            k <= ast.scalars@.len(),
            a == ast@,
            sblocks == a.scalars.map_values(|s: ScalarTypeView| scalar_line(s)),
            out@ == p2 + concat_all(sblocks.take(k as int)),
        decreases ast.scalars@.len() - k,
    {
        let sc = &ast.scalars[k];
        let ghost before = out@;
        push_str(&mut out, "scalar ");
        push_str(&mut out, sc.name.as_str());
        push_str(&mut out, "\n");
        assert(out@ =~= before + scalar_line(sc@));
        proof {
            assert(sblocks.take(k as int + 1) =~= sblocks.take(k as int).push(sblocks[k as int]));
            lemma_concat_all_push(sblocks.take(k as int), sblocks[k as int]);
            assert(p2 + concat_all(sblocks.take(k as int)) + sblocks[k as int] =~= p2 + (concat_all(
                sblocks.take(k as int),
            ) + sblocks[k as int]));
        }
        k = k + 1;
    }
    assert(sblocks.take(ast.scalars@.len() as int) =~= sblocks);
    let ghost p3 = out@;
    let ghost ublocks = a.unions.map_values(|u: UnionTypeView| union_line(u));
    let mut k: usize = 0;
    assert(ublocks.take(0) =~= Seq::<Seq<char>>::empty());
    assert(p3 + concat_all(ublocks.take(0)) =~= p3);
    while k < ast.unions.len()
        invariant
            k <= ast.unions@.len(),
            a == ast@,
            ublocks == a.unions.map_values(|u: UnionTypeView| union_line(u)),
            out@ == p3 + concat_all(ublocks.take(k as int)),
        decreases ast.unions@.len() - k,
    {
        let un = &ast.unions[k];
        let ghost before = out@;
        push_str(&mut out, "union ");
        push_str(&mut out, un.name.as_str());
        if un.members.len() > 0 {
            push_str(&mut out, " = ");
            let joined = join_strings(&un.members, " | ");
            push_str(&mut out, joined.as_str());
        } else {
            push_str(&mut out, "");
        }
        push_str(&mut out, "\n");
        assert(views(un.members@) == un@.members);
        assert(out@ =~= before + union_line(un@));
        proof {
            assert(ublocks.take(k as int + 1) =~= ublocks.take(k as int).push(ublocks[k as int]));
            lemma_concat_all_push(ublocks.take(k as int), ublocks[k as int]);
            assert(p3 + concat_all(ublocks.take(k as int)) + ublocks[k as int] =~= p3 + (concat_all(
                ublocks.take(k as int),
            ) + ublocks[k as int]));
        }
        k = k + 1;
    }
    assert(ublocks.take(ast.unions@.len() as int) =~= ublocks);
    let ghost p4 = out@;
    if ast.inputs.len() > 0 {
        push_str(&mut out, "type Query {\n");
        push_str(&mut out, "    workflow: ");
        push_str(&mut out, ast.inputs[0].name.as_str());
        push_str(&mut out, "\n");
        push_str(&mut out, "}\n");
    }
    assert(out@ =~= voyager_text(a));
    out
}

/// The report of SDL errors.
pub fn sdl_errors_report(errs: &Vec<SdlError>) -> (r: String)
    ensures
        r@ == sdl_errors_text(errs@),
{
    let ghost texts = errs@.map_values(|e: SdlError| sdl_error_text(e));
    let mut parts: Vec<String> = Vec::new();
    let mut k: usize = 0;
    while k < errs.len()
        invariant
            k <= errs@.len(),
            texts == errs@.map_values(|e: SdlError| sdl_error_text(e)),
            parts@.map_values(|s: String| s@) == texts.take(k as int),
        decreases errs@.len() - k,
    {
        let ghost before = parts@;
        let t = errs[k].to_string();
        parts.push(t);
        assert(parts@.map_values(|s: String| s@) =~= before.map_values(|s: String| s@).push(t@));
        assert(texts.take(k as int + 1) =~= texts.take(k as int).push(texts[k as int]));
        k = k + 1;
    }
    assert(texts.take(errs@.len() as int) =~= texts);
    let joined = crate::text::join_strings(&parts, "; ");
    let mut out = to_string("SDL parse errors: ");
    push_str(&mut out, joined.as_str());
    out
}

/// The report of parse errors is that of their messages.
pub proof fn lemma_parse_report(errs: Seq<SdlError>, messages: Seq<Seq<char>>)
    requires
        reports_messages(errs, messages),
    ensures
        sdl_errors_text(errs) == parse_messages_text(messages),
{
    reveal_strlit("parse error at line ");
    reveal_strlit(", column ");
    reveal_strlit(": ");
    reveal_strlit("parse error at line 0, column 0: ");
    assert(crate::text::decimal(0) =~= seq!['0']);
    assert forall|k: int| 0 <= k < errs.len() implies #[trigger] sdl_error_text(errs[k])
        == "parse error at line 0, column 0: "@ + messages[k] by {
        assert(crate::sdl::is_parse_error_at_start(errs[k], messages[k]));
        assert("parse error at line "@ + crate::text::decimal(0) + ", column "@
            + crate::text::decimal(0) + ": "@ =~= "parse error at line 0, column 0: "@);
        assert(sdl_error_text(errs[k]) =~= "parse error at line 0, column 0: "@ + messages[k]);
    }
    assert(errs.map_values(|e: SdlError| sdl_error_text(e)) =~= messages.map_values(
        |m: Seq<char>| "parse error at line 0, column 0: "@ + m,
    ));
}

/// No name, field type, enum value or union member of the document holds
/// `c`.
pub open spec fn names_without(ast: SdlAstView, c: char) -> bool {
    &&& forall|i: int|
        0 <= i < ast.inputs.len() ==> {
            let t = #[trigger] ast.inputs[i];
            &&& !t.name.contains(c)
            &&& forall|j: int|
                0 <= j < t.fields.len() ==> !(#[trigger] t.fields[j]).name.contains(c)
                    && !t.fields[j].type_ref.contains(c)
        }
    &&& forall|i: int|
        0 <= i < ast.enums.len() ==> {
            let e = #[trigger] ast.enums[i];
            &&& !e.name.contains(c)
            &&& forall|j: int| 0 <= j < e.values.len() ==> !(#[trigger] e.values[j]).contains(c)
        }
    &&& forall|i: int| 0 <= i < ast.scalars.len() ==> !(#[trigger] ast.scalars[i]).name.contains(c)
    &&& forall|i: int|
        0 <= i < ast.unions.len() ==> {
            let u = #[trigger] ast.unions[i];
            &&& !u.name.contains(c)
            &&& forall|j: int| 0 <= j < u.members.len() ==> !(#[trigger] u.members[j]).contains(c)
        }
}

proof fn lemma_append_without(a: Seq<char>, b: Seq<char>, c: char)
    requires
        !a.contains(c),
        !b.contains(c),
    ensures
        !(a + b).contains(c),
{
    assert forall|k: int| 0 <= k < (a + b).len() implies (a + b)[k] != c by {
        if k < a.len() {
            assert(a[k] == (a + b)[k]);
        } else {
            assert(b[k - a.len()] == (a + b)[k]);
        }
    }
}

proof fn lemma_concat_all_without(parts: Seq<Seq<char>>, c: char)
    requires
        forall|k: int| 0 <= k < parts.len() ==> !(#[trigger] parts[k]).contains(c),
    ensures
        !concat_all(parts).contains(c),
    decreases parts.len(),
{
    if parts.len() > 0 {
        lemma_concat_all_without(parts.drop_last(), c);
        assert(!parts[parts.len() - 1].contains(c));
        lemma_append_without(concat_all(parts.drop_last()), parts.last(), c);
    }
}

proof fn lemma_drop_last_without(t: Seq<char>, d: char)
    requires
        t.len() > 0,
        !t.contains(d),
    ensures
        !t.drop_last().contains(d),
{
    if t.drop_last().contains(d) {
        let k = choose|k: int| 0 <= k < t.drop_last().len() && t.drop_last()[k] == d;
        assert(t[k] == d);
    }
}

proof fn lemma_join_without(parts: Seq<Seq<char>>, sep: Seq<char>, c: char)
    requires
        forall|k: int| 0 <= k < parts.len() ==> !(#[trigger] parts[k]).contains(c),
        !sep.contains(c),
    ensures
        !join(parts, sep).contains(c),
    decreases parts.len(),
{
    if parts.len() > 1 {
        lemma_join_without(parts.drop_last(), sep, c);
        assert(!parts[parts.len() - 1].contains(c));
        lemma_append_without(join(parts.drop_last(), sep), sep, c);
        lemma_append_without(join(parts.drop_last(), sep) + sep, parts.last(), c);
    } else if parts.len() == 1 {
        assert(!parts[0].contains(c));
    }
}

proof fn lemma_converted_without(t: Seq<char>, d: char)
    requires
        !t.contains(d),
    ensures
        !converted_type_ref(t).contains(d),
{
    lemma_trim_without(t, CharClass::WhiteSpace, d);
    let u = trim_class(t, CharClass::WhiteSpace);
    if u.len() > 0 && u.last() == '!' {
        lemma_drop_last_without(u, d);
    }
}

proof fn lemma_trim_without(t: Seq<char>, cls: CharClass, d: char)
    requires
        !t.contains(d),
    ensures
        !trim_class(t, cls).contains(d),
{
    lemma_strip_front_without(t, cls, d);
    lemma_strip_back_without(crate::text::strip_front(t, cls), cls, d);
}

proof fn lemma_strip_front_without(t: Seq<char>, cls: CharClass, d: char)
    requires
        !t.contains(d),
    ensures
        !crate::text::strip_front(t, cls).contains(d),
    decreases t.len(),
{
    if t.len() > 0 {
        assert(!t.drop_first().contains(d)) by {
            if t.drop_first().contains(d) {
                let k = choose|k: int| 0 <= k < t.drop_first().len() && t.drop_first()[k] == d;
                assert(t[k + 1] == d);
            }
        }
        lemma_strip_front_without(t.drop_first(), cls, d);
    }
}

proof fn lemma_strip_back_without(t: Seq<char>, cls: CharClass, d: char)
    requires
        !t.contains(d),
    ensures
        !crate::text::strip_back(t, cls).contains(d),
    decreases t.len(),
{
    if t.len() > 0 {
        assert(!t.drop_last().contains(d)) by {
            if t.drop_last().contains(d) {
                let k = choose|k: int| 0 <= k < t.drop_last().len() && t.drop_last()[k] == d;
                assert(t[k] == d);
            }
        }
        lemma_strip_back_without(t.drop_last(), cls, d);
    }
}

/// The Voyager rendering drops every directive: where no name, field type,
/// enum value or union member holds an `@`, the rendered schema holds none.
pub proof fn law_voyager_drops_directives(ast: SdlAstView)
    requires
        names_without(ast, '@'),
    ensures
        !voyager_text(ast).contains('@'),
{
    reveal_strlit("    ");
    reveal_strlit(": ");
    reveal_strlit("!");
    reveal_strlit("");
    reveal_strlit("\n");
    reveal_strlit("type ");
    reveal_strlit(" {\n");
    reveal_strlit("}\n\n");
    reveal_strlit("enum ");
    reveal_strlit("scalar ");
    reveal_strlit("type Query {\n");
    reveal_strlit("    workflow: ");
    reveal_strlit("}\n");
    let blocks = ast.inputs.map_values(|i: InputTypeView| input_block(i));
    assert forall|k: int| 0 <= k < blocks.len() implies !(#[trigger] blocks[k]).contains('@') by {
        let t = ast.inputs[k];
        let lines = t.fields.map_values(|f: InputFieldView| field_line(f));
        assert forall|j: int| 0 <= j < lines.len() implies !(#[trigger] lines[j]).contains('@') by {
            let f = t.fields[j];
            lemma_converted_without(f.type_ref, '@');
            let req: Seq<char> = if f.required {
                "!"@
            } else {
                ""@
            };
            lemma_append_without("    "@, f.name, '@');
            lemma_append_without("    "@ + f.name, ": "@, '@');
            lemma_append_without("    "@ + f.name + ": "@, converted_type_ref(f.type_ref), '@');
            lemma_append_without(
                "    "@ + f.name + ": "@ + converted_type_ref(f.type_ref),
                req,
                '@',
            );
            lemma_append_without(
                "    "@ + f.name + ": "@ + converted_type_ref(f.type_ref) + req,
                "\n"@,
                '@',
            );
        }
        lemma_concat_all_without(lines, '@');
        lemma_append_without("type "@, t.name, '@');
        lemma_append_without("type "@ + t.name, " {\n"@, '@');
        lemma_append_without("type "@ + t.name + " {\n"@, concat_all(lines), '@');
        lemma_append_without("type "@ + t.name + " {\n"@ + concat_all(lines), "}\n\n"@, '@');
    }
    lemma_concat_all_without(blocks, '@');
    let eblocks = ast.enums.map_values(|e: EnumTypeView| enum_block(e));
    assert forall|k: int| 0 <= k < eblocks.len() implies !(#[trigger] eblocks[k]).contains('@') by {
        let e = ast.enums[k];
        let lines = e.values.map_values(|v: Seq<char>| "    "@ + v + "\n"@);
        assert forall|j: int| 0 <= j < lines.len() implies !(#[trigger] lines[j]).contains('@') by {
            lemma_append_without("    "@, e.values[j], '@');
            lemma_append_without("    "@ + e.values[j], "\n"@, '@');
        }
        lemma_concat_all_without(lines, '@');
        lemma_append_without("enum "@, e.name, '@');
        lemma_append_without("enum "@ + e.name, " {\n"@, '@');
        lemma_append_without("enum "@ + e.name + " {\n"@, concat_all(lines), '@');
        lemma_append_without("enum "@ + e.name + " {\n"@ + concat_all(lines), "}\n\n"@, '@');
    }
    lemma_concat_all_without(eblocks, '@');
    let slines = ast.scalars.map_values(|s: ScalarTypeView| scalar_line(s));
    assert forall|k: int| 0 <= k < slines.len() implies !(#[trigger] slines[k]).contains('@') by {
        lemma_append_without("scalar "@, ast.scalars[k].name, '@');
        lemma_append_without("scalar "@ + ast.scalars[k].name, "\n"@, '@');
    }
    lemma_concat_all_without(slines, '@');
    reveal_strlit("union ");
    reveal_strlit(" = ");
    reveal_strlit(" | ");
    let ulines = ast.unions.map_values(|u: UnionTypeView| union_line(u));
    assert forall|k: int| 0 <= k < ulines.len() implies !(#[trigger] ulines[k]).contains('@') by {
        let u = ast.unions[k];
        let tail: Seq<char> = if u.members.len() == 0 {
            ""@
        } else {
            " = "@ + join(u.members, " | "@)
        };
        if u.members.len() > 0 {
            lemma_join_without(u.members, " | "@, '@');
            lemma_append_without(" = "@, join(u.members, " | "@), '@');
        }
        lemma_append_without("union "@, u.name, '@');
        lemma_append_without("union "@ + u.name, tail, '@');
        lemma_append_without("union "@ + u.name + tail, "\n"@, '@');
    }
    lemma_concat_all_without(ulines, '@');
    if ast.inputs.len() > 0 {
        let n = ast.inputs[0].name;
        lemma_append_without("type Query {\n"@, "    workflow: "@, '@');
        lemma_append_without("type Query {\n"@ + "    workflow: "@, n, '@');
        lemma_append_without("type Query {\n"@ + "    workflow: "@ + n, "\n"@, '@');
        lemma_append_without("type Query {\n"@ + "    workflow: "@ + n + "\n"@, "}\n"@, '@');
    } else {
        assert(query_block(ast) =~= Seq::<char>::empty());
    }
    lemma_append_without(concat_all(blocks), concat_all(eblocks), '@');
    lemma_append_without(concat_all(blocks) + concat_all(eblocks), concat_all(slines), '@');
    lemma_append_without(
        concat_all(blocks) + concat_all(eblocks) + concat_all(slines),
        concat_all(ulines),
        '@',
    );
    lemma_append_without(
        concat_all(blocks) + concat_all(eblocks) + concat_all(slines) + concat_all(ulines),
        query_block(ast),
        '@',
    );
}

/// Whether `w` occurs in `t` at position `p`.
pub open spec fn occurs_at(w: Seq<char>, t: Seq<char>, p: int) -> bool {
    0 <= p && p + w.len() <= t.len() && t.subrange(p, p + w.len()) == w
}

proof fn lemma_concat_all_append(a: Seq<Seq<char>>, b: Seq<Seq<char>>)
    ensures
        concat_all(a + b) == concat_all(a) + concat_all(b),
    decreases b.len(),
{
    if b.len() == 0 {
        assert(a + b =~= a);
        assert(concat_all(a) + concat_all(b) =~= concat_all(a));
    } else {
        assert((a + b).drop_last() =~= a + b.drop_last());
        assert((a + b).last() == b.last());
        lemma_concat_all_append(a, b.drop_last());
        assert(concat_all(a) + concat_all(b.drop_last()) + b.last() =~= concat_all(a) + (concat_all(
            b.drop_last(),
        ) + b.last()));
    }
}

/// The `k`-th part stands in the concatenation after the parts before it.
proof fn lemma_concat_all_at(parts: Seq<Seq<char>>, k: int)
    requires
        0 <= k < parts.len(),
    ensures
        occurs_at(parts[k], concat_all(parts), concat_all(parts.take(k)).len() as int),
        concat_all(parts.take(k)).len() + parts[k].len() <= concat_all(parts.take(k + 1)).len(),
{
    let pre = parts.take(k);
    let post = parts.skip(k + 1);
    assert(parts.take(k + 1).drop_last() =~= pre);
    assert(parts =~= parts.take(k + 1) + post);
    lemma_concat_all_append(parts.take(k + 1), post);
    let t = concat_all(parts);
    assert(concat_all(parts.take(k + 1)) == concat_all(pre) + parts[k]);
    assert(t == concat_all(pre) + parts[k] + concat_all(post));
    assert(t.subrange(concat_all(pre).len() as int, (concat_all(pre).len() + parts[k].len()) as int)
        =~= parts[k]);
}

/// The text before a later part is longer than that before an earlier one
/// by at least the earlier part.
proof fn lemma_concat_all_prefix_grows(parts: Seq<Seq<char>>, k1: int, k2: int)
    requires
        0 <= k1 < k2 <= parts.len(),
    ensures
        concat_all(parts.take(k1)).len() + parts[k1].len() <= concat_all(parts.take(k2)).len(),
{
    lemma_concat_all_at(parts, k1);
    let mid = parts.subrange(k1 + 1, k2);
    assert(parts.take(k2) =~= parts.take(k1 + 1) + mid);
    lemma_concat_all_append(parts.take(k1 + 1), mid);
}

/// A part of a section stands in `before + section + after` after `before`
/// and the parts before it.
proof fn lemma_section_at(before: Seq<char>, parts: Seq<Seq<char>>, after: Seq<char>, k: int)
    requires
        0 <= k < parts.len(),
    ensures
        occurs_at(
            parts[k],
            before + concat_all(parts) + after,
            (before.len() + concat_all(parts.take(k)).len()) as int,
        ),
{
    lemma_concat_all_at(parts, k);
    let t = before + concat_all(parts) + after;
    let p: int = (before.len() + concat_all(parts.take(k)).len()) as int;
    assert(t.subrange(p, p + parts[k].len()) =~= concat_all(parts).subrange(
        concat_all(parts.take(k)).len() as int,
        (concat_all(parts.take(k)).len() + parts[k].len()) as int,
    ));
}

proof fn lemma_occurs_prefix(w: Seq<char>, u: Seq<char>, t: Seq<char>, p: int)
    requires
        occurs_at(w + u, t, p),
    ensures
        occurs_at(w, t, p),
{
    let whole = t.subrange(p, p + (w + u).len());
    assert(whole == w + u);
    assert forall|j: int| 0 <= j < w.len() implies t.subrange(p, p + w.len())[j] == w[j] by {
        assert(t.subrange(p, p + w.len())[j] == t[p + j]);
        assert(whole[j] == t[p + j]);
        assert((w + u)[j] == w[j]);
    }
    assert(t.subrange(p, p + w.len()) =~= w);
}

/// The Voyager rendering has a line `scalar N` for every scalar definition
/// `N`, and a later scalar's line comes after an earlier one's; likewise
/// every input type `N` gives an object type opening `type N {`, every enum
/// `N` an `enum N {` and every union `N` a line starting `union N`.
pub proof fn law_voyager_lists_every_definition(ast: SdlAstView, k1: int, k2: int)
    ensures
        0 <= k1 < ast.scalars.len() ==> exists|p: int|
            occurs_at(
                "scalar "@ + ast.scalars[k1].name + "\n"@,
                voyager_text(ast),
                p,
            ),
        0 <= k1 < k2 < ast.scalars.len() ==> exists|p1: int, p2: int|
            p1 < p2 && occurs_at("scalar "@ + ast.scalars[k1].name + "\n"@, voyager_text(ast), p1)
                && occurs_at("scalar "@ + ast.scalars[k2].name + "\n"@, voyager_text(ast), p2),
        0 <= k1 < ast.inputs.len() ==> exists|p: int|
            occurs_at("type "@ + ast.inputs[k1].name + " {\n"@, voyager_text(ast), p),
        0 <= k1 < ast.enums.len() ==> exists|p: int|
            occurs_at("enum "@ + ast.enums[k1].name + " {\n"@, voyager_text(ast), p),
        0 <= k1 < ast.unions.len() ==> exists|p: int|
            occurs_at("union "@ + ast.unions[k1].name, voyager_text(ast), p),
{
    reveal_strlit("scalar ");
    let blocks = ast.inputs.map_values(|i: InputTypeView| input_block(i));
    let eblocks = ast.enums.map_values(|e: EnumTypeView| enum_block(e));
    let slines = ast.scalars.map_values(|s: ScalarTypeView| scalar_line(s));
    let ulines = ast.unions.map_values(|u: UnionTypeView| union_line(u));
    let t = voyager_text(ast);
    let ca = concat_all(blocks);
    let ce = concat_all(eblocks);
    let cs = concat_all(slines);
    let cu = concat_all(ulines);
    let q = query_block(ast);
    assert(t == ca + ce + cs + cu + q);
    if 0 <= k1 < ast.scalars.len() {
        assert(t =~= (ca + ce) + cs + (cu + q));
        lemma_section_at(ca + ce, slines, cu + q, k1);
        let p1: int = ((ca + ce).len() + concat_all(slines.take(k1)).len()) as int;
        assert(occurs_at("scalar "@ + ast.scalars[k1].name + "\n"@, t, p1));
        if k1 < k2 < ast.scalars.len() {
            lemma_section_at(ca + ce, slines, cu + q, k2);
            lemma_concat_all_prefix_grows(slines, k1, k2);
            let p2: int = ((ca + ce).len() + concat_all(slines.take(k2)).len()) as int;
            assert(slines[k1].len() > 0);
            assert(occurs_at("scalar "@ + ast.scalars[k2].name + "\n"@, t, p2));
            assert(p1 < p2);
        }
    }
    if 0 <= k1 < ast.inputs.len() {
        assert(t =~= Seq::<char>::empty() + ca + (ce + cs + cu + q));
        lemma_section_at(Seq::<char>::empty(), blocks, ce + cs + cu + q, k1);
        let i = ast.inputs[k1];
        let head = "type "@ + i.name + " {\n"@;
        let rest = concat_all(i.fields.map_values(|f: InputFieldView| field_line(f))) + "}\n\n"@;
        assert(blocks[k1] =~= head + rest);
        lemma_occurs_prefix(head, rest, t, (concat_all(blocks.take(k1)).len()) as int);
    }
    if 0 <= k1 < ast.enums.len() {
        assert(t =~= ca + ce + (cs + cu + q));
        lemma_section_at(ca, eblocks, cs + cu + q, k1);
        let e = ast.enums[k1];
        let head = "enum "@ + e.name + " {\n"@;
        let rest = concat_all(e.values.map_values(|v: Seq<char>| "    "@ + v + "\n"@)) + "}\n\n"@;
        assert(eblocks[k1] =~= head + rest);
        lemma_occurs_prefix(head, rest, t, (ca.len() + concat_all(eblocks.take(k1)).len()) as int);
    }
    if 0 <= k1 < ast.unions.len() {
        assert(t =~= (ca + ce + cs) + cu + q);
        lemma_section_at(ca + ce + cs, ulines, q, k1);
        let u = ast.unions[k1];
        let head = "union "@ + u.name;
        let rest = (if u.members.len() == 0 {
            ""@
        } else {
            " = "@ + join(u.members, " | "@)
        }) + "\n"@;
        assert(ulines[k1] =~= head + rest);
        lemma_occurs_prefix(
            head,
            rest,
            t,
            ((ca + ce + cs).len() + concat_all(ulines.take(k1)).len()) as int,
        );
    }
}

/// Converts validation SDL to a Voyager-compatible GraphQL schema: the
/// parse errors, reported, when apollo-parser finds any; else the Voyager
/// rendering of the type definitions.
pub fn to_voyager_schema(schema: &str) -> (r: Result<String, String>)
    ensures
        match r {
            Ok(out) => graphql_syntax_errors(schema@).len() == 0 && out@ == voyager_text(
                ast_of(graphql_syntax(schema@)),
            ),
            Err(e) => graphql_syntax_errors(schema@).len() > 0 && e@ == parse_messages_text(
                graphql_syntax_errors(schema@),
            ),
        },
{
    match extract_ast(schema) {
        Ok(ast) => Ok(voyager_from_ast(&ast)),
        Err(errs) => {
            proof {
                lemma_parse_report(errs@, graphql_syntax_errors(schema@));
            }
            Err(sdl_errors_report(&errs))
        },
    }
}

} // verus!
