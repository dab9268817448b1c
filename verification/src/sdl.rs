//! Reading the schema language: the type definitions of a GraphQL SDL
//! document (input, enum, union and scalar types, with their descriptions,
//! fields and directives), taken from apollo-parser's syntax tree.
use crate::diagnostics::SdlError;
use crate::syntax::{
    children, children_exec, first_child, first_child_exec, graphql_syntax,
    graphql_syntax_errors, item_views, lemma_children, name_or_empty, name_or_empty_exec,
    node_text, node_text_exec, opt_name, opt_name_exec, string_views, syntax_error_messages,
    syntax_items, KindSet, SyntaxItem, ItemView, ARGUMENT, ARGUMENTS, DEFAULT_VALUE, DESCRIPTION,
    DIRECTIVE, DIRECTIVES, ENUM_TYPE_DEFINITION, ENUM_VALUE, ENUM_VALUES_DEFINITION,
    ENUM_VALUE_DEFINITION, INPUT_FIELDS_DEFINITION, INPUT_OBJECT_TYPE_DEFINITION,
    INPUT_VALUE_DEFINITION, LIST_TYPE, NAMED_TYPE, NON_NULL_TYPE, SCALAR_TYPE_DEFINITION,
    STRING_VALUE, UNION_MEMBER_TYPES, UNION_TYPE_DEFINITION,
};
use crate::text::{
    insert_sorted, push_str, strictly_sorted, to_string, trim_class, trim_class_exec, views,
    CharClass,
};
use vstd::prelude::*;

verus! {

/// Result of parsing SDL source.
#[derive(Debug)]
pub struct ParsedSdl {
    pub type_names: Vec<String>,
    pub raw_errors: Vec<SdlError>,
}

/// Description of a parsed input field.
#[derive(Debug, Clone)]
pub struct InputFieldInfo {
    pub name: String,
    pub type_ref: String,
    pub required: bool,
    pub description: Option<String>,
    pub default_value: Option<String>,
    pub directives: Vec<DirectiveInfo>,
}

/// Description of a parsed directive.
#[derive(Debug, Clone)]
pub struct DirectiveInfo {
    pub name: String,
    pub arguments: Vec<(String, String)>,
}

/// Description of a parsed input type.
#[derive(Debug, Clone)]
pub struct InputTypeInfo {
    pub name: String,
    pub description: Option<String>,
    pub fields: Vec<InputFieldInfo>,
    pub directives: Vec<DirectiveInfo>,
}

/// Description of a parsed enum type.
#[derive(Debug, Clone)]
pub struct EnumTypeInfo {
    pub name: String,
    pub description: Option<String>,
    pub values: Vec<String>,
    pub directives: Vec<DirectiveInfo>,
}

/// Description of a parsed union type.
#[derive(Debug, Clone)]
pub struct UnionTypeInfo {
    pub name: String,
    pub description: Option<String>,
    pub members: Vec<String>,
    pub directives: Vec<DirectiveInfo>,
}

/// Description of a parsed scalar type.
#[derive(Debug, Clone)]
pub struct ScalarTypeInfo {
    pub name: String,
    pub description: Option<String>,
    pub directives: Vec<DirectiveInfo>,
}

/// The type definitions of an SDL document.
#[derive(Debug)]
pub struct SdlAst {
    pub inputs: Vec<InputTypeInfo>,
    pub enums: Vec<EnumTypeInfo>,
    pub unions: Vec<UnionTypeInfo>,
    pub scalars: Vec<ScalarTypeInfo>,
}

impl Default for SdlAst {
    fn default() -> (r: Self)
        ensures
            r.inputs@.len() == 0,
            r.enums@.len() == 0,
            r.unions@.len() == 0,
            r.scalars@.len() == 0,
    {
        SdlAst { inputs: Vec::new(), enums: Vec::new(), unions: Vec::new(), scalars: Vec::new() }
    }
}

/// The content of a directive: its name and its arguments (name, source
/// text of the value).
pub struct DirectiveView {
    pub name: Seq<char>,
    pub arguments: Seq<(Seq<char>, Seq<char>)>,
}

/// The content of an input field.
pub struct InputFieldView {
    pub name: Seq<char>,
    pub type_ref: Seq<char>,
    pub required: bool,
    pub description: Option<Seq<char>>,
    pub default_value: Option<Seq<char>>,
    pub directives: Seq<DirectiveView>,
}

/// The content of an input type.
pub struct InputTypeView {
    pub name: Seq<char>,
    pub description: Option<Seq<char>>,
    pub fields: Seq<InputFieldView>,
    pub directives: Seq<DirectiveView>,
}

/// The content of an enum type.
pub struct EnumTypeView {
    pub name: Seq<char>,
    pub description: Option<Seq<char>>,
    pub values: Seq<Seq<char>>,
    pub directives: Seq<DirectiveView>,
}

/// The content of a union type.
pub struct UnionTypeView {
    pub name: Seq<char>,
    pub description: Option<Seq<char>>,
    pub members: Seq<Seq<char>>,
    pub directives: Seq<DirectiveView>,
}

/// The content of a scalar type.
pub struct ScalarTypeView {
    pub name: Seq<char>,
    pub description: Option<Seq<char>>,
    pub directives: Seq<DirectiveView>,
}

/// The content of an SDL document's type definitions.
pub struct SdlAstView {
    pub inputs: Seq<InputTypeView>,
    pub enums: Seq<EnumTypeView>,
    pub unions: Seq<UnionTypeView>,
    pub scalars: Seq<ScalarTypeView>,
}

/// The view of an optional string.
pub open spec fn opt_string(o: Option<String>) -> Option<Seq<char>> {
    match o {
        Some(s) => Some(s@),
        None => None,
    }
}

/// The views of name/value pairs.
pub open spec fn pair_views(v: Seq<(String, String)>) -> Seq<(Seq<char>, Seq<char>)> {
    v.map_values(|p: (String, String)| (p.0@, p.1@))
}

/// The views of directives.
pub open spec fn directive_views(v: Seq<DirectiveInfo>) -> Seq<DirectiveView> {
    v.map_values(|d: DirectiveInfo| d@)
}

impl View for DirectiveInfo {
    type V = DirectiveView;

    open spec fn view(&self) -> DirectiveView {
        DirectiveView { name: self.name@, arguments: pair_views(self.arguments@) }
    }
}

impl View for InputFieldInfo {
    type V = InputFieldView;

    open spec fn view(&self) -> InputFieldView {
        InputFieldView {
            name: self.name@,
            type_ref: self.type_ref@,
            required: self.required,
            description: opt_string(self.description),
            default_value: opt_string(self.default_value),
            directives: directive_views(self.directives@),
        }
    }
}

impl View for InputTypeInfo {
    type V = InputTypeView;

    open spec fn view(&self) -> InputTypeView {
        InputTypeView {
            name: self.name@,
            description: opt_string(self.description),
            fields: self.fields@.map_values(|f: InputFieldInfo| f@),
            directives: directive_views(self.directives@),
        }
    }
}

impl View for EnumTypeInfo {
    type V = EnumTypeView;

    open spec fn view(&self) -> EnumTypeView {
        EnumTypeView {
            name: self.name@,
            description: opt_string(self.description),
            values: string_views(self.values@),
            directives: directive_views(self.directives@),
        }
    }
}

impl View for UnionTypeInfo {
    type V = UnionTypeView;

    open spec fn view(&self) -> UnionTypeView {
        UnionTypeView {
            name: self.name@,
            description: opt_string(self.description),
            members: string_views(self.members@),
            directives: directive_views(self.directives@),
        }
    }
}

impl View for ScalarTypeInfo {
    type V = ScalarTypeView;

    open spec fn view(&self) -> ScalarTypeView {
        ScalarTypeView {
            name: self.name@,
            description: opt_string(self.description),
            directives: directive_views(self.directives@),
        }
    }
}

impl View for SdlAst {
    type V = SdlAstView;

    open spec fn view(&self) -> SdlAstView {
        SdlAstView {
            inputs: self.inputs@.map_values(|x: InputTypeInfo| x@),
            enums: self.enums@.map_values(|x: EnumTypeInfo| x@),
            unions: self.unions@.map_values(|x: UnionTypeInfo| x@),
            scalars: self.scalars@.map_values(|x: ScalarTypeInfo| x@),
        }
    }
}

/// The description of node `i`: the text of its description's string,
/// with the surrounding quote characters removed.
pub open spec fn description_of(s: Seq<ItemView>, i: int) -> Option<Seq<char>> {
    match first_child(s, i, KindSet::One(DESCRIPTION)) {
        Some(d) => match first_child(s, d, KindSet::One(STRING_VALUE)) {
            Some(v) => Some(trim_class(node_text(s, v), CharClass::Is('"'))),
            None => None,
        },
        None => None,
    }
}

/// The source text of the value of argument node `a` (empty without one).
pub open spec fn value_text(s: Seq<ItemView>, a: int) -> Seq<char> {
    match first_child(s, a, KindSet::Value) {
        Some(v) => node_text(s, v),
        None => Seq::empty(),
    }
}

/// The named arguments among the argument nodes `args`: (name, value
/// text) of each one that has a name.
pub open spec fn argument_values(s: Seq<ItemView>, args: Seq<int>) -> Seq<(Seq<char>, Seq<char>)>
    decreases args.len(),
{
    if args.len() == 0 {
        Seq::empty()
    } else {
        let rest = argument_values(s, args.drop_last());
        match opt_name(s, args.last()) {
            Some(n) => rest.push((n, value_text(s, args.last()))),
            None => rest,
        }
    }
}

/// The directive at node `d`.
pub open spec fn directive_of(s: Seq<ItemView>, d: int) -> DirectiveView {
    DirectiveView {
        name: name_or_empty(s, d),
        arguments: match first_child(s, d, KindSet::One(ARGUMENTS)) {
            Some(a) => argument_values(s, children(s, a, KindSet::One(ARGUMENT))),
            None => Seq::empty(),
        },
    }
}

/// The directive nodes of node `i`.
pub open spec fn directive_nodes(s: Seq<ItemView>, i: int) -> Seq<int> {
    match first_child(s, i, KindSet::One(DIRECTIVES)) {
        Some(ds) => children(s, ds, KindSet::One(DIRECTIVE)),
        None => Seq::empty(),
    }
}

/// The directives of node `i`.
pub open spec fn directives_of(s: Seq<ItemView>, i: int) -> Seq<DirectiveView> {
    directive_nodes(s, i).map_values(|d: int| directive_of(s, d))
}

/// The text of the type reference at node `t`: a name, `[inner]`, `name!`
/// or `[inner]!`.
pub open spec fn type_ref_text(s: Seq<ItemView>, t: int) -> Seq<char>
    decreases s.len() - t,
{
    if t < 0 || t >= s.len() {
        Seq::empty()
    } else if s[t].1 == NAMED_TYPE {
        name_or_empty(s, t)
    } else if s[t].1 == LIST_TYPE {
        proof {
            lemma_children(s, t, KindSet::TypeRef);
        }
        let inner = match first_child(s, t, KindSet::TypeRef) {
            Some(c) => type_ref_text(s, c),
            None => Seq::empty(),
        };
        seq!['['] + inner + seq![']']
    } else if s[t].1 == NON_NULL_TYPE {
        proof {
            lemma_children(s, t, KindSet::One(NAMED_TYPE));
            lemma_children(s, t, KindSet::One(LIST_TYPE));
        }
        match first_child(s, t, KindSet::One(NAMED_TYPE)) {
            Some(n) => name_or_empty(s, n) + seq!['!'],
            None => match first_child(s, t, KindSet::One(LIST_TYPE)) {
                Some(l) => {
                    proof {
                        lemma_children(s, l, KindSet::TypeRef);
                    }
                    let inner = match first_child(s, l, KindSet::TypeRef) {
                        Some(c) => type_ref_text(s, c),
                        None => Seq::empty(),
                    };
                    seq!['['] + inner + seq![']', '!']
                },
                None => Seq::empty(),
            },
        }
    } else {
        Seq::empty()
    }
}

/// The input field at node `f`.
pub open spec fn field_of(s: Seq<ItemView>, f: int) -> InputFieldView {
    let ty = first_child(s, f, KindSet::TypeRef);
    InputFieldView {
        name: name_or_empty(s, f),
        type_ref: match ty {
            Some(t) => type_ref_text(s, t),
            None => Seq::empty(),
        },
        required: match ty {
            Some(t) => s[t].1 == NON_NULL_TYPE,
            None => false,
        },
        description: description_of(s, f),
        default_value: match first_child(s, f, KindSet::One(DEFAULT_VALUE)) {
            Some(d) => Some(node_text(s, d)),
            None => None,
        },
        directives: directives_of(s, f),
    }
}

/// The field nodes of input type node `i`.
pub open spec fn field_nodes(s: Seq<ItemView>, i: int) -> Seq<int> {
    match first_child(s, i, KindSet::One(INPUT_FIELDS_DEFINITION)) {
        Some(fd) => children(s, fd, KindSet::One(INPUT_VALUE_DEFINITION)),
        None => Seq::empty(),
    }
}

/// The input type at node `i`.
pub open spec fn input_of(s: Seq<ItemView>, i: int) -> InputTypeView {
    InputTypeView {
        name: name_or_empty(s, i),
        description: description_of(s, i),
        fields: field_nodes(s, i).map_values(|f: int| field_of(s, f)),
        directives: directives_of(s, i),
    }
}

/// The names of the enum value nodes `evs` that have one.
pub open spec fn enum_value_names(s: Seq<ItemView>, evs: Seq<int>) -> Seq<Seq<char>>
    decreases evs.len(),
{
    if evs.len() == 0 {
        Seq::empty()
    } else {
        let rest = enum_value_names(s, evs.drop_last());
        match first_child(s, evs.last(), KindSet::One(ENUM_VALUE)) {
            Some(v) => match opt_name(s, v) {
                Some(n) => rest.push(n),
                None => rest,
            },
            None => rest,
        }
    }
}

/// The names of the nodes `ns` that have one.
pub open spec fn names_of(s: Seq<ItemView>, ns: Seq<int>) -> Seq<Seq<char>>
    decreases ns.len(),
{
    if ns.len() == 0 {
        Seq::empty()
    } else {
        let rest = names_of(s, ns.drop_last());
        match opt_name(s, ns.last()) {
            Some(n) => rest.push(n),
            None => rest,
        }
    }
}

/// The enum type at node `i`.
pub open spec fn enum_of(s: Seq<ItemView>, i: int) -> EnumTypeView {
    EnumTypeView {
        name: name_or_empty(s, i),
        description: description_of(s, i),
        values: match first_child(s, i, KindSet::One(ENUM_VALUES_DEFINITION)) {
            Some(vd) => enum_value_names(s, children(s, vd, KindSet::One(ENUM_VALUE_DEFINITION))),
            None => Seq::empty(),
        },
        directives: directives_of(s, i),
    }
}

/// The union type at node `i`.
pub open spec fn union_of(s: Seq<ItemView>, i: int) -> UnionTypeView {
    UnionTypeView {
        name: name_or_empty(s, i),
        description: description_of(s, i),
        members: match first_child(s, i, KindSet::One(UNION_MEMBER_TYPES)) {
            Some(m) => names_of(s, children(s, m, KindSet::One(NAMED_TYPE))),
            None => Seq::empty(),
        },
        directives: directives_of(s, i),
    }
}

/// The scalar type at node `i`.
pub open spec fn scalar_of(s: Seq<ItemView>, i: int) -> ScalarTypeView {
    ScalarTypeView {
        name: name_or_empty(s, i),
        description: description_of(s, i),
        directives: directives_of(s, i),
    }
}

/// The definition nodes of the document (the tree's root) of the given
/// kinds, in document order.
pub open spec fn definitions(s: Seq<ItemView>, set: KindSet) -> Seq<int> {
    if s.len() > 0 {
        children(s, 0, set)
    } else {
        Seq::empty()
    }
}

/// The type definitions a syntax tree holds, kind by kind in document order.
pub open spec fn ast_of(s: Seq<ItemView>) -> SdlAstView {
    SdlAstView {
        inputs: definitions(s, KindSet::One(INPUT_OBJECT_TYPE_DEFINITION)).map_values(
            |i: int| input_of(s, i),
        ),
        enums: definitions(s, KindSet::One(ENUM_TYPE_DEFINITION)).map_values(
            |i: int| enum_of(s, i),
        ),
        unions: definitions(s, KindSet::One(UNION_TYPE_DEFINITION)).map_values(
            |i: int| union_of(s, i),
        ),
        scalars: definitions(s, KindSet::One(SCALAR_TYPE_DEFINITION)).map_values(
            |i: int| scalar_of(s, i),
        ),
    }
}

/// Every type definition the reader extracts (input, enum, union or scalar)
/// carries its description the same way: when its definition node has a
/// description whose child is a string value, the description is that
/// string's source text with the surrounding quotes trimmed; otherwise
/// there is none. So an enum with a description string never loses it.
pub proof fn law_descriptions_of_definitions(s: Seq<ItemView>, k: int)
    ensures
        ({
            let read = |i: int|
                match first_child(s, i, KindSet::One(DESCRIPTION)) {
                    Some(d) => match first_child(s, d, KindSet::One(STRING_VALUE)) {
                        Some(v) => Some(trim_class(node_text(s, v), CharClass::Is('"'))),
                        None => None,
                    },
                    None => None,
                };
            let a = ast_of(s);
            &&& 0 <= k < a.enums.len() ==> a.enums[k].description == read(
                definitions(s, KindSet::One(ENUM_TYPE_DEFINITION))[k],
            )
            &&& 0 <= k < a.inputs.len() ==> a.inputs[k].description == read(
                definitions(s, KindSet::One(INPUT_OBJECT_TYPE_DEFINITION))[k],
            )
            &&& 0 <= k < a.unions.len() ==> a.unions[k].description == read(
                definitions(s, KindSet::One(UNION_TYPE_DEFINITION))[k],
            )
            &&& 0 <= k < a.scalars.len() ==> a.scalars[k].description == read(
                definitions(s, KindSet::One(SCALAR_TYPE_DEFINITION))[k],
            )
        }),
{
}

/// Whether `e` is a parse error with the message, at line 0, column 0.
pub open spec fn is_parse_error_at_start(e: SdlError, message: Seq<char>) -> bool {
    match e {
        SdlError::ParseError { line, col, message: m } => line == 0 && col == 0 && m@ == message,
        _ => false,
    }
}

/// Whether `errs` reports each message, in order, as a parse error at line
/// 0, column 0.
pub open spec fn reports_messages(errs: Seq<SdlError>, messages: Seq<Seq<char>>) -> bool {
    &&& errs.len() == messages.len()
    &&& forall|k: int|
        0 <= k < errs.len() ==> is_parse_error_at_start(#[trigger] errs[k], messages[k])
}

/// The index list of a vector of positions, as integers.
pub open spec fn positions(v: Seq<usize>) -> Seq<int> {
    v.map_values(|k: usize| k as int)
}

/// The description of node `i`.
fn description_exec(items: &Vec<SyntaxItem>, i: usize) -> (r: Option<String>)
    requires
        i < items@.len(),
    ensures
        opt_string(r) == description_of(item_views(items@), i as int),
{
    match first_child_exec(items, i, KindSet::One(DESCRIPTION)) {
        Some(d) => match first_child_exec(items, d, KindSet::One(STRING_VALUE)) {
            Some(v) => {
                let t = node_text_exec(items, v);
                Some(trim_class_exec(t.as_str(), CharClass::Is('"')))
            },
            None => None,
        },
        None => None,
    }
}

/// The source text of the value of argument node `a`.
fn value_text_exec(items: &Vec<SyntaxItem>, a: usize) -> (r: String)
    requires
        a < items@.len(),
    ensures
        r@ == value_text(item_views(items@), a as int),
{
    match first_child_exec(items, a, KindSet::Value) {
        Some(v) => node_text_exec(items, v),
        None => String::new(),
    }
}

/// The directive at node `d`.
fn directive_exec(items: &Vec<SyntaxItem>, d: usize) -> (r: DirectiveInfo)
    requires
        d < items@.len(),
    ensures
        r@ == directive_of(item_views(items@), d as int),
{
    let ghost s = item_views(items@);
    let name = name_or_empty_exec(items, d);
    let mut arguments: Vec<(String, String)> = Vec::new();
    match first_child_exec(items, d, KindSet::One(ARGUMENTS)) {
        Some(a) => {
            let args = children_exec(items, a, KindSet::One(ARGUMENT));
            let ghost idx = positions(args@);
            let mut k: usize = 0;
            while k < args.len()
                invariant
                    k <= args@.len(),
                    s == item_views(items@),
                    idx == positions(args@),
                    forall|m: int| 0 <= m < args@.len() ==> #[trigger] args@[m] < items@.len(),
                    pair_views(arguments@) == argument_values(s, idx.take(k as int)),
                decreases args@.len() - k,
            {
                let ghost before = arguments@;
                assert(idx.take(k as int + 1).drop_last() =~= idx.take(k as int));
                let x = args[k];
                match opt_name_exec(items, x) {
                    Some(n) => {
                        let v = value_text_exec(items, x);
                        arguments.push((n, v));
                        assert(pair_views(arguments@) =~= pair_views(before).push((n@, v@)));
                    },
                    None => {},
                }
                k = k + 1;
            }
            assert(idx.take(args@.len() as int) =~= idx);
        },
        None => {
            assert(pair_views(arguments@) =~= Seq::<(Seq<char>, Seq<char>)>::empty());
        },
    }
    DirectiveInfo { name, arguments }
}

/// The directives of node `i`.
fn directives_exec(items: &Vec<SyntaxItem>, i: usize) -> (r: Vec<DirectiveInfo>)
    requires
        i < items@.len(),
    ensures
        directive_views(r@) == directives_of(item_views(items@), i as int),
{
    let ghost s = item_views(items@);
    let mut out: Vec<DirectiveInfo> = Vec::new();
    match first_child_exec(items, i, KindSet::One(DIRECTIVES)) {
        Some(ds) => {
            let nodes = children_exec(items, ds, KindSet::One(DIRECTIVE));
            let ghost idx = positions(nodes@);
            let mut k: usize = 0;
            while k < nodes.len()
                invariant
                    k <= nodes@.len(),
                    s == item_views(items@),
                    idx == positions(nodes@),
                    idx == directive_nodes(s, i as int),
                    forall|m: int| 0 <= m < nodes@.len() ==> #[trigger] nodes@[m] < items@.len(),
                    directive_views(out@) == idx.take(k as int).map_values(
                        |d: int| directive_of(s, d),
                    ),
                decreases nodes@.len() - k,
            {
                let ghost before = out@;
                let d = directive_exec(items, nodes[k]);
                out.push(d);
                assert(directive_views(out@) =~= directive_views(before).push(d@));
                assert(idx.take(k as int + 1).map_values(|d: int| directive_of(s, d))
                    =~= idx.take(k as int).map_values(|d: int| directive_of(s, d)).push(
                    directive_of(s, idx[k as int]),
                ));
                k = k + 1;
            }
            assert(idx.take(nodes@.len() as int) =~= idx);
        },
        None => {
            assert(directive_views(out@) =~= directives_of(s, i as int));
        },
    }
    out
}

/// The text of the type reference at node `t`.
fn type_ref_exec(items: &Vec<SyntaxItem>, t: usize) -> (r: String)
    requires
        t < items@.len(),
    ensures
        r@ == type_ref_text(item_views(items@), t as int),
    decreases items@.len() - t,
{
    let ghost s = item_views(items@);
    proof {
        reveal_strlit("[");
        reveal_strlit("]");
        reveal_strlit("!");
        reveal_strlit("]!");
    }
    let kind = items[t].kind;
    if kind == NAMED_TYPE {
        name_or_empty_exec(items, t)
    } else if kind == LIST_TYPE {
        let mut out = to_string("[");
        match first_child_exec(items, t, KindSet::TypeRef) {
            Some(c) => {
                let inner = type_ref_exec(items, c);
                push_str(&mut out, inner.as_str());
            },
            None => {},
        }
        push_str(&mut out, "]");
        out
    } else if kind == NON_NULL_TYPE {
        match first_child_exec(items, t, KindSet::One(NAMED_TYPE)) {
            Some(n) => {
                let mut out = name_or_empty_exec(items, n);
                push_str(&mut out, "!");
                out
            },
            None => match first_child_exec(items, t, KindSet::One(LIST_TYPE)) {
                Some(l) => {
                    let mut out = to_string("[");
                    match first_child_exec(items, l, KindSet::TypeRef) {
                        Some(c) => {
                            let inner = type_ref_exec(items, c);
                            push_str(&mut out, inner.as_str());
                        },
                        None => {},
                    }
                    push_str(&mut out, "]!");
                    out
                },
                None => String::new(),
            },
        }
    } else {
        String::new()
    }
}

/// The input field at node `f`.
fn field_exec(items: &Vec<SyntaxItem>, f: usize) -> (r: InputFieldInfo)
    requires
        f < items@.len(),
    ensures
        r@ == field_of(item_views(items@), f as int),
{
    let ty = first_child_exec(items, f, KindSet::TypeRef);
    let (type_ref, required) = match ty {
        Some(t) => (type_ref_exec(items, t), items[t].kind == NON_NULL_TYPE),
        None => (String::new(), false),
    };
    let default_value = match first_child_exec(items, f, KindSet::One(DEFAULT_VALUE)) {
        Some(d) => Some(node_text_exec(items, d)),
        None => None,
    };
    InputFieldInfo {
        name: name_or_empty_exec(items, f),
        type_ref,
        required,
        description: description_exec(items, f),
        default_value,
        directives: directives_exec(items, f),
    }
}

/// The input type at node `i`.
fn input_exec(items: &Vec<SyntaxItem>, i: usize) -> (r: InputTypeInfo)
    requires
        i < items@.len(),
    ensures
        r@ == input_of(item_views(items@), i as int),
{
    let ghost s = item_views(items@);
    let mut fields: Vec<InputFieldInfo> = Vec::new();
    match first_child_exec(items, i, KindSet::One(INPUT_FIELDS_DEFINITION)) {
        Some(fd) => {
            let nodes = children_exec(items, fd, KindSet::One(INPUT_VALUE_DEFINITION));
            let ghost idx = positions(nodes@);
            let mut k: usize = 0;
            while k < nodes.len()
                invariant
                    k <= nodes@.len(),
                    s == item_views(items@),
                    idx == positions(nodes@),
                    forall|m: int| 0 <= m < nodes@.len() ==> #[trigger] nodes@[m] < items@.len(),
                    fields@.map_values(|x: InputFieldInfo| x@) == idx.take(k as int).map_values(
                        |f: int| field_of(s, f),
                    ),
                decreases nodes@.len() - k,
            {
                let ghost before = fields@;
                let x = field_exec(items, nodes[k]);
                fields.push(x);
                assert(fields@.map_values(|x: InputFieldInfo| x@) =~= before.map_values(
                    |x: InputFieldInfo| x@,
                ).push(x@));
                assert(idx.take(k as int + 1).map_values(|f: int| field_of(s, f))
                    =~= idx.take(k as int).map_values(|f: int| field_of(s, f)).push(
                    field_of(s, idx[k as int]),
                ));
                k = k + 1;
            }
            assert(idx.take(nodes@.len() as int) =~= idx);
        },
        None => {},
    }
    let r = InputTypeInfo {
        name: name_or_empty_exec(items, i),
        description: description_exec(items, i),
        fields,
        directives: directives_exec(items, i),
    };
    assert(r@.fields =~= input_of(s, i as int).fields);
    r
}

/// The names of the nodes among `ns` that have one; with
/// `through_enum_value`, the names of their enum value children instead.
fn names_exec(items: &Vec<SyntaxItem>, ns: &Vec<usize>, through_enum_value: bool) -> (r: Vec<
    String,
>)
    requires
        forall|m: int| 0 <= m < ns@.len() ==> #[trigger] ns@[m] < items@.len(),
    ensures
        string_views(r@) == if through_enum_value {
            enum_value_names(item_views(items@), positions(ns@))
        } else {
            names_of(item_views(items@), positions(ns@))
        },
{
    let ghost s = item_views(items@);
    let ghost idx = positions(ns@);
    let mut out: Vec<String> = Vec::new();
    let mut k: usize = 0;
    while k < ns.len()
        invariant
            k <= ns@.len(),
            s == item_views(items@),
            idx == positions(ns@),
            forall|m: int| 0 <= m < ns@.len() ==> #[trigger] ns@[m] < items@.len(),
            string_views(out@) == if through_enum_value {
                enum_value_names(s, idx.take(k as int))
            } else {
                names_of(s, idx.take(k as int))
            },
        decreases ns@.len() - k,
    {
        let ghost before = out@;
        assert(idx.take(k as int + 1).drop_last() =~= idx.take(k as int));
        let x = ns[k];
        let holder = if through_enum_value {
            first_child_exec(items, x, KindSet::One(ENUM_VALUE))
        } else {
            Some(x)
        };
        match holder {
            Some(h) => match opt_name_exec(items, h) {
                Some(n) => {
                    out.push(n);
                    assert(string_views(out@) =~= string_views(before).push(n@));
                },
                None => {},
            },
            None => {},
        }
        k = k + 1;
    }
    assert(idx.take(ns@.len() as int) =~= idx);
    out
}

/// The enum type at node `i`.
fn enum_exec(items: &Vec<SyntaxItem>, i: usize) -> (r: EnumTypeInfo)
    requires
        i < items@.len(),
    ensures
        r@ == enum_of(item_views(items@), i as int),
{
    let values = match first_child_exec(items, i, KindSet::One(ENUM_VALUES_DEFINITION)) {
        Some(vd) => {
            let nodes = children_exec(items, vd, KindSet::One(ENUM_VALUE_DEFINITION));
            names_exec(items, &nodes, true)
        },
        None => Vec::new(),
    };
    let r = EnumTypeInfo {
        name: name_or_empty_exec(items, i),
        description: description_exec(items, i),
        values,
        directives: directives_exec(items, i),
    };
    assert(r@.values =~= enum_of(item_views(items@), i as int).values);
    r
}

/// The union type at node `i`.
fn union_exec(items: &Vec<SyntaxItem>, i: usize) -> (r: UnionTypeInfo)
    requires
        i < items@.len(),
    ensures
        r@ == union_of(item_views(items@), i as int),
{
    let members = match first_child_exec(items, i, KindSet::One(UNION_MEMBER_TYPES)) {
        Some(m) => {
            let nodes = children_exec(items, m, KindSet::One(NAMED_TYPE));
            names_exec(items, &nodes, false)
        },
        None => Vec::new(),
    };
    let r = UnionTypeInfo {
        name: name_or_empty_exec(items, i),
        description: description_exec(items, i),
        members,
        directives: directives_exec(items, i),
    };
    assert(r@.members =~= union_of(item_views(items@), i as int).members);
    r
}

/// The scalar type at node `i`.
fn scalar_exec(items: &Vec<SyntaxItem>, i: usize) -> (r: ScalarTypeInfo)
    requires
        i < items@.len(),
    ensures
        r@ == scalar_of(item_views(items@), i as int),
{
    ScalarTypeInfo {
        name: name_or_empty_exec(items, i),
        description: description_exec(items, i),
        directives: directives_exec(items, i),
    }
}

/// The names of type definitions (input, scalar, enum, union) in document
/// order, each that has a name.
pub open spec fn type_names_of(s: Seq<ItemView>) -> Seq<Seq<char>> {
    names_of(s, definitions(s, KindSet::TypeDefinition))
}

/// The positions among the first `e` elements that are directive nodes,
/// in order.
pub open spec fn directive_positions(s: Seq<ItemView>, e: int) -> Seq<int>
    decreases e,
{
    if e <= 0 || e > s.len() {
        Seq::empty()
    } else {
        let rest = directive_positions(s, e - 1);
        if s[e - 1].2 is None && s[e - 1].1 == DIRECTIVE {
            rest.push(e - 1)
        } else {
            rest
        }
    }
}

/// The names of all the directives used anywhere in the document (on
/// definitions, fields, arguments and enum values), in document order.
pub open spec fn directive_names_of(s: Seq<ItemView>) -> Seq<Seq<char>> {
    names_of(s, directive_positions(s, s.len() as int))
}

/// The definition nodes of the given kinds.
fn definitions_exec(items: &Vec<SyntaxItem>, set: KindSet) -> (r: Vec<usize>)
    ensures
        positions(r@) == definitions(item_views(items@), set),
        forall|m: int| 0 <= m < r@.len() ==> #[trigger] r@[m] < items@.len(),
{
    if items.len() == 0 {
        let r: Vec<usize> = Vec::new();
        assert(positions(r@) =~= Seq::<int>::empty());
        r
    } else {
        children_exec(items, 0, set)
    }
}

/// The parse errors for the messages, each at line 0, column 0.
fn parse_errors(messages: &Vec<String>) -> (r: Vec<SdlError>)
    ensures
        reports_messages(r@, string_views(messages@)),
{
    let mut out: Vec<SdlError> = Vec::new();
    let mut k: usize = 0;
    while k < messages.len()
        invariant
            k <= messages@.len(),
            out@.len() == k,
            forall|m: int|
                0 <= m < k ==> is_parse_error_at_start(#[trigger] out@[m], messages@[m]@),
        decreases messages@.len() - k,
    {
        let message = messages[k].clone();
        out.push(SdlError::ParseError { line: 0, col: 0, message });
        k = k + 1;
    }
    out
}

/// The type definitions of a parsed document, given the parser's error
/// messages and its tree: the messages as parse errors when there are any,
/// else the definitions kind by kind in document order.
pub fn ast_from_syntax(errors: &Vec<String>, items: &Vec<SyntaxItem>) -> (r: Result<
    SdlAst,
    Vec<SdlError>,
>)
    ensures
        match r {
            Ok(ast) => errors@.len() == 0 && ast@ == ast_of(item_views(items@)),
            Err(errs) => errors@.len() > 0 && reports_messages(errs@, string_views(errors@)),
        },
{
    if errors.len() > 0 {
        return Err(parse_errors(errors));
    }
    let ghost s = item_views(items@);
    let mut inputs: Vec<InputTypeInfo> = Vec::new();
    let mut enums: Vec<EnumTypeInfo> = Vec::new();
    let mut unions: Vec<UnionTypeInfo> = Vec::new();
    let mut scalars: Vec<ScalarTypeInfo> = Vec::new();
    let defs = definitions_exec(items, KindSet::One(INPUT_OBJECT_TYPE_DEFINITION));
    let mut k: usize = 0;
    while k < defs.len()
        invariant
            k <= defs@.len(),
            s == item_views(items@),
            forall|m: int| 0 <= m < defs@.len() ==> #[trigger] defs@[m] < items@.len(),
            inputs@.map_values(|x: InputTypeInfo| x@) == positions(defs@).take(
                k as int,
            ).map_values(|i: int| input_of(s, i)),
        decreases defs@.len() - k,
    {
        let ghost before = inputs@;
        let x = input_exec(items, defs[k]);
        inputs.push(x);
        assert(inputs@.map_values(|x: InputTypeInfo| x@) =~= before.map_values(
            |x: InputTypeInfo| x@,
        ).push(x@));
        assert(positions(defs@).take(k as int + 1).map_values(|i: int| input_of(s, i))
            =~= positions(defs@).take(k as int).map_values(|i: int| input_of(s, i)).push(
            input_of(s, defs@[k as int] as int),
        ));
        k = k + 1;
    }
    assert(positions(defs@).take(defs@.len() as int) =~= positions(defs@));
    let defs = definitions_exec(items, KindSet::One(ENUM_TYPE_DEFINITION));
    let mut k: usize = 0;
    while k < defs.len()
        invariant
            k <= defs@.len(),
            s == item_views(items@),
            forall|m: int| 0 <= m < defs@.len() ==> #[trigger] defs@[m] < items@.len(),
            enums@.map_values(|x: EnumTypeInfo| x@) == positions(defs@).take(
                k as int,
            ).map_values(|i: int| enum_of(s, i)),
        decreases defs@.len() - k,
    {
        let ghost before = enums@;
        let x = enum_exec(items, defs[k]);
        enums.push(x);
        assert(enums@.map_values(|x: EnumTypeInfo| x@) =~= before.map_values(
            |x: EnumTypeInfo| x@,
        ).push(x@));
        assert(positions(defs@).take(k as int + 1).map_values(|i: int| enum_of(s, i))
            =~= positions(defs@).take(k as int).map_values(|i: int| enum_of(s, i)).push(
            enum_of(s, defs@[k as int] as int),
        ));
        k = k + 1;
    }
    assert(positions(defs@).take(defs@.len() as int) =~= positions(defs@));
    let defs = definitions_exec(items, KindSet::One(UNION_TYPE_DEFINITION));
    let mut k: usize = 0;
    while k < defs.len()
        invariant
            k <= defs@.len(),
            s == item_views(items@),
            forall|m: int| 0 <= m < defs@.len() ==> #[trigger] defs@[m] < items@.len(),
            unions@.map_values(|x: UnionTypeInfo| x@) == positions(defs@).take(
                k as int,
            ).map_values(|i: int| union_of(s, i)),
        decreases defs@.len() - k,
    {
        let ghost before = unions@;
        let x = union_exec(items, defs[k]);
        unions.push(x);
        assert(unions@.map_values(|x: UnionTypeInfo| x@) =~= before.map_values(
            |x: UnionTypeInfo| x@,
        ).push(x@));
        assert(positions(defs@).take(k as int + 1).map_values(|i: int| union_of(s, i))
            =~= positions(defs@).take(k as int).map_values(|i: int| union_of(s, i)).push(
            union_of(s, defs@[k as int] as int),
        ));
        k = k + 1;
    }
    assert(positions(defs@).take(defs@.len() as int) =~= positions(defs@));
    let defs = definitions_exec(items, KindSet::One(SCALAR_TYPE_DEFINITION));
    let mut k: usize = 0;
    while k < defs.len()
        invariant
            k <= defs@.len(),
            s == item_views(items@),
            forall|m: int| 0 <= m < defs@.len() ==> #[trigger] defs@[m] < items@.len(),
            scalars@.map_values(|x: ScalarTypeInfo| x@) == positions(defs@).take(
                k as int,
            ).map_values(|i: int| scalar_of(s, i)),
        decreases defs@.len() - k,
    {
        let ghost before = scalars@;
        let x = scalar_exec(items, defs[k]);
        scalars.push(x);
        assert(scalars@.map_values(|x: ScalarTypeInfo| x@) =~= before.map_values(
            |x: ScalarTypeInfo| x@,
        ).push(x@));
        assert(positions(defs@).take(k as int + 1).map_values(|i: int| scalar_of(s, i))
            =~= positions(defs@).take(k as int).map_values(|i: int| scalar_of(s, i)).push(
            scalar_of(s, defs@[k as int] as int),
        ));
        k = k + 1;
    }
    assert(positions(defs@).take(defs@.len() as int) =~= positions(defs@));
    let ast = SdlAst { inputs, enums, unions, scalars };
    assert(ast@ =~= ast_of(s));
    Ok(ast)
}

/// Extract the full AST from SDL source: parse errors if apollo-parser
/// reports any, else the type definitions of the document.
pub fn extract_ast(input: &str) -> (r: Result<SdlAst, Vec<SdlError>>)
    ensures
        match r {
            Ok(ast) => graphql_syntax_errors(input@).len() == 0 && ast@ == ast_of(
                graphql_syntax(input@),
            ),
            Err(errs) => graphql_syntax_errors(input@).len() > 0 && reports_messages(
                errs@,
                graphql_syntax_errors(input@),
            ),
        },
{
    let errors = syntax_error_messages(input);
    let items = syntax_items(input);
    ast_from_syntax(&errors, &items)
}

/// The names of a parsed document's type definitions, given the parser's
/// error messages and its tree: the messages as parse errors when there are
/// any, else the names of the input, scalar, enum and union definitions in
/// document order.
pub fn type_names_from_syntax(errors: &Vec<String>, items: &Vec<SyntaxItem>) -> (r: Result<
    ParsedSdl,
    Vec<SdlError>,
>)
    ensures
        match r {
            Ok(p) => errors@.len() == 0 && string_views(p.type_names@) == type_names_of(
                item_views(items@),
            ) && p.raw_errors@.len() == 0,
            Err(errs) => errors@.len() > 0 && reports_messages(errs@, string_views(errors@)),
        },
{
    if errors.len() > 0 {
        return Err(parse_errors(errors));
    }
    let defs = definitions_exec(items, KindSet::TypeDefinition);
    let type_names = names_exec(items, &defs, false);
    Ok(ParsedSdl { type_names, raw_errors: Vec::new() })
}

/// Parse SDL source and report syntax errors; on success, the names of the
/// type definitions. Does not lower to IR.
pub fn parse_sdl(input: &str) -> (r: Result<ParsedSdl, Vec<SdlError>>)
    ensures
        match r {
            Ok(p) => graphql_syntax_errors(input@).len() == 0 && string_views(p.type_names@)
                == type_names_of(graphql_syntax(input@)) && p.raw_errors@.len() == 0,
            Err(errs) => graphql_syntax_errors(input@).len() > 0 && reports_messages(
                errs@,
                graphql_syntax_errors(input@),
            ),
        },
{
    let errors = syntax_error_messages(input);
    let items = syntax_items(input);
    type_names_from_syntax(&errors, &items)
}

/// The directive names used in a parsed document, given its tree: each name
/// once, in increasing order.
pub fn directive_names_from_syntax(items: &Vec<SyntaxItem>) -> (r: Vec<String>)
    ensures
        strictly_sorted(views(r@)),
        forall|x: Seq<char>| #[trigger]
            views(r@).contains(x) <==> directive_names_of(item_views(items@)).contains(x),
{
    let ghost s = item_views(items@);
    let mut nodes: Vec<usize> = Vec::new();
    let mut j: usize = 0;
    while j < items.len()
        invariant
            j <= items@.len(),
            s == item_views(items@),
            positions(nodes@) == directive_positions(s, j as int),
            forall|m: int| 0 <= m < nodes@.len() ==> #[trigger] nodes@[m] < j,
        decreases items@.len() - j,
    {
        let ghost before = nodes@;
        if items[j].text.is_none() && items[j].kind == DIRECTIVE {
            nodes.push(j);
            assert(positions(nodes@) =~= positions(before).push(j as int));
        }
        j = j + 1;
    }
    let names = names_exec(items, &nodes, false);
    let ghost added = views(names@);
    assert(added == directive_names_of(s));
    let mut out: Vec<String> = Vec::new();
    let mut m: usize = 0;
    while m < names.len()
        invariant
            m <= names@.len(),
            added == views(names@),
            strictly_sorted(views(out@)),
            forall|x: Seq<char>| #[trigger]
                views(out@).contains(x) <==> added.take(m as int).contains(x),
        decreases names@.len() - m,
    {
        let ghost before = views(out@);
        let n = names[m].clone();
        insert_sorted(&mut out, n);
        assert forall|x: Seq<char>| #[trigger]
            views(out@).contains(x) <== added.take(m as int + 1).contains(x) by {
            if added.take(m as int + 1).contains(x) {
                let i = choose|i: int| 0 <= i < m as int + 1 && #[trigger] added.take(m as int + 1)[i] == x;
                if i < m {
                    assert(added.take(m as int)[i] == x);
                    assert(before.contains(x));
                }
            }
        }
        assert forall|x: Seq<char>| #[trigger]
            views(out@).contains(x) ==> added.take(m as int + 1).contains(x) by {
            if views(out@).contains(x) {
                if before.contains(x) {
                    let i = choose|i: int| 0 <= i < m as int && #[trigger] added.take(m as int)[i] == x;
                    assert(added.take(m as int + 1)[i] == x);
                } else {
                    assert(added.take(m as int + 1)[m as int] == x);
                }
            }
        }
        m = m + 1;
    }
    assert(added.take(names@.len() as int) =~= added);
    out
}

/// Extract all directive names used in the SDL source, each once, in
/// increasing order.
pub fn extract_directive_names(input: &str) -> (r: Vec<String>)
    ensures
        strictly_sorted(views(r@)),
        forall|x: Seq<char>| #[trigger]
            views(r@).contains(x) <==> directive_names_of(graphql_syntax(input@)).contains(x),
{
    let items = syntax_items(input);
    directive_names_from_syntax(&items)
}

} // verus!
