//! The GraphQL concrete syntax tree, as apollo-parser builds it, held as the
//! preorder sequence of its elements (nodes and tokens) with their nesting
//! levels; and the structural queries the SDL reader makes on it.
//!
//! The kind numbers below are the positions of the kinds in apollo-parser's
//! `#[repr(u16)] enum SyntaxKind` as of version 0.8.7; another version of the
//! crate may number them differently.
use crate::text::{push_str, to_string};
use apollo_parser::cst::CstNode;
use vstd::prelude::*;

verus! {

/// apollo-parser `SyntaxKind::NAME`.
pub const NAME: u16 = 62;
/// apollo-parser `SyntaxKind::DOCUMENT`.
pub const DOCUMENT: u16 = 71;
/// apollo-parser `SyntaxKind::DIRECTIVE`.
pub const DIRECTIVE: u16 = 79;
/// apollo-parser `SyntaxKind::DIRECTIVES`.
pub const DIRECTIVES: u16 = 80;
/// apollo-parser `SyntaxKind::ARGUMENTS`.
pub const ARGUMENTS: u16 = 87;
/// apollo-parser `SyntaxKind::ARGUMENT`.
pub const ARGUMENT: u16 = 88;
/// apollo-parser `SyntaxKind::STRING_VALUE`.
pub const STRING_VALUE: u16 = 90;
/// apollo-parser `SyntaxKind::INT_VALUE`.
pub const INT_VALUE: u16 = 91;
/// apollo-parser `SyntaxKind::FLOAT_VALUE`.
pub const FLOAT_VALUE: u16 = 92;
/// apollo-parser `SyntaxKind::VARIABLE`.
pub const VARIABLE: u16 = 95;
/// apollo-parser `SyntaxKind::BOOLEAN_VALUE`.
pub const BOOLEAN_VALUE: u16 = 96;
/// apollo-parser `SyntaxKind::NULL_VALUE`.
pub const NULL_VALUE: u16 = 97;
/// apollo-parser `SyntaxKind::ENUM_VALUE`.
pub const ENUM_VALUE: u16 = 98;
/// apollo-parser `SyntaxKind::LIST_VALUE`.
pub const LIST_VALUE: u16 = 99;
/// apollo-parser `SyntaxKind::OBJECT_VALUE`.
pub const OBJECT_VALUE: u16 = 100;
/// apollo-parser `SyntaxKind::DEFAULT_VALUE`.
pub const DEFAULT_VALUE: u16 = 105;
/// apollo-parser `SyntaxKind::NAMED_TYPE`.
pub const NAMED_TYPE: u16 = 106;
/// apollo-parser `SyntaxKind::LIST_TYPE`.
pub const LIST_TYPE: u16 = 107;
/// apollo-parser `SyntaxKind::NON_NULL_TYPE`.
pub const NON_NULL_TYPE: u16 = 108;
/// apollo-parser `SyntaxKind::DESCRIPTION`.
pub const DESCRIPTION: u16 = 115;
/// apollo-parser `SyntaxKind::SCALAR_TYPE_DEFINITION`.
pub const SCALAR_TYPE_DEFINITION: u16 = 116;
/// apollo-parser `SyntaxKind::UNION_TYPE_DEFINITION`.
pub const UNION_TYPE_DEFINITION: u16 = 119;
/// apollo-parser `SyntaxKind::ENUM_TYPE_DEFINITION`.
pub const ENUM_TYPE_DEFINITION: u16 = 120;
/// apollo-parser `SyntaxKind::INPUT_OBJECT_TYPE_DEFINITION`.
pub const INPUT_OBJECT_TYPE_DEFINITION: u16 = 121;
/// apollo-parser `SyntaxKind::UNION_MEMBER_TYPES`.
pub const UNION_MEMBER_TYPES: u16 = 132;
/// apollo-parser `SyntaxKind::ENUM_VALUES_DEFINITION`.
pub const ENUM_VALUES_DEFINITION: u16 = 133;
/// apollo-parser `SyntaxKind::ENUM_VALUE_DEFINITION`.
pub const ENUM_VALUE_DEFINITION: u16 = 134;
/// apollo-parser `SyntaxKind::INPUT_FIELDS_DEFINITION`.
pub const INPUT_FIELDS_DEFINITION: u16 = 135;
/// apollo-parser `SyntaxKind::INPUT_VALUE_DEFINITION`.
pub const INPUT_VALUE_DEFINITION: u16 = 136;

/// One element of a syntax tree in preorder: a node (no text) or a token
/// (its text). `level` counts the nodes from the root down to the element
/// itself for a node, and down to its parent for a token (rowan's
/// `ancestors().count()`).
#[derive(Debug, Clone)]
pub struct SyntaxItem {
    pub level: usize,
    pub kind: u16,
    pub text: Option<String>,
}

/// The mathematical content of a syntax item: level, kind and token text.
pub type ItemView = (nat, u16, Option<Seq<char>>);

impl View for SyntaxItem {
    type V = ItemView;

    open spec fn view(&self) -> ItemView {
        (
            self.level as nat,
            self.kind,
            match self.text {
                Some(t) => Some(t@),
                None => None,
            },
        )
    }
}

/// The views of a sequence of syntax items.
pub open spec fn item_views(v: Seq<SyntaxItem>) -> Seq<ItemView> {
    v.map_values(|x: SyntaxItem| x@)
}

/// The elements apollo-parser's tree of `source` holds, in preorder
/// (`apollo_parser::Parser::new(source).parse()`, walked from its document
/// node with `descendants_with_tokens`).
pub uninterp spec fn graphql_syntax(source: Seq<char>) -> Seq<ItemView>;

/// The messages of the errors apollo-parser reports for `source`
/// (`SyntaxTree::errors`, each `Error::message`).
pub uninterp spec fn graphql_syntax_errors(source: Seq<char>) -> Seq<Seq<char>>;

/// The views of a sequence of strings.
pub open spec fn string_views(v: Seq<String>) -> Seq<Seq<char>> {
    v.map_values(|s: String| s@)
}

/// Parses `source` with `apollo_parser::Parser` and lists the messages of
/// the syntax errors it reports. The contract names the messages
/// (`graphql_syntax_errors` of the source); the grammar is not stated.
#[verifier::external_body]
pub(crate) fn syntax_error_messages(source: &str) -> (r: Vec<String>)
    ensures
        string_views(r@) == graphql_syntax_errors(source@),
{
    let tree = apollo_parser::Parser::new(source).parse();
    let mut messages = Vec::new();
    for e in tree.errors() {
        messages.push(e.message().to_string());
    }
    messages
}

/// Parses `source` with `apollo_parser::Parser` and lists the elements of
/// the document's tree in preorder (rowan's `descendants_with_tokens`),
/// each with its level, its kind as a number and, for a token, its text.
/// The contract names the list (`graphql_syntax` of the source); the shape
/// of the tree is not stated.
#[verifier::external_body]
pub(crate) fn syntax_items(source: &str) -> (r: Vec<SyntaxItem>)
    ensures
        item_views(r@) == graphql_syntax(source@),
{
    let tree = apollo_parser::Parser::new(source).parse();
    let mut items = Vec::new();
    for el in tree.document().syntax().descendants_with_tokens() {
        let text = el.as_token().map(|t| t.text().to_string());
        items.push(SyntaxItem { level: el.ancestors().count(), kind: el.kind() as u16, text });
    }
    items
}

/// A set of node kinds that a query selects.
#[derive(Clone, Copy)]
pub enum KindSet {
    /// One kind.
    One(u16),
    /// The kinds of a GraphQL type reference (named, list, non-null).
    TypeRef,
    /// The kinds of a GraphQL value.
    Value,
    /// The type definitions the schema language uses: input, scalar, enum
    /// and union.
    TypeDefinition,
}

/// Whether `set` holds `kind`.
pub open spec fn selects(set: KindSet, kind: u16) -> bool {
    match set {
        KindSet::One(k) => kind == k,
        KindSet::TypeRef => kind == NAMED_TYPE || kind == LIST_TYPE || kind == NON_NULL_TYPE,
        KindSet::Value => kind == VARIABLE || kind == STRING_VALUE || kind == FLOAT_VALUE || kind
            == INT_VALUE || kind == BOOLEAN_VALUE || kind == NULL_VALUE || kind == ENUM_VALUE
            || kind == LIST_VALUE || kind == OBJECT_VALUE,
        KindSet::TypeDefinition => kind == INPUT_OBJECT_TYPE_DEFINITION || kind
            == SCALAR_TYPE_DEFINITION || kind == ENUM_TYPE_DEFINITION || kind
            == UNION_TYPE_DEFINITION,
    }
}

fn selects_exec(set: KindSet, kind: u16) -> (r: bool)
    ensures
        r == selects(set, kind),
{
    match set {
        KindSet::One(k) => kind == k,
        KindSet::TypeRef => kind == NAMED_TYPE || kind == LIST_TYPE || kind == NON_NULL_TYPE,
        KindSet::Value => kind == VARIABLE || kind == STRING_VALUE || kind == FLOAT_VALUE || kind
            == INT_VALUE || kind == BOOLEAN_VALUE || kind == NULL_VALUE || kind == ENUM_VALUE
            || kind == LIST_VALUE || kind == OBJECT_VALUE,
        KindSet::TypeDefinition => kind == INPUT_OBJECT_TYPE_DEFINITION || kind
            == SCALAR_TYPE_DEFINITION || kind == ENUM_TYPE_DEFINITION || kind
            == UNION_TYPE_DEFINITION,
    }
}

/// The level of element `i`.
pub open spec fn level(s: Seq<ItemView>, i: int) -> int {
    s[i].0 as int
}

/// The level of the parent of element `i`.
pub open spec fn parent_level(s: Seq<ItemView>, i: int) -> int {
    if s[i].2 is Some {
        s[i].0 as int
    } else {
        s[i].0 - 1
    }
}

/// The first position from `j` on that lies outside a subtree whose root
/// has level `l`.
pub open spec fn scan_end(s: Seq<ItemView>, l: int, j: int) -> int
    decreases s.len() - j,
{
    if j >= s.len() || parent_level(s, j) < l {
        j
    } else {
        scan_end(s, l, j + 1)
    }
}

/// The end of the subtree of node `i`: its descendants are the elements
/// strictly between `i` and this position.
pub open spec fn subtree_end(s: Seq<ItemView>, i: int) -> int {
    scan_end(s, level(s, i), i + 1)
}

/// The nodes among positions `j .. e` whose parent has level `l` and whose
/// kind is in `set`.
pub open spec fn kids(s: Seq<ItemView>, l: int, set: KindSet, j: int, e: int) -> Seq<int>
    decreases e - j,
{
    if j >= e {
        Seq::empty()
    } else {
        let rest = kids(s, l, set, j + 1, e);
        if parent_level(s, j) == l && s[j].2 is None && selects(set, s[j].1) {
            seq![j] + rest
        } else {
            rest
        }
    }
}

/// The child nodes of node `i` whose kind is in `set`, in order.
pub open spec fn children(s: Seq<ItemView>, i: int, set: KindSet) -> Seq<int> {
    kids(s, level(s, i), set, i + 1, subtree_end(s, i))
}

/// The first child node of node `i` whose kind is in `set`.
pub open spec fn first_child(s: Seq<ItemView>, i: int, set: KindSet) -> Option<int> {
    let c = children(s, i, set);
    if c.len() > 0 {
        Some(c[0])
    } else {
        None
    }
}

/// The texts of the tokens among positions `j .. e`, concatenated.
pub open spec fn texts(s: Seq<ItemView>, j: int, e: int) -> Seq<char>
    decreases e - j,
{
    if j >= e {
        Seq::empty()
    } else {
        let here = match s[j].2 {
            Some(t) => t,
            None => Seq::empty(),
        };
        here + texts(s, j + 1, e)
    }
}

/// The source text of node `i`: the texts of the tokens under it.
pub open spec fn node_text(s: Seq<ItemView>, i: int) -> Seq<char> {
    texts(s, i + 1, subtree_end(s, i))
}

/// The text of a name node: that of its first child, when that is a token.
pub open spec fn name_text(s: Seq<ItemView>, n: int) -> Seq<char> {
    if n + 1 < subtree_end(s, n) && s[n + 1].2 is Some {
        s[n + 1].2->Some_0
    } else {
        Seq::empty()
    }
}

/// The text of the name child of node `i`, if it has one.
pub open spec fn opt_name(s: Seq<ItemView>, i: int) -> Option<Seq<char>> {
    match first_child(s, i, KindSet::One(NAME)) {
        Some(n) => Some(name_text(s, n)),
        None => None,
    }
}

/// The text of the name child of node `i`, or empty.
pub open spec fn name_or_empty(s: Seq<ItemView>, i: int) -> Seq<char> {
    match opt_name(s, i) {
        Some(t) => t,
        None => Seq::empty(),
    }
}

/// `scan_end` stays within `j ..= len` and everything it passes belongs
/// to the subtree.
pub proof fn lemma_scan_end(s: Seq<ItemView>, l: int, j: int)
    requires
        0 <= j <= s.len(),
    ensures
        j <= scan_end(s, l, j) <= s.len(),
        forall|k: int| j <= k < scan_end(s, l, j) ==> parent_level(s, k) >= l,
    decreases s.len() - j,
{
    if j < s.len() && parent_level(s, j) >= l {
        lemma_scan_end(s, l, j + 1);
    }
}

/// The positions `kids` lists lie in `j .. e` and are increasing.
pub proof fn lemma_kids(s: Seq<ItemView>, l: int, set: KindSet, j: int, e: int)
    ensures
        forall|k: int|
            0 <= k < kids(s, l, set, j, e).len() ==> j <= #[trigger] kids(s, l, set, j, e)[k] < e,
    decreases e - j,
{
    if j < e {
        lemma_kids(s, l, set, j + 1, e);
        let rest = kids(s, l, set, j + 1, e);
        assert forall|k: int| 0 <= k < kids(s, l, set, j, e).len() implies j <= #[trigger] kids(
            s,
            l,
            set,
            j,
            e,
        )[k] < e by {
            if parent_level(s, j) == l && s[j].2 is None && selects(set, s[j].1) {
                if k > 0 {
                    assert(kids(s, l, set, j, e)[k] == rest[k - 1]);
                }
            } else {
                assert(kids(s, l, set, j, e)[k] == rest[k]);
            }
        }
    }
}

/// Every child of node `i` lies after it and within the sequence.
pub proof fn lemma_children(s: Seq<ItemView>, i: int, set: KindSet)
    requires
        0 <= i < s.len(),
    ensures
        forall|k: int|
            0 <= k < children(s, i, set).len() ==> i < #[trigger] children(s, i, set)[k] < s.len(),
        first_child(s, i, set) matches Some(c) ==> i < c < s.len(),
{
    lemma_scan_end(s, level(s, i), i + 1);
    lemma_kids(s, level(s, i), set, i + 1, subtree_end(s, i));
}

/// Whether element `j` lies outside a subtree whose root has level `l`.
fn outside(items: &Vec<SyntaxItem>, l: usize, j: usize) -> (r: bool)
    requires
        j < items@.len(),
    ensures
        r == (parent_level(item_views(items@), j as int) < l),
{
    let it = &items[j];
    if it.text.is_some() {
        it.level < l
    } else {
        it.level <= l
    }
}

/// The end of the subtree of node `i`.
pub fn subtree_end_exec(items: &Vec<SyntaxItem>, i: usize) -> (r: usize)
    requires
        i < items@.len(),
    ensures
        r as int == subtree_end(item_views(items@), i as int),
        i < r <= items@.len(),
{
    let ghost s = item_views(items@);
    let l = items[i].level;
    let n = items.len();
    let mut j = i + 1;
    while j < n && !outside(items, l, j)
        invariant
            i < j <= items@.len(),
            n == items@.len(),
            s == item_views(items@),
            l == s[i as int].0,
            scan_end(s, l as int, j as int) == subtree_end(s, i as int),
        decreases items@.len() - j,
    {
        j = j + 1;
    }
    j
}

/// The child nodes of node `i` whose kind is in `set`.
pub fn children_exec(items: &Vec<SyntaxItem>, i: usize, set: KindSet) -> (r: Vec<usize>)
    requires
        i < items@.len(),
    ensures
        r@.map_values(|k: usize| k as int) == children(item_views(items@), i as int, set),
        forall|k: int| 0 <= k < r@.len() ==> i < #[trigger] r@[k] < items@.len(),
{
    let ghost s = item_views(items@);
    let e = subtree_end_exec(items, i);
    let l = items[i].level;
    let mut out: Vec<usize> = Vec::new();
    let mut j = i + 1;
    proof {
        lemma_scan_end(s, l as int, (i + 1) as int);
    }
    while j < e
        invariant
            i < j <= e,
            e <= items@.len(),
            s == item_views(items@),
            l == s[i as int].0,
            e as int == subtree_end(s, i as int),
            out@.map_values(|k: usize| k as int) + kids(s, l as int, set, j as int, e as int)
                == children(s, i as int, set),
            forall|k: int| 0 <= k < out@.len() ==> i < #[trigger] out@[k] < j,
        decreases e - j,
    {
        let it = &items[j];
        let ghost prev = out@;
        if it.text.is_none() && it.level > 0 && it.level - 1 == l && selects_exec(set, it.kind) {
            out.push(j);
            assert(out@.map_values(|k: usize| k as int) =~= prev.map_values(|k: usize| k as int)
                + seq![j as int]);
        }
        assert(out@.map_values(|k: usize| k as int) + kids(s, l as int, set, (j + 1) as int, e as int)
            =~= prev.map_values(|k: usize| k as int) + kids(s, l as int, set, j as int, e as int));
        j = j + 1;
    }
    assert(kids(s, l as int, set, j as int, e as int) =~= Seq::<int>::empty());
    assert(out@.map_values(|k: usize| k as int) =~= children(s, i as int, set));
    out
}

/// The first child node of node `i` whose kind is in `set`.
pub fn first_child_exec(items: &Vec<SyntaxItem>, i: usize, set: KindSet) -> (r: Option<usize>)
    requires
        i < items@.len(),
    ensures
        match r {
            Some(c) => first_child(item_views(items@), i as int, set) == Some(c as int) && i < c
                < items@.len(),
            None => first_child(item_views(items@), i as int, set) is None,
        },
{
    let c = children_exec(items, i, set);
    if c.len() > 0 {
        assert(c@.map_values(|k: usize| k as int)[0] == c@[0] as int);
        Some(c[0])
    } else {
        None
    }
}

/// The source text of node `i`.
pub fn node_text_exec(items: &Vec<SyntaxItem>, i: usize) -> (r: String)
    requires
        i < items@.len(),
    ensures
        r@ == node_text(item_views(items@), i as int),
{
    let ghost s = item_views(items@);
    let e = subtree_end_exec(items, i);
    let mut j = e;
    let mut out = String::new();
    // Built back to front: `out` holds the texts of positions `j .. e`.
    while j > i + 1
        invariant
            i + 1 <= j <= e,
            e <= items@.len(),
            s == item_views(items@),
            e as int == subtree_end(s, i as int),
            out@ == texts(s, j as int, e as int),
        decreases j,
    {
        j = j - 1;
        let mut t = match &items[j].text {
            Some(x) => to_string(x.as_str()),
            None => String::new(),
        };
        push_str(&mut t, out.as_str());
        out = t;
    }
    out
}

/// The text of the name node `n`.
pub fn name_text_exec(items: &Vec<SyntaxItem>, n: usize) -> (r: String)
    requires
        n < items@.len(),
    ensures
        r@ == name_text(item_views(items@), n as int),
{
    let e = subtree_end_exec(items, n);
    if n + 1 < e {
        match &items[n + 1].text {
            Some(t) => to_string(t.as_str()),
            None => String::new(),
        }
    } else {
        String::new()
    }
}

/// The text of the name child of node `i`, if it has one.
pub fn opt_name_exec(items: &Vec<SyntaxItem>, i: usize) -> (r: Option<String>)
    requires
        i < items@.len(),
    ensures
        match r {
            Some(t) => opt_name(item_views(items@), i as int) == Some(t@),
            None => opt_name(item_views(items@), i as int) is None,
        },
{
    match first_child_exec(items, i, KindSet::One(NAME)) {
        Some(n) => Some(name_text_exec(items, n)),
        None => None,
    }
}

/// The text of the name child of node `i`, or empty.
pub fn name_or_empty_exec(items: &Vec<SyntaxItem>, i: usize) -> (r: String)
    requires
        i < items@.len(),
    ensures
        r@ == name_or_empty(item_views(items@), i as int),
{
    match opt_name_exec(items, i) {
        Some(t) => t,
        None => String::new(),
    }
}

} // verus!
