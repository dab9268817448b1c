//! The schema intermediate representation: JTD-like (RFC 8927) schema
//! forms with extensions, and the bundle of named schemas.
use crate::ordered_map::{insert_spec, law_lookup_after_insert, lookup, OrderedMap};
use crate::text::to_string;
use vstd::prelude::*;

verus! {

/// JTD-like schema IR.
#[derive(Debug, PartialEq, Eq)]
pub enum Schema {
    /// Accepts any value.
    Any,
    /// Scalar type with optional constraints.
    Scalar(ScalarKind),
    /// Enum with string values.
    Enum { values: Vec<String> },
    /// Array with element schema.
    Array { elements: Box<Schema> },
    /// Object with required/optional properties and additional key policy.
    Object {
        required: OrderedMap<Box<Schema>>,
        optional: OrderedMap<Box<Schema>>,
        additional: AdditionalPolicy,
    },
    /// Map where all values match a single schema (the JTD "values" form).
    Values { values: Box<Schema> },
    /// Tagged union selected by a discriminator field.
    DiscriminatedUnion { discriminator: String, mapping: OrderedMap<Box<Schema>> },
    /// Shape-based union: exactly one variant must match.
    OneOf { variants: Vec<OneOfVariant> },
    /// Named schema reference.
    Ref { name: String },
}

/// Policy for additional/unknown keys in objects.
#[derive(Debug, PartialEq, Eq)]
pub enum AdditionalPolicy {
    /// Reject unknown keys.
    Reject,
    /// Allow any unknown key (any value type).
    AllowAny,
    /// Allow unknown keys, but values must match schema.
    AllowSchema(Box<Schema>),
}

/// Variant in a OneOf union.
#[derive(Debug, PartialEq, Eq)]
pub struct OneOfVariant {
    /// Human-readable label for diagnostics.
    pub label: String,
    /// Schema to validate against.
    pub schema: Box<Schema>,
}

/// Built-in and custom scalar types with optional constraints.
#[derive(Debug, Clone, PartialEq, Eq)]
pub enum ScalarKind {
    String { pattern: Option<String> },
    Boolean,
    Int { min: Option<i64>, max: Option<i64> },
    Float { min: Option<i64>, max: Option<i64> },
    Timestamp,
    Custom { name: String, constraints: ScalarConstraints },
}

/// Constraints for custom scalars.
#[derive(Debug, Clone, PartialEq, Eq)]
pub struct ScalarConstraints {
    /// Regular expression pattern.
    pub pattern: Option<String>,
    /// Minimum string length.
    pub min_length: Option<usize>,
    /// Maximum string length.
    pub max_length: Option<usize>,
}

impl Default for ScalarConstraints {
    fn default() -> (r: Self)
        ensures
            r.pattern is None,
            r.min_length is None,
            r.max_length is None,
    {
        ScalarConstraints { pattern: None, min_length: None, max_length: None }
    }
}

/// Bundle of named schemas (type registry).
#[derive(Debug, PartialEq, Eq)]
pub struct SchemaBundle {
    /// Map from type name to schema definition.
    pub schemas: OrderedMap<Schema>,
    /// Root schema name (entry point for validation).
    pub root_name: Option<String>,
}

/// The schema a bundle holds under `name`.
pub open spec fn resolve_spec(b: SchemaBundle, name: Seq<char>) -> Option<Schema> {
    lookup(b.schemas.entries@, name)
}

/// The root schema of a bundle: the one named by its root name.
pub open spec fn root_spec(b: SchemaBundle) -> Option<Schema> {
    match b.root_name {
        Some(n) => resolve_spec(b, n@),
        None => None,
    }
}

impl SchemaBundle {
    /// Create an empty bundle.
    pub fn new() -> (r: Self)
        ensures
            r.schemas.entries@.len() == 0,
            r.root_name is None,
    {
        SchemaBundle { schemas: OrderedMap::new(), root_name: None }
    }

    /// Resolve a named schema reference.
    pub fn resolve(&self, name: &str) -> (r: Option<&Schema>)
        ensures
            match r {
                Some(s) => resolve_spec(*self, name@) == Some(*s),
                None => resolve_spec(*self, name@) is None,
            },
    {
        self.schemas.get(name)
    }

    /// Insert a named schema.
    pub fn insert(&mut self, name: String, schema: Schema)
        ensures
            final(self).root_name == old(self).root_name,
            final(self).schemas.entries@ == insert_spec(old(self).schemas.entries@, name, schema),
    {
        self.schemas.insert(name, schema);
    }

    /// Set the root schema name.
    pub fn set_root(&mut self, name: &str)
        ensures
            final(self).schemas == old(self).schemas,
            final(self).root_name is Some,
            final(self).root_name->Some_0@ == name@,
    {
        self.root_name = Some(to_string(name));
    }

    /// Get the root schema.
    pub fn root(&self) -> (r: Option<&Schema>)
        ensures
            match r {
                Some(s) => root_spec(*self) == Some(*s),
                None => root_spec(*self) is None,
            },
    {
        match &self.root_name {
            Some(n) => self.resolve(n.as_str()),
            None => None,
        }
    }
}

impl Default for SchemaBundle {
    fn default() -> (r: Self)
        ensures
            r.schemas.entries@.len() == 0,
            r.root_name is None,
    {
        SchemaBundle::new()
    }
}

/// The content of a scalar kind, strings taken by their characters.
pub enum ScalarKindView {
    String { pattern: Option<Seq<char>> },
    Boolean,
    Int { min: Option<i64>, max: Option<i64> },
    Float { min: Option<i64>, max: Option<i64> },
    Timestamp,
    Custom {
        name: Seq<char>,
        pattern: Option<Seq<char>>,
        min_length: Option<usize>,
        max_length: Option<usize>,
    },
}

/// The content of a schema, strings taken by their characters and maps by
/// their entries in order.
pub enum SchemaView {
    Any,
    Scalar(ScalarKindView),
    Enum(Seq<Seq<char>>),
    Array(Box<SchemaView>),
    Object {
        required: Seq<(Seq<char>, SchemaView)>,
        optional: Seq<(Seq<char>, SchemaView)>,
        additional: PolicyView,
    },
    Values(Box<SchemaView>),
    DiscriminatedUnion { discriminator: Seq<char>, mapping: Seq<(Seq<char>, SchemaView)> },
    OneOf(Seq<(Seq<char>, SchemaView)>),
    Ref(Seq<char>),
}

/// The content of an additional-properties policy.
pub enum PolicyView {
    Reject,
    AllowAny,
    AllowSchema(Box<SchemaView>),
}

/// The view of an optional string.
pub open spec fn opt_chars(o: Option<String>) -> Option<Seq<char>> {
    match o {
        Some(s) => Some(s@),
        None => None,
    }
}

/// The content of a scalar kind.
pub open spec fn scalar_view(k: ScalarKind) -> ScalarKindView {
    match k {
        ScalarKind::String { pattern } => ScalarKindView::String { pattern: opt_chars(pattern) },
        ScalarKind::Boolean => ScalarKindView::Boolean,
        ScalarKind::Int { min, max } => ScalarKindView::Int { min, max },
        ScalarKind::Float { min, max } => ScalarKindView::Float { min, max },
        ScalarKind::Timestamp => ScalarKindView::Timestamp,
        ScalarKind::Custom { name, constraints } => ScalarKindView::Custom {
            name: name@,
            pattern: opt_chars(constraints.pattern),
            min_length: constraints.min_length,
            max_length: constraints.max_length,
        },
    }
}

/// The content of a schema.
pub open spec fn schema_view(s: Schema) -> SchemaView
    decreases s, 0nat,
{
    match s {
        Schema::Any => SchemaView::Any,
        Schema::Scalar(k) => SchemaView::Scalar(scalar_view(k)),
        Schema::Enum { values } => SchemaView::Enum(values@.map_values(|v: String| v@)),
        Schema::Array { elements } => SchemaView::Array(Box::new(schema_view(*elements))),
        Schema::Object { required, optional, additional } => {
            proof {
                assert(decreases_to!(s => required));
                assert(decreases_to!(required => required.entries));
                assert(decreases_to!(required.entries => required.entries@));
                assert(decreases_to!(s => optional));
                assert(decreases_to!(optional => optional.entries));
                assert(decreases_to!(optional.entries => optional.entries@));
            }
            SchemaView::Object {
                required: entries_view(required.entries@, required.entries@.len()),
                optional: entries_view(optional.entries@, optional.entries@.len()),
                additional: policy_view(additional),
            }
        },
        Schema::Values { values } => SchemaView::Values(Box::new(schema_view(*values))),
        Schema::DiscriminatedUnion { discriminator, mapping } => {
            proof {
                assert(decreases_to!(s => mapping));
                assert(decreases_to!(mapping => mapping.entries));
                assert(decreases_to!(mapping.entries => mapping.entries@));
            }
            SchemaView::DiscriminatedUnion {
                discriminator: discriminator@,
                mapping: entries_view(mapping.entries@, mapping.entries@.len()),
            }
        },
        Schema::OneOf { variants } => {
            proof {
                assert(decreases_to!(s => variants));
                assert(decreases_to!(variants => variants@));
            }
            SchemaView::OneOf(variants_view(variants@, variants@.len()))
        },
        Schema::Ref { name } => SchemaView::Ref(name@),
    }
}

/// The content of the first `n` entries of a schema map.
pub open spec fn entries_view(es: Seq<(String, Box<Schema>)>, n: nat) -> Seq<(Seq<char>, SchemaView)>
    decreases es, n,
{
    if n == 0 || n > es.len() {
        Seq::empty()
    } else {
        proof {
            assert(decreases_to!(es => es[n - 1]));
        }
        entries_view(es, (n - 1) as nat).push((es[n - 1].0@, schema_view(*es[n - 1].1)))
    }
}

/// The content of the first `n` variants of a union, label and schema.
pub open spec fn variants_view(vs: Seq<OneOfVariant>, n: nat) -> Seq<(Seq<char>, SchemaView)>
    decreases vs, n,
{
    if n == 0 || n > vs.len() {
        Seq::empty()
    } else {
        proof {
            assert(decreases_to!(vs => vs[n - 1]));
        }
        variants_view(vs, (n - 1) as nat).push((vs[n - 1].label@, schema_view(*vs[n - 1].schema)))
    }
}

/// The content of an additional-properties policy.
pub open spec fn policy_view(p: AdditionalPolicy) -> PolicyView
    decreases p, 0nat,
{
    match p {
        AdditionalPolicy::Reject => PolicyView::Reject,
        AdditionalPolicy::AllowAny => PolicyView::AllowAny,
        AdditionalPolicy::AllowSchema(s) => PolicyView::AllowSchema(Box::new(schema_view(*s))),
    }
}

impl View for Schema {
    type V = SchemaView;

    open spec fn view(&self) -> SchemaView {
        schema_view(*self)
    }
}

/// The content of a bundle's entries: each name with its schema's content.
pub open spec fn bundle_entries(es: Seq<(String, Schema)>) -> Seq<(Seq<char>, SchemaView)> {
    es.map_values(|e: (String, Schema)| (e.0@, schema_view(e.1)))
}

/// The position of the first entry with key `k`.
pub open spec fn key_index<V>(es: Seq<(Seq<char>, V)>, k: Seq<char>) -> Option<int>
    decreases es.len(),
{
    if es.len() == 0 {
        None
    } else {
        match key_index(es.drop_last(), k) {
            Some(i) => Some(i),
            None => if es.last().0 == k {
                Some(es.len() - 1)
            } else {
                None
            },
        }
    }
}

/// Inserting into an ordered map of contents: an existing key keeps its
/// position and takes the new value; a new key is appended.
pub open spec fn insert_entry<V>(es: Seq<(Seq<char>, V)>, k: Seq<char>, v: V) -> Seq<(Seq<char>, V)> {
    match key_index(es, k) {
        Some(i) => es.update(i, (k, v)),
        None => es.push((k, v)),
    }
}

/// The first position of a key is the same in a map and in its content.
pub proof fn lemma_key_index<V, W>(
    es: Seq<(String, V)>,
    vs: Seq<(Seq<char>, W)>,
    k: Seq<char>,
)
    requires
        es.len() == vs.len(),
        forall|i: int| 0 <= i < es.len() ==> (#[trigger] vs[i]).0 == es[i].0@,
    ensures
        key_index(vs, k) == crate::ordered_map::find_key(es, k),
    decreases es.len(),
{
    if es.len() > 0 {
        lemma_key_index(es.drop_last(), vs.drop_last(), k);
    }
}

/// The content of a schema map's entries, in order.
pub open spec fn map_entries(es: Seq<(String, Box<Schema>)>) -> Seq<(Seq<char>, SchemaView)> {
    es.map_values(|e: (String, Box<Schema>)| (e.0@, schema_view(*e.1)))
}

/// The content of a list of union variants, label and schema.
pub open spec fn variant_entries(vs: Seq<OneOfVariant>) -> Seq<(Seq<char>, SchemaView)> {
    vs.map_values(|v: OneOfVariant| (v.label@, schema_view(*v.schema)))
}

/// `entries_view` of a prefix is the content of that prefix.
pub proof fn lemma_entries_view(es: Seq<(String, Box<Schema>)>, n: nat)
    requires
        n <= es.len(),
    ensures
        entries_view(es, n) == map_entries(es.take(n as int)),
    decreases n,
{
    if n > 0 {
        lemma_entries_view(es, (n - 1) as nat);
        assert(map_entries(es.take(n as int)) =~= map_entries(es.take(n - 1)).push(
            (es[n - 1].0@, schema_view(*es[n - 1].1)),
        ));
    } else {
        assert(map_entries(es.take(0)) =~= Seq::<(Seq<char>, SchemaView)>::empty());
    }
}

/// `variants_view` of a prefix is the content of that prefix.
pub proof fn lemma_variants_view(vs: Seq<OneOfVariant>, n: nat)
    requires
        n <= vs.len(),
    ensures
        variants_view(vs, n) == variant_entries(vs.take(n as int)),
    decreases n,
{
    if n > 0 {
        lemma_variants_view(vs, (n - 1) as nat);
        assert(variant_entries(vs.take(n as int)) =~= variant_entries(vs.take(n - 1)).push(
            (vs[n - 1].label@, schema_view(*vs[n - 1].schema)),
        ));
    } else {
        assert(variant_entries(vs.take(0)) =~= Seq::<(Seq<char>, SchemaView)>::empty());
    }
}

/// Inserting into a schema map inserts into its content.
pub proof fn lemma_map_insert(
    before: Seq<(String, Box<Schema>)>,
    after: Seq<(String, Box<Schema>)>,
    key: String,
    s: Box<Schema>,
)
    requires
        after == insert_spec(before, key, s),
    ensures
        map_entries(after) == insert_entry(map_entries(before), key@, schema_view(*s)),
{
    lemma_key_index(before, map_entries(before), key@);
    crate::ordered_map::lemma_find_key(before, key@);
    assert(map_entries(after) =~= insert_entry(map_entries(before), key@, schema_view(*s)));
}

/// Inserting into a bundle inserts into its content.
pub proof fn lemma_bundle_insert(
    before: Seq<(String, Schema)>,
    after: Seq<(String, Schema)>,
    key: String,
    s: Schema,
)
    requires
        after == insert_spec(before, key, s),
    ensures
        bundle_entries(after) == insert_entry(bundle_entries(before), key@, schema_view(s)),
{
    lemma_key_index(before, bundle_entries(before), key@);
    crate::ordered_map::lemma_find_key(before, key@);
    assert(bundle_entries(after) =~= insert_entry(bundle_entries(before), key@, schema_view(s)));
}

/// A schema inserted under a name (the change `SchemaBundle::insert`
/// makes) is what the name then resolves to; every other name resolves as
/// before.
pub proof fn law_resolve_after_insert(
    before: SchemaBundle,
    after: SchemaBundle,
    name: String,
    schema: Schema,
    other: Seq<char>,
)
    requires
        after.schemas.entries@ == insert_spec(before.schemas.entries@, name, schema),
    ensures
        resolve_spec(after, name@) == Some(schema),
        other != name@ ==> resolve_spec(after, other) == resolve_spec(before, other),
{
    law_lookup_after_insert(before.schemas.entries@, name, schema, other);
}

/// After the root is set to a name (what `SchemaBundle::set_root` does),
/// the root schema is what that name resolves to.
pub proof fn law_root_after_set_root(before: SchemaBundle, after: SchemaBundle, name: Seq<char>)
    requires
        after.schemas == before.schemas,
        after.root_name is Some,
        after.root_name->Some_0@ == name,
    ensures
        root_spec(after) == resolve_spec(before, name),
{
}

} // verus!
