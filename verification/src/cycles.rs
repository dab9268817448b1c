//! Finding reference cycles among the named schemas of a bundle, by a
//! depth-first search that colours each name white, grey (on the current
//! path) or black (done).
use crate::ir::{resolve_spec, AdditionalPolicy, OneOfVariant, Schema, SchemaBundle};
use crate::ordered_map::{find_key, lemma_find_key, lemma_find_key_first};
use crate::text::{to_string, views};
use vstd::prelude::*;

verus! {

/// The names a schema refers to, in the order a traversal meets them.
pub open spec fn refs_of(s: Schema) -> Seq<Seq<char>>
    decreases s, 0nat,
{
    match s {
        Schema::Ref { name } => seq![name@],
        Schema::Array { elements } => refs_of(*elements),
        Schema::Object { required, optional, additional } => {
            proof {
                assert(decreases_to!(s => required));
                assert(decreases_to!(required => required.entries));
                assert(decreases_to!(required.entries => required.entries@));
                assert(decreases_to!(s => optional));
                assert(decreases_to!(optional => optional.entries));
                assert(decreases_to!(optional.entries => optional.entries@));
            }
            let extra = match additional {
                AdditionalPolicy::AllowSchema(x) => refs_of(*x),
                _ => Seq::empty(),
            };
            entries_refs(required.entries@, required.entries@.len()) + entries_refs(
                optional.entries@,
                optional.entries@.len(),
            ) + extra
        },
        Schema::Values { values } => refs_of(*values),
        Schema::DiscriminatedUnion { mapping, .. } => {
            proof {
                assert(decreases_to!(s => mapping));
                assert(decreases_to!(mapping => mapping.entries));
                assert(decreases_to!(mapping.entries => mapping.entries@));
            }
            entries_refs(mapping.entries@, mapping.entries@.len())
        },
        Schema::OneOf { variants } => {
            proof {
                assert(decreases_to!(s => variants));
                assert(decreases_to!(variants => variants@));
            }
            variants_refs(variants@, variants@.len())
        },
        _ => Seq::empty(),
    }
}

/// The names the schemas of the first `n` entries refer to.
pub open spec fn entries_refs(es: Seq<(String, Box<Schema>)>, n: nat) -> Seq<Seq<char>>
    decreases es, n,
{
    if n == 0 || n > es.len() {
        Seq::empty()
    } else {
        proof {
            assert(decreases_to!(es => es[n - 1]));
        }
        entries_refs(es, (n - 1) as nat) + refs_of(*es[n - 1].1)
    }
}

/// The names the schemas of the first `n` variants refer to.
pub open spec fn variants_refs(vs: Seq<OneOfVariant>, n: nat) -> Seq<Seq<char>>
    decreases vs, n,
{
    if n == 0 || n > vs.len() {
        Seq::empty()
    } else {
        proof {
            assert(decreases_to!(vs => vs[n - 1]));
        }
        variants_refs(vs, (n - 1) as nat) + refs_of(*vs[n - 1].schema)
    }
}

/// The schemas a schema is directly made of: array elements, map values,
/// the property schemas of an object (required, optional, then the schema
/// for additional keys), the schemas of a discriminated union's mapping and
/// of a union's variants.
pub open spec fn sub_schemas(s: Schema) -> Seq<Schema> {
    match s {
        Schema::Array { elements } => seq![*elements],
        Schema::Object { required, optional, additional } => required.entries@.map_values(
            |e: (String, Box<Schema>)| *e.1,
        ) + optional.entries@.map_values(|e: (String, Box<Schema>)| *e.1) + match additional {
            AdditionalPolicy::AllowSchema(x) => seq![*x],
            _ => Seq::empty(),
        },
        Schema::Values { values } => seq![*values],
        Schema::DiscriminatedUnion { mapping, .. } => mapping.entries@.map_values(
            |e: (String, Box<Schema>)| *e.1,
        ),
        Schema::OneOf { variants } => variants@.map_values(|v: OneOfVariant| *v.schema),
        _ => Seq::empty(),
    }
}

proof fn lemma_contains_left(a: Seq<Seq<char>>, b: Seq<Seq<char>>, x: Seq<char>)
    requires
        a.contains(x),
    ensures
        (a + b).contains(x),
{
    let i = choose|i: int| 0 <= i < a.len() && a[i] == x;
    assert((a + b)[i] == x);
}

proof fn lemma_contains_right(a: Seq<Seq<char>>, b: Seq<Seq<char>>, x: Seq<char>)
    requires
        b.contains(x),
    ensures
        (a + b).contains(x),
{
    let i = choose|i: int| 0 <= i < b.len() && b[i] == x;
    assert((a + b)[a.len() + i] == x);
}

proof fn lemma_entries_refs_has(es: Seq<(String, Box<Schema>)>, n: nat, i: int, x: Seq<char>)
    requires
        0 <= i < n <= es.len(),
        refs_of(*es[i].1).contains(x),
    ensures
        entries_refs(es, n).contains(x),
    decreases n,
{
    if i < n - 1 {
        lemma_entries_refs_has(es, (n - 1) as nat, i, x);
        lemma_contains_left(entries_refs(es, (n - 1) as nat), refs_of(*es[n - 1].1), x);
    } else {
        lemma_contains_right(entries_refs(es, (n - 1) as nat), refs_of(*es[n - 1].1), x);
    }
}

proof fn lemma_variants_refs_has(vs: Seq<OneOfVariant>, n: nat, i: int, x: Seq<char>)
    requires
        0 <= i < n <= vs.len(),
        refs_of(*vs[i].schema).contains(x),
    ensures
        variants_refs(vs, n).contains(x),
    decreases n,
{
    if i < n - 1 {
        lemma_variants_refs_has(vs, (n - 1) as nat, i, x);
        lemma_contains_left(variants_refs(vs, (n - 1) as nat), refs_of(*vs[n - 1].schema), x);
    } else {
        lemma_contains_right(variants_refs(vs, (n - 1) as nat), refs_of(*vs[n - 1].schema), x);
    }
}

/// A reference refers to its name, and a schema refers to every name that
/// any schema it is made of refers to: through arrays, maps, object
/// properties, discriminated union mappings and union variants alike.
pub proof fn law_refs_include_parts(s: Schema, k: int, x: Seq<char>)
    requires
        0 <= k < sub_schemas(s).len(),
        refs_of(sub_schemas(s)[k]).contains(x),
    ensures
        refs_of(s).contains(x),
        s matches Schema::Ref { name } ==> refs_of(s).contains(name@),
{
    match s {
        Schema::Object { required, optional, additional } => {
            let r = required.entries@;
            let o = optional.entries@;
            let a = entries_refs(r, r.len());
            let b = entries_refs(o, o.len());
            let extra = match additional {
                AdditionalPolicy::AllowSchema(y) => refs_of(*y),
                _ => Seq::empty(),
            };
            if k < r.len() {
                lemma_entries_refs_has(r, r.len(), k, x);
                lemma_contains_left(a, b, x);
                lemma_contains_left(a + b, extra, x);
            } else if k < r.len() + o.len() {
                lemma_entries_refs_has(o, o.len(), k - r.len(), x);
                lemma_contains_right(a, b, x);
                lemma_contains_left(a + b, extra, x);
            } else {
                lemma_contains_right(a + b, extra, x);
            }
        },
        Schema::DiscriminatedUnion { mapping, .. } => {
            lemma_entries_refs_has(mapping.entries@, mapping.entries@.len(), k, x);
        },
        Schema::OneOf { variants } => {
            lemma_variants_refs_has(variants@, variants@.len(), k, x);
        },
        _ => {},
    }
}

/// Two names whose schemas refer to each other (or one that refers to
/// itself, with `a == c`) make a cycle, so `detect_cycles` reports one.
pub proof fn law_mutual_references_cycle(b: SchemaBundle, a: Seq<char>, c: Seq<char>)
    requires
        refers(b, a, c),
        refers(b, c, a),
    ensures
        has_cycle(b),
{
    if a == c {
        assert(is_cycle(b, seq![a]));
    } else {
        assert(is_cycle(b, seq![a, c]));
    }
}

/// Whether the schema named `a` refers to the name `c`.
pub open spec fn refers(b: SchemaBundle, a: Seq<char>, c: Seq<char>) -> bool {
    match resolve_spec(b, a) {
        Some(s) => refs_of(s).contains(c),
        None => false,
    }
}

/// Whether the names form a cycle: at least one, each referring to the
/// next and the last to the first.
pub open spec fn is_cycle(b: SchemaBundle, c: Seq<Seq<char>>) -> bool {
    &&& c.len() > 0
    &&& forall|k: int| 0 <= k < c.len() - 1 ==> refers(b, #[trigger] c[k], c[k + 1])
    &&& refers(b, c.last(), c[0])
}

proof fn lemma_concat_assoc(a: Seq<Seq<char>>, x: Seq<Seq<char>>, y: Seq<Seq<char>>)
    ensures
        a + (x + y) == (a + x) + y,
{
    assert(a + (x + y) =~= (a + x) + y);
}

/// Appends the names `s` refers to.
fn collect_refs(s: &Schema, out: &mut Vec<String>)
    ensures
        views(final(out)@) == views(old(out)@) + refs_of(*s),
    decreases *s, 1nat,
{
    let ghost base = views(out@);
    match s {
        Schema::Ref { name } => {
            out.push(to_string(name.as_str()));
            assert(views(out@) =~= base + seq![name@]);
        },
        Schema::Array { elements } => collect_refs(elements, out),
        Schema::Object { required, optional, additional } => {
            proof {
                assert(decreases_to!(*s => *required));
                assert(decreases_to!(*required => required.entries));
                assert(decreases_to!(required.entries => required.entries@));
            }
            collect_entries_refs(s, &required.entries, out);
            let ghost mid = views(out@);
            proof {
                assert(decreases_to!(*s => *optional));
                assert(decreases_to!(*optional => optional.entries));
                assert(decreases_to!(optional.entries => optional.entries@));
            }
            collect_entries_refs(s, &optional.entries, out);
            let ghost mid2 = views(out@);
            let ghost extra = if additional is AllowSchema {
                refs_of(*additional->AllowSchema_0)
            } else {
                Seq::<Seq<char>>::empty()
            };
            match additional {
                AdditionalPolicy::AllowSchema(x) => {
                    proof {
                        assert(decreases_to!(*s => *additional));
                        assert(decreases_to!(*additional => **x));
                    }
                    collect_refs(x, out);
                },
                _ => {
                    assert(views(out@) =~= mid2 + Seq::<Seq<char>>::empty());
                },
            }
            proof {
                let a = entries_refs(required.entries@, required.entries@.len());
                let o = entries_refs(optional.entries@, optional.entries@.len());
                assert(views(out@) =~= base + (a + o + extra));
            }
        },
        Schema::Values { values } => collect_refs(values, out),
        Schema::DiscriminatedUnion { mapping, .. } => {
            proof {
                assert(decreases_to!(*s => *mapping));
                assert(decreases_to!(*mapping => mapping.entries));
                assert(decreases_to!(mapping.entries => mapping.entries@));
            }
            collect_entries_refs(s, &mapping.entries, out);
        },
        Schema::OneOf { variants } => {
            let ghost vs = variants@;
            let mut k: usize = 0;
            assert(views(out@) =~= base + variants_refs(vs, 0));
            while k < variants.len()
                invariant
                    k <= vs.len(),
                    vs == variants@,
                    *s == (Schema::OneOf { variants: *variants }),
                    views(out@) == base + variants_refs(vs, k as nat),
                decreases vs.len() - k,
            {
                proof {
                    assert(decreases_to!(*s => s->OneOf_variants));
                    assert(decreases_to!(s->OneOf_variants => vs));
                    assert(decreases_to!(vs => vs[k as int]));
                    assert(decreases_to!(vs[k as int] => vs[k as int].schema));
                }
                collect_refs(&variants[k].schema, out);
                proof {
                    lemma_concat_assoc(
                        base,
                        variants_refs(vs, k as nat),
                        refs_of(*vs[k as int].schema),
                    );
                }
                k = k + 1;
            }
        },
        _ => {
            assert(views(out@) =~= base + Seq::<Seq<char>>::empty());
        },
    }
}

/// Appends the names the schemas of a map's entries refer to; `owner` is
/// the schema holding the map.
fn collect_entries_refs(owner: &Schema, es: &Vec<(String, Box<Schema>)>, out: &mut Vec<String>)
    requires
        decreases_to!(*owner => es@),
    ensures
        views(final(out)@) == views(old(out)@) + entries_refs(es@, es@.len()),
    decreases *owner, 0nat,
{
    let ghost base = views(out@);
    let mut k: usize = 0;
    assert(views(out@) =~= base + entries_refs(es@, 0));
    while k < es.len()
        invariant
            k <= es@.len(),
            decreases_to!(*owner => es@),
            views(out@) == base + entries_refs(es@, k as nat),
        decreases es@.len() - k,
    {
        proof {
            assert(decreases_to!(es@ => es@[k as int]));
        }
        collect_refs(&es[k].1, out);
        proof {
            lemma_concat_assoc(base, entries_refs(es@, k as nat), refs_of(*es@[k as int].1));
        }
        k = k + 1;
    }
}

/// Whether position `i` holds the first entry with its name.
pub open spec fn is_first(es: Seq<(String, Schema)>, i: int) -> bool {
    0 <= i < es.len() && find_key(es, es[i].0@) == Some(i)
}

/// The number of positions coloured white (0).
pub open spec fn count_white(c: Seq<u8>) -> nat
    decreases c.len(),
{
    if c.len() == 0 {
        0
    } else {
        count_white(c.drop_last()) + if c.last() == 0 {
            1nat
        } else {
            0nat
        }
    }
}

proof fn lemma_count_white_mono(a: Seq<u8>, b: Seq<u8>)
    requires
        a.len() == b.len(),
        forall|k: int| 0 <= k < a.len() && a[k] != 0 ==> #[trigger] b[k] != 0,
    ensures
        count_white(b) <= count_white(a),
    decreases a.len(),
{
    if a.len() > 0 {
        let (a2, b2) = (a.drop_last(), b.drop_last());
        assert forall|k: int| 0 <= k < a2.len() && a2[k] != 0 implies #[trigger] b2[k] != 0 by {
            assert(a2[k] == a[k] && b2[k] == b[k]);
        }
        lemma_count_white_mono(a2, b2);
        assert(a.last() != 0 ==> b[b.len() - 1] != 0);
    }
}

/// Painting a white position another colour leaves one white position
/// fewer.
pub proof fn lemma_count_white_paint(a: Seq<u8>, i: int, v: u8)
    requires
        0 <= i < a.len(),
        a[i] == 0,
        v != 0,
    ensures
        count_white(a.update(i, v)) + 1 == count_white(a),
    decreases a.len(),
{
    let b = a.update(i, v);
    if i < a.len() - 1 {
        assert(b.drop_last() =~= a.drop_last().update(i, v));
        lemma_count_white_paint(a.drop_last(), i, v);
    } else {
        assert(b.drop_last() =~= a.drop_last());
    }
}

/// The names of the cycles found, as contents.
pub open spec fn cycle_views(v: Seq<Vec<String>>) -> Seq<Seq<Seq<char>>> {
    v.map_values(|c: Vec<String>| views(c@))
}

/// Whether every list in `cs` is a cycle of the bundle.
pub open spec fn all_cycles(b: SchemaBundle, cs: Seq<Seq<Seq<char>>>) -> bool {
    forall|k: int| 0 <= k < cs.len() ==> is_cycle(b, #[trigger] cs[k])
}

/// Whether `adj` lists, for each position, first positions of names its
/// schema refers to.
pub open spec fn adjacency_ok(b: SchemaBundle, adj: Seq<Vec<usize>>) -> bool {
    let es = b.schemas.entries@;
    &&& adj.len() == es.len()
    &&& forall|i: int, k: int|
        0 <= i < adj.len() && 0 <= k < adj[i]@.len() ==> is_first(es, #[trigger] adj[i]@[k] as int)
            && (is_first(es, i) ==> refers(b, es[i].0@, es[adj[i]@[k] as int].0@))
}

/// Whether the path holds first positions, each referring to the next.
pub open spec fn path_ok(b: SchemaBundle, path: Seq<usize>) -> bool {
    let es = b.schemas.entries@;
    &&& forall|t: int| 0 <= t < path.len() ==> is_first(es, #[trigger] path[t] as int)
    &&& forall|t: int|
        0 <= t < path.len() - 1 ==> refers(b, es[#[trigger] path[t] as int].0@, es[path[t + 1] as int].0@)
}

/// Whether position `k` is on the path.
pub open spec fn on_path(path: Seq<usize>, k: int) -> bool {
    exists|t: int| 0 <= t < path.len() && #[trigger] path[t] as int == k
}

/// Whether the grey positions are exactly those on the path, and every
/// colour is white (0), grey (1) or black (2).
pub open spec fn colours_ok(colors: Seq<u8>, path: Seq<usize>) -> bool {
    &&& forall|k: int| 0 <= k < colors.len() ==> #[trigger] colors[k] <= 2
    &&& forall|k: int| 0 <= k < colors.len() ==> (#[trigger] colors[k] == 1 <==> on_path(path, k))
    &&& forall|t: int| 0 <= t < path.len() ==> (#[trigger] path[t]) < colors.len()
}

/// Whether every black position's references lead to black positions that
/// finished earlier.
pub open spec fn closed(adj: Seq<Vec<usize>>, colors: Seq<u8>, fin: Seq<nat>) -> bool {
    forall|u: int, m: int|
        0 <= u < adj.len() && 0 <= m < adj[u]@.len() && colors[u] == 2 ==> colors[#[trigger] adj[u]@[m] as int] == 2
            && fin[adj[u]@[m] as int] < fin[u]
}

/// Whether `adj` lists, for each first position, every first position of a
/// name its schema refers to.
pub open spec fn adjacency_complete(b: SchemaBundle, adj: Seq<Vec<usize>>) -> bool {
    let es = b.schemas.entries@;
    forall|i: int, name: Seq<char>|
        #![trigger refs_of(es[i].1).contains(name), find_key(es, name)]
        0 <= i < adj.len() && is_first(es, i) && refs_of(es[i].1).contains(name) && find_key(
            es,
            name,
        ) is Some ==> adj[i]@.contains(find_key(es, name)->Some_0 as usize)
}

/// Whether the bundle has a reference cycle.
pub open spec fn has_cycle(b: SchemaBundle) -> bool {
    exists|c: Seq<Seq<char>>| #[trigger] is_cycle(b, c)
}

/// For each name in order that is a key of the entries, its first
/// position.
pub open spec fn adj_row(es: Seq<(String, Schema)>, names: Seq<Seq<char>>) -> Seq<usize>
    decreases names.len(),
{
    if names.len() == 0 {
        Seq::empty()
    } else {
        let r = adj_row(es, names.drop_last());
        match find_key(es, names.last()) {
            Some(j) => r.push(j as usize),
            None => r,
        }
    }
}

/// For each position, the first positions of the names its schema refers
/// to, in the order a traversal meets them.
pub open spec fn adj_spec(es: Seq<(String, Schema)>) -> Seq<Seq<usize>> {
    Seq::new(es.len(), |i: int| adj_row(es, refs_of(es[i].1)))
}

/// The contents of the adjacency rows.
pub open spec fn rows(adj: Seq<Vec<usize>>) -> Seq<Seq<usize>> {
    adj.map_values(|v: Vec<usize>| v@)
}

/// The first index of `i` in the path (its length when absent).
pub open spec fn first_pos(path: Seq<usize>, i: usize) -> int
    decreases path.len(),
{
    if path.len() == 0 {
        0
    } else if path[0] == i {
        0
    } else {
        1 + first_pos(path.drop_first(), i)
    }
}

/// The names of the path from index `p` on.
pub open spec fn cycle_from(es: Seq<(String, Schema)>, path: Seq<usize>, p: int) -> Seq<Seq<char>> {
    path.subrange(p, path.len() as int).map_values(|x: usize| es[x as int].0@)
}

/// The state of the search: the colour of each position (white 0, grey 1,
/// black 2), the path of grey positions, and the cycles found so far.
pub type DfsState = (Seq<u8>, Seq<usize>, Seq<Seq<Seq<char>>>);

/// Visiting position `i`: a grey position closes the cycle of the path from
/// its index; a white one turns grey, joins the path, has the positions its
/// schema refers to visited in order, then leaves the path and turns black;
/// a black one is passed over.
#[verifier::opaque]
pub open spec fn visit_spec(
    es: Seq<(String, Schema)>,
    adj: Seq<Seq<usize>>,
    i: usize,
    st: DfsState,
) -> DfsState
    decreases count_white(st.0), 0nat,
{
    if i >= st.0.len() {
        st
    } else if st.0[i as int] == 1 {
        let p = first_pos(st.1, i);
        if p < st.1.len() {
            (st.0, st.1, st.2.push(cycle_from(es, st.1, p)))
        } else {
            st
        }
    } else if st.0[i as int] != 0 {
        st
    } else {
        let c1 = st.0.update(i as int, 1u8);
        proof {
            lemma_count_white_paint(st.0, i as int, 1u8);
        }
        let st2 = children_spec(es, adj, i, 0, (c1, st.1.push(i), st.2), count_white(c1));
        (st2.0.update(i as int, 2u8), st2.1.drop_last(), st2.2)
    }
}

/// Visiting the positions that position `i` refers to, from the `k`-th on;
/// `bound` bounds the white positions left.
#[verifier::opaque]
pub open spec fn children_spec(
    es: Seq<(String, Schema)>,
    adj: Seq<Seq<usize>>,
    i: usize,
    k: nat,
    st: DfsState,
    bound: nat,
) -> DfsState
    decreases bound, (if i < adj.len() && k <= adj[i as int].len() {
        adj[i as int].len() - k + 1
    } else {
        0
    }),
{
    if i >= adj.len() || k >= adj[i as int].len() || count_white(st.0) > bound {
        st
    } else {
        let st1 = visit_spec(es, adj, adj[i as int][k as int], st);
        children_spec(es, adj, i, k + 1, st1, bound)
    }
}

/// The search from the `k`-th name on: each name's first position is
/// visited in turn.
pub open spec fn search_from(
    es: Seq<(String, Schema)>,
    adj: Seq<Seq<usize>>,
    k: nat,
    st: DfsState,
) -> DfsState
    decreases es.len() - k,
{
    if k >= es.len() {
        st
    } else {
        let st1 = match find_key(es, es[k as int].0@) {
            Some(f) => visit_spec(es, adj, f as usize, st),
            None => st,
        };
        search_from(es, adj, k + 1, st1)
    }
}

/// The cycles the depth-first search of the bundle reports, in the order
/// found: the names are visited in order, each white one's references in
/// the order a traversal meets them, and each reference to a grey name
/// reports the path from that name on.
pub open spec fn found_cycles(b: SchemaBundle) -> Seq<Seq<Seq<char>>> {
    let es = b.schemas.entries@;
    search_from(es, adj_spec(es), 0, (Seq::new(es.len(), |k: int| 0u8), Seq::empty(), Seq::empty())).2
}

proof fn lemma_first_pos(path: Seq<usize>, i: usize, p: int)
    requires
        0 <= p < path.len(),
        path[p] == i,
        forall|q: int| 0 <= q < p ==> path[q] != i,
    ensures
        first_pos(path, i) == p,
    decreases p,
{
    if p > 0 {
        assert forall|q: int| 0 <= q < p - 1 implies path.drop_first()[q] != i by {
            assert(path.drop_first()[q] == path[q + 1]);
        }
        lemma_first_pos(path.drop_first(), i, p - 1);
    }
}

/// The names of distinct first positions are distinct.
proof fn lemma_cycle_names_distinct(es: Seq<(String, Schema)>, path: Seq<usize>, p: int)
    requires
        0 <= p <= path.len(),
        path.no_duplicates(),
        forall|t: int| 0 <= t < path.len() ==> is_first(es, #[trigger] path[t] as int),
    ensures
        cycle_from(es, path, p).no_duplicates(),
{
    let c = cycle_from(es, path, p);
    assert forall|x: int, y: int| 0 <= x < c.len() && 0 <= y < c.len() && x != y implies c[x]
        != c[y] by {
        let u = path[p + x] as int;
        let v = path[p + y] as int;
        assert(is_first(es, u) && is_first(es, v));
        assert(path[p + x] != path[p + y]);
        if c[x] == c[y] {
            assert(es[u].0@ == es[v].0@);
            assert(find_key(es, es[u].0@) == Some(u));
            assert(find_key(es, es[v].0@) == Some(v));
        }
    }
}

proof fn lemma_children_step(
    es: Seq<(String, Schema)>,
    adj: Seq<Seq<usize>>,
    i: usize,
    k: nat,
    st: DfsState,
    bound: nat,
)
    requires
        i < adj.len(),
        k < adj[i as int].len(),
        count_white(st.0) <= bound,
    ensures
        children_spec(es, adj, i, k, st, bound) == children_spec(
            es,
            adj,
            i,
            k + 1,
            visit_spec(es, adj, adj[i as int][k as int], st),
            bound,
        ),
{
    reveal(children_spec);
    reveal(visit_spec);
}

proof fn lemma_children_done(
    es: Seq<(String, Schema)>,
    adj: Seq<Seq<usize>>,
    i: usize,
    k: nat,
    st: DfsState,
    bound: nat,
)
    requires
        i < adj.len(),
        k >= adj[i as int].len(),
    ensures
        children_spec(es, adj, i, k, st, bound) == st,
{
    reveal(children_spec);
}

proof fn lemma_visit_black(es: Seq<(String, Schema)>, adj: Seq<Seq<usize>>, i: usize, st: DfsState)
    requires
        i < st.0.len(),
        st.0[i as int] != 0,
        st.0[i as int] != 1,
    ensures
        visit_spec(es, adj, i, st) == st,
{
    reveal(visit_spec);
}

proof fn lemma_visit_grey(es: Seq<(String, Schema)>, adj: Seq<Seq<usize>>, i: usize, st: DfsState)
    requires
        i < st.0.len(),
        st.0[i as int] == 1,
    ensures
        visit_spec(es, adj, i, st) == (if first_pos(st.1, i) < st.1.len() {
            (st.0, st.1, st.2.push(cycle_from(es, st.1, first_pos(st.1, i))))
        } else {
            st
        }),
{
    reveal(visit_spec);
}

proof fn lemma_visit_white(es: Seq<(String, Schema)>, adj: Seq<Seq<usize>>, i: usize, st: DfsState)
    requires
        i < st.0.len(),
        st.0[i as int] == 0,
    ensures
        ({
            let c1 = st.0.update(i as int, 1u8);
            let st2 = children_spec(es, adj, i, 0, (c1, st.1.push(i), st.2), count_white(c1));
            visit_spec(es, adj, i, st) == (st2.0.update(i as int, 2u8), st2.1.drop_last(), st2.2)
        }),
{
    reveal(visit_spec);
    reveal(children_spec);
}

/// Whether no reported cycle repeats a name.
pub open spec fn simple_cycles(cs: Seq<Seq<Seq<char>>>) -> bool {
    forall|k: int| 0 <= k < cs.len() ==> (#[trigger] cs[k]).no_duplicates()
}

/// Visits position `i`: a grey name closes a cycle with the path; a white
/// one turns grey, its references are visited, and it turns black. `fin`
/// and `clock` record, as ghosts, the order in which positions turned
/// black.
fn visit(
    b: &SchemaBundle,
    adj: &Vec<Vec<usize>>,
    i: usize,
    colors: &mut Vec<u8>,
    path: &mut Vec<usize>,
    cycles: &mut Vec<Vec<String>>,
    Ghost(fin): Ghost<Seq<nat>>,
    Ghost(clock): Ghost<nat>,
) -> (out: Ghost<(Seq<nat>, nat)>)
    requires
        adjacency_ok(*b, adj@),
        is_first(b.schemas.entries@, i as int),
        old(colors)@.len() == b.schemas.entries@.len(),
        fin.len() == b.schemas.entries@.len(),
        path_ok(*b, old(path)@),
        old(path)@.len() > 0 ==> refers(
            *b,
            b.schemas.entries@[old(path)@.last() as int].0@,
            b.schemas.entries@[i as int].0@,
        ),
        all_cycles(*b, cycle_views(old(cycles)@)),
        colours_ok(old(colors)@, old(path)@),
        forall|k: int| 0 <= k < fin.len() && old(colors)@[k] == 2 ==> #[trigger] fin[k] < clock,
        old(cycles)@.len() == 0 ==> closed(adj@, old(colors)@, fin),
        old(path)@.no_duplicates(),
        simple_cycles(cycle_views(old(cycles)@)),
    ensures
        final(path)@ == old(path)@,
        final(colors)@.len() == old(colors)@.len(),
        forall|k: int|
            0 <= k < old(colors)@.len() && old(colors)@[k] != 0 ==> #[trigger] final(colors)@[k]
                != 0,
        forall|k: int|
            0 <= k < old(colors)@.len() && old(colors)@[k] == 2 ==> #[trigger] final(colors)@[k]
                == 2 && out@.0[k] == fin[k],
        out@.0.len() == fin.len(),
        out@.1 >= clock,
        forall|k: int|
            0 <= k < fin.len() && final(colors)@[k] == 2 ==> #[trigger] out@.0[k] < out@.1,
        colours_ok(final(colors)@, final(path)@),
        final(cycles)@.len() >= old(cycles)@.len(),
        all_cycles(*b, cycle_views(final(cycles)@)),
        final(cycles)@.len() == 0 ==> closed(adj@, final(colors)@, out@.0) && final(colors)@[i as int]
            == 2,
        simple_cycles(cycle_views(final(cycles)@)),
        (final(colors)@, final(path)@, cycle_views(final(cycles)@)) == visit_spec(
            b.schemas.entries@,
            rows(adj@),
            i,
            (old(colors)@, old(path)@, cycle_views(old(cycles)@)),
        ),
    decreases count_white(old(colors)@),
{
    let ghost es = b.schemas.entries@;
    let c = colors[i];
    if c != 0 && c != 1 {
        proof {
            lemma_visit_black(es, rows(adj@), i, (colors@, path@, cycle_views(cycles@)));
        }
        return Ghost((fin, clock));
    }
    if c == 1 {
        let mut p: usize = 0;
        while p < path.len() && path[p] != i
            invariant
                p <= path@.len(),
                forall|q: int| 0 <= q < p ==> path@[q] != i,
            decreases path@.len() - p,
        {
            p = p + 1;
        }
        assert(on_path(path@, i as int));
        if p < path.len() {
            let mut cycle: Vec<String> = Vec::new();
            let mut t = p;
            while t < path.len()
                invariant
                    p <= t <= path@.len(),
                    path@ == old(path)@,
                    es == b.schemas.entries@,
                    path_ok(*b, path@),
                    views(cycle@).len() == t - p,
                    forall|q: int|
                        0 <= q < t - p ==> #[trigger] views(cycle@)[q] == es[path@[p + q] as int].0@,
                decreases path@.len() - t,
            {
                let ghost before = cycle@;
                let x = path[t];
                assert(is_first(es, x as int));
                cycle.push(b.schemas.entries[x].0.clone());
                assert(views(cycle@) =~= views(before).push(es[x as int].0@));
                t = t + 1;
            }
            let ghost cv = views(cycle@);
            let ghost before_cycles = cycle_views(cycles@);
            assert(is_cycle(*b, cv)) by {
                assert(cv[0] == es[i as int].0@);
                assert forall|k: int| 0 <= k < cv.len() - 1 implies refers(
                    *b,
                    #[trigger] cv[k],
                    cv[k + 1],
                ) by {
                    assert(cv[k] == es[path@[p + k] as int].0@);
                    assert(cv[k + 1] == es[path@[p + k + 1] as int].0@);
                }
                assert(cv.last() == es[path@.last() as int].0@);
            }
            proof {
                lemma_visit_grey(es, rows(adj@), i, (colors@, path@, cycle_views(cycles@)));
                lemma_first_pos(path@, i, p as int);
                assert(cv =~= cycle_from(es, path@, p as int));
                lemma_cycle_names_distinct(es, path@, p as int);
            }
            cycles.push(cycle);
            assert(cycle_views(cycles@) =~= before_cycles.push(cv));
        }
        return Ghost((fin, clock));
    }
    proof {
        lemma_count_white_paint(colors@, i as int, 1u8);
    }
    let ghost start_colors = colors@;
    assert(!on_path(path@, i as int));
    colors.set(i, 1);
    path.push(i);
    let ghost bound = count_white(colors@);
    let ghost st_start: DfsState = (colors@, path@, cycle_views(cycles@));
    assert(path@.no_duplicates()) by {
        assert forall|x: int, y: int| 0 <= x < path@.len() && 0 <= y < path@.len() && x != y
            implies path@[x] != path@[y] by {
            if x < old(path)@.len() && y < old(path)@.len() {
                assert(path@[x] == old(path)@[x] && path@[y] == old(path)@[y]);
            } else if x < old(path)@.len() {
                assert(path@[x] == old(path)@[x]);
                assert(old(path)@[x] as int != i as int);
            } else if y < old(path)@.len() {
                assert(path@[y] == old(path)@[y]);
                assert(old(path)@[y] as int != i as int);
            }
        }
    }
    assert forall|t: int| 0 <= t < path@.len() - 1 implies refers(
        *b,
        es[#[trigger] path@[t] as int].0@,
        es[path@[t + 1] as int].0@,
    ) by {
        if t < old(path)@.len() - 1 {
            assert(path@[t] == old(path)@[t] && path@[t + 1] == old(path)@[t + 1]);
        } else {
            assert(path@[t] == old(path)@.last());
        }
    }
    assert forall|k: int| 0 <= k < colors@.len() implies (#[trigger] colors@[k] == 1 <==> on_path(
        path@,
        k,
    )) by {
        if k == i {
            assert(path@[path@.len() - 1] as int == i);
        } else {
            assert(colors@[k] == start_colors[k]);
            if on_path(path@, k) {
                let t = choose|t: int| 0 <= t < path@.len() && #[trigger] path@[t] as int == k;
                if t < old(path)@.len() {
                    assert(old(path)@[t] == path@[t]);
                } else {
                    assert(path@[t] == i);
                }
            }
            if on_path(old(path)@, k) {
                let t = choose|t: int| 0 <= t < old(path)@.len() && #[trigger] old(path)@[t] as int == k;
                assert(path@[t] == old(path)@[t]);
            }
        }
    }
    assert forall|t: int| 0 <= t < path@.len() implies (#[trigger] path@[t]) < colors@.len() by {
        if t < old(path)@.len() {
            assert(path@[t] == old(path)@[t]);
        }
    }
    let ghost mut fin_cur = fin;
    let ghost mut clock_cur = clock;
    let mut k: usize = 0;
    while k < adj[i].len()
        invariant
            k <= adj@[i as int]@.len(),
            es == b.schemas.entries@,
            adjacency_ok(*b, adj@),
            is_first(es, i as int),
            path@ == old(path)@.push(i),
            path_ok(*b, path@),
            colors@.len() == old(colors)@.len(),
            old(colors)@.len() == es.len(),
            fin.len() == es.len(),
            fin_cur.len() == es.len(),
            count_white(colors@) < count_white(old(colors)@),
            old(colors)@[i as int] == 0,
            forall|q: int|
                0 <= q < old(colors)@.len() && old(colors)@[q] != 0 ==> #[trigger] colors@[q]
                    != 0,
            forall|q: int|
                0 <= q < old(colors)@.len() && old(colors)@[q] == 2 ==> #[trigger] colors@[q] == 2
                    && fin_cur[q] == fin[q],
            clock_cur >= clock,
            forall|q: int| 0 <= q < fin_cur.len() && colors@[q] == 2 ==> #[trigger] fin_cur[q] < clock_cur,
            colours_ok(colors@, path@),
            cycles@.len() >= old(cycles)@.len(),
            all_cycles(*b, cycle_views(cycles@)),
            cycles@.len() == 0 ==> closed(adj@, colors@, fin_cur),
            cycles@.len() == 0 ==> forall|m: int|
                0 <= m < k ==> colors@[#[trigger] adj@[i as int]@[m] as int] == 2
                    && fin_cur[adj@[i as int]@[m] as int] < clock_cur,
            path@.no_duplicates(),
            simple_cycles(cycle_views(cycles@)),
            bound + 1 == count_white(old(colors)@),
            children_spec(es, rows(adj@), i, 0, st_start, bound) == children_spec(
                es,
                rows(adj@),
                i,
                k as nat,
                (colors@, path@, cycle_views(cycles@)),
                bound,
            ),
        decreases adj@[i as int]@.len() - k,
    {
        let j = adj[i][k];
        assert(is_first(es, j as int) && refers(*b, es[i as int].0@, es[j as int].0@));
        let ghost before = colors@;
        let ghost fin_before = fin_cur;
        let ghost clock_before = clock_cur;
        let ghost prev: DfsState = (colors@, path@, cycle_views(cycles@));
        proof {
            assert(rows(adj@)[i as int][k as int] == j);
            lemma_children_step(es, rows(adj@), i, k as nat, prev, bound);
        }
        let g = visit(b, adj, j, colors, path, cycles, Ghost(fin_cur), Ghost(clock_cur));
        proof {
            fin_cur = g@.0;
            clock_cur = g@.1;
            lemma_count_white_mono(before, colors@);
        }
        k = k + 1;
    }
    let ghost mid_path = path@;
    path.pop();
    assert(path@ =~= old(path)@);
    let ghost mid = colors@;
    colors.set(i, 2);
    let ghost fin_out = fin_cur.update(i as int, clock_cur);
    let ghost clock_out = clock_cur + 1;
    assert forall|q: int| 0 <= q < colors@.len() implies (#[trigger] colors@[q] == 1 <==> on_path(
        path@,
        q,
    )) by {
        if q != i {
            assert(colors@[q] == mid[q]);
            let longer = old(path)@.push(i);
            if on_path(path@, q) {
                let t = choose|t: int| 0 <= t < path@.len() && #[trigger] path@[t] as int == q;
                assert(longer[t] == path@[t]);
            }
            if on_path(longer, q) {
                let t = choose|t: int| 0 <= t < longer.len() && #[trigger] longer[t] as int == q;
                if t < old(path)@.len() {
                    assert(path@[t] == longer[t]);
                } else {
                    assert(longer[t] == i);
                }
            }
        } else {
            assert(!on_path(old(path)@, i as int));
        }
    }
    assert(colours_ok(colors@, path@));
    if cycles.len() == 0 {
        assert forall|u: int, m: int|
            0 <= u < adj@.len() && 0 <= m < adj@[u]@.len() && colors@[u] == 2 implies colors@[
            #[trigger] adj@[u]@[m] as int] == 2 && fin_out[adj@[u]@[m] as int] < fin_out[u] by {
            let w = adj@[u]@[m] as int;
            if u == i {
                assert(mid[w] == 2 && fin_cur[w] < clock_cur);
                assert(w != i);
            } else {
                assert(mid[u] == 2);
                assert(mid[w] == 2 && fin_cur[w] < fin_cur[u]);
                if w == i {
                    assert(mid[i as int] == 1);
                }
            }
        }
    }
    proof {
        lemma_children_done(es, rows(adj@), i, adj@[i as int]@.len() as nat, (mid, mid_path, cycle_views(cycles@)), bound);
        lemma_visit_white(es, rows(adj@), i, (old(colors)@, old(path)@, cycle_views(old(cycles)@)));
        assert(st_start == (old(colors)@.update(i as int, 1u8), old(path)@.push(i), cycle_views(old(cycles)@)));
        assert(path@ =~= mid_path.drop_last());
    }
    Ghost((fin_out, clock_out))
}

impl SchemaBundle {
    /// Detect reference cycles among the named schemas, by a depth-first
    /// search in the order of the names: the result is exactly the list of
    /// cycles that search reports (`found_cycles`), in the order found. Every
    /// list returned is a cycle, each name referring to the next and the last
    /// to the first, and repeats no name; and when the references have a
    /// cycle, at least one is returned.
    pub fn detect_cycles(&self) -> (r: Vec<Vec<String>>)
        ensures
            cycle_views(r@) == found_cycles(*self),
            all_cycles(*self, cycle_views(r@)),
            simple_cycles(cycle_views(r@)),
            has_cycle(*self) ==> r@.len() > 0,
    {
        let ghost es = self.schemas.entries@;
        let n = self.schemas.entries.len();
        let mut adj: Vec<Vec<usize>> = Vec::new();
        let mut i: usize = 0;
        while i < n
            invariant
                i <= n,
                n == es.len(),
                es == self.schemas.entries@,
                adj@.len() == i,
                forall|a: int, k: int|
                    0 <= a < i && 0 <= k < adj@[a]@.len() ==> is_first(
                        es,
                        #[trigger] adj@[a]@[k] as int,
                    ) && (is_first(es, a) ==> refers(*self, es[a].0@, es[adj@[a]@[k] as int].0@)),
                forall|a: int, name: Seq<char>|
                    #![trigger refs_of(es[a].1).contains(name), find_key(es, name)]
                    0 <= a < i && is_first(es, a) && refs_of(es[a].1).contains(name) && find_key(
                        es,
                        name,
                    ) is Some ==> adj@[a]@.contains(find_key(es, name)->Some_0 as usize),
                forall|a: int| 0 <= a < i ==> (#[trigger] adj@[a])@ == adj_row(es, refs_of(es[a].1)),
            decreases n - i,
        {
            let mut names: Vec<String> = Vec::new();
            collect_refs(&self.schemas.entries[i].1, &mut names);
            assert(views(names@) =~= refs_of(es[i as int].1));
            let mut row: Vec<usize> = Vec::new();
            let mut m: usize = 0;
            while m < names.len()
                invariant
                    m <= names@.len(),
                    i < n,
                    n == es.len(),
                    es == self.schemas.entries@,
                    views(names@) == refs_of(es[i as int].1),
                    forall|k: int|
                        0 <= k < row@.len() ==> is_first(es, #[trigger] row@[k] as int) && (
                        is_first(es, i as int) ==> refers(*self, es[i as int].0@, es[row@[k] as int].0@)),
                    forall|q: int|
                        0 <= q < m && find_key(es, #[trigger] views(names@)[q]) is Some
                            ==> row@.contains(find_key(es, views(names@)[q])->Some_0 as usize),
                    row@ == adj_row(es, views(names@).take(m as int)),
                decreases names@.len() - m,
            {
                let ghost before = row@;
                assert(views(names@).take(m as int + 1).drop_last() =~= views(names@).take(m as int));
                assert(views(names@)[m as int] == names@[m as int]@);
                match self.schemas.index_of(names[m].as_str()) {
                    Some(j) => {
                        proof {
                            lemma_find_key(es, names@[m as int]@);
                            assert(es[j as int].0@ == names@[m as int]@);
                            assert(views(names@)[m as int] == names@[m as int]@);
                            assert(refs_of(es[i as int].1).contains(es[j as int].0@));
                        }
                        row.push(j);
                        assert forall|q: int|
                            0 <= q < m + 1 && find_key(es, #[trigger] views(names@)[q]) is Some
                                implies row@.contains(find_key(es, views(names@)[q])->Some_0 as usize) by {
                            if q < m {
                                let t = choose|t: int| 0 <= t < before.len() && before[t] == find_key(
                                    es,
                                    views(names@)[q],
                                )->Some_0 as usize;
                                assert(row@[t] == before[t]);
                            } else {
                                assert(row@[row@.len() - 1] == j);
                            }
                        }
                    },
                    None => {},
                }
                m = m + 1;
            }
            assert forall|name: Seq<char>|
                #![trigger refs_of(es[i as int].1).contains(name), find_key(es, name)]
                is_first(es, i as int) && refs_of(es[i as int].1).contains(name) && find_key(es, name)
                    is Some implies row@.contains(find_key(es, name)->Some_0 as usize) by {
                let q = choose|q: int| 0 <= q < views(names@).len() && views(names@)[q] == name;
            }
            assert(views(names@).take(names@.len() as int) =~= views(names@));
            let ghost before_adj = adj@;
            adj.push(row);
            assert forall|a: int, name: Seq<char>|
                #![trigger refs_of(es[a].1).contains(name), find_key(es, name)]
                0 <= a < i + 1 && is_first(es, a) && refs_of(es[a].1).contains(name) && find_key(
                    es,
                    name,
                ) is Some implies adj@[a]@.contains(find_key(es, name)->Some_0 as usize) by {
                if a < i {
                    assert(adj@[a] == before_adj[a]);
                }
            }
            assert forall|a: int| 0 <= a < i + 1 implies (#[trigger] adj@[a])@ == adj_row(
                es,
                refs_of(es[a].1),
            ) by {
                if a < i {
                    assert(adj@[a] == before_adj[a]);
                }
            }
            i = i + 1;
        }
        assert(rows(adj@) =~= adj_spec(es));
        let mut colors: Vec<u8> = Vec::new();
        let mut i: usize = 0;
        while i < n
            invariant
                i <= n,
                colors@.len() == i,
                forall|k: int| 0 <= k < i ==> #[trigger] colors@[k] == 0,
            decreases n - i,
        {
            colors.push(0);
            i = i + 1;
        }
        let mut path: Vec<usize> = Vec::new();
        let mut cycles: Vec<Vec<String>> = Vec::new();
        let ghost init: DfsState = (colors@, path@, cycle_views(cycles@));
        assert(colors@ =~= Seq::new(es.len(), |k: int| 0u8));
        assert(path@ =~= Seq::<usize>::empty());
        assert(cycle_views(cycles@) =~= Seq::<Seq<Seq<char>>>::empty());
        let ghost mut fin: Seq<nat> = Seq::new(n as nat, |k: int| 0nat);
        let ghost mut clock: nat = 0;
        let mut i: usize = 0;
        while i < n
            invariant
                i <= n,
                n == es.len(),
                es == self.schemas.entries@,
                adjacency_ok(*self, adj@),
                adjacency_complete(*self, adj@),
                colors@.len() == n,
                fin.len() == n,
                path@.len() == 0,
                colours_ok(colors@, path@),
                forall|k: int| 0 <= k < n && colors@[k] == 2 ==> #[trigger] fin[k] < clock,
                all_cycles(*self, cycle_views(cycles@)),
                cycles@.len() == 0 ==> closed(adj@, colors@, fin),
                cycles@.len() == 0 ==> forall|k: int|
                    0 <= k < i && is_first(es, k) ==> #[trigger] colors@[k] == 2,
                rows(adj@) == adj_spec(es),
                simple_cycles(cycle_views(cycles@)),
                found_cycles(*self) == search_from(es, adj_spec(es), i as nat, (
                    colors@,
                    path@,
                    cycle_views(cycles@),
                )).2,
            decreases n - i,
        {
            let ghost prev: DfsState = (colors@, path@, cycle_views(cycles@));
            match self.schemas.index_of(self.schemas.entries[i].0.as_str()) {
                Some(f) => {
                    proof {
                        lemma_find_key(es, es[i as int].0@);
                    }
                    let ghost before = colors@;
                    let g = visit(
                        self,
                        &adj,
                        f,
                        &mut colors,
                        &mut path,
                        &mut cycles,
                        Ghost(fin),
                        Ghost(clock),
                    );
                    proof {
                        fin = g@.0;
                        clock = g@.1;
                        if is_first(es, i as int) {
                            assert(f == i);
                        }
                    }
                },
                None => {
                    proof {
                        lemma_find_key(es, es[i as int].0@);
                    }
                },
            }
            i = i + 1;
        }
        proof {
            if has_cycle(*self) && cycles@.len() == 0 {
                let c = choose|c: Seq<Seq<char>>| #[trigger] is_cycle(*self, c);
                lemma_no_cycle_when_closed(*self, adj@, colors@, fin, c);
                assert(false);
            }
        }
        cycles
    }
}

/// A cycle's names resolve to first positions linked by the adjacency.
proof fn lemma_cycle_positions(b: SchemaBundle, adj: Seq<Vec<usize>>, c: Seq<Seq<char>>, k: int)
    requires
        is_cycle(b, c),
        0 <= k < c.len(),
        b.schemas.entries@.len() <= usize::MAX,
        adjacency_complete(b, adj),
        adj.len() == b.schemas.entries@.len(),
    ensures
        find_key(b.schemas.entries@, c[k]) is Some,
        is_first(b.schemas.entries@, find_key(b.schemas.entries@, c[k])->Some_0),
        ({
            let next = if k + 1 < c.len() {
                c[k + 1]
            } else {
                c[0]
            };
            let f = find_key(b.schemas.entries@, c[k])->Some_0;
            find_key(b.schemas.entries@, next) is Some && adj[f]@.contains(
                find_key(b.schemas.entries@, next)->Some_0 as usize,
            )
        }),
{
    let es = b.schemas.entries@;
    let next = if k + 1 < c.len() {
        c[k + 1]
    } else {
        c[0]
    };
    let nk = if k + 1 < c.len() {
        k + 1
    } else {
        0
    };
    assert(refers(b, c[k], next)) by {
        if k + 1 < c.len() {
        } else {
            assert(c[k] == c.last());
        }
    }
    let nnext = if nk + 1 < c.len() {
        c[nk + 1]
    } else {
        c[0]
    };
    assert(refers(b, c[nk], nnext)) by {
        if nk + 1 < c.len() {
        } else {
            assert(c[nk] == c.last());
        }
    }
    lemma_find_key(es, c[k]);
    lemma_find_key(es, next);
    let f = find_key(es, c[k])->Some_0;
    assert(es[f].0@ == c[k]);
    assert(refs_of(es[f].1).contains(next));
}

/// With every first position black and the colouring closed, finishing
/// order strictly decreases along references, so no cycle exists.
proof fn lemma_no_cycle_when_closed(
    b: SchemaBundle,
    adj: Seq<Vec<usize>>,
    colors: Seq<u8>,
    fin: Seq<nat>,
    c: Seq<Seq<char>>,
)
    requires
        adj.len() == b.schemas.entries@.len(),
        b.schemas.entries@.len() <= usize::MAX,
        colors.len() == b.schemas.entries@.len(),
        adjacency_complete(b, adj),
        closed(adj, colors, fin),
        forall|k: int|
            0 <= k < b.schemas.entries@.len() && is_first(b.schemas.entries@, k) ==> #[trigger] colors[k]
                == 2,
    ensures
        !is_cycle(b, c),
{
    if !is_cycle(b, c) {
        return;
    }
    let es = b.schemas.entries@;
    let pos = |k: int| find_key(es, c[k])->Some_0;
    let f = |k: int| fin[pos(k)] as int;
    let len = c.len() as int;
    // Along the cycle, finishing order strictly decreases.
    assert forall|k: int| 0 <= k < len implies f(if k + 1 < len { k + 1 } else { 0 }) < #[trigger] f(
        k,
    ) by {
        lemma_cycle_positions(b, adj, c, k);
        let next = if k + 1 < len {
            k + 1
        } else {
            0
        };
        let p = pos(k);
        let q = pos(next);
        assert(c[next] == (if k + 1 < c.len() {
            c[k + 1]
        } else {
            c[0]
        }));
        assert(adj[p]@.contains(q as usize));
        lemma_find_key(es, c[next]);
        let m = choose|m: int| 0 <= m < adj[p]@.len() && adj[p]@[m] == q as usize;
        assert(0 <= q < es.len());
        assert(adj[p]@[m] as int == q);
        assert(colors[p] == 2);
        assert(colors[adj[p]@[m] as int] == 2 && fin[adj[p]@[m] as int] < fin[p]);
    }
    lemma_decreasing_around(len, f);
}

/// A function on `0 .. len` cannot strictly decrease at every step around
/// the circle.
proof fn lemma_decreasing_around(len: int, f: spec_fn(int) -> int)
    requires
        len > 0,
    ensures
        !(forall|k: int| 0 <= k < len ==> f(if k + 1 < len { k + 1 } else { 0 }) < #[trigger] f(k)),
{
    if forall|k: int| 0 <= k < len ==> f(if k + 1 < len { k + 1 } else { 0 }) < #[trigger] f(k) {
        assert forall|k: int| 1 <= k < len implies #[trigger] f(k) < f(0) by {
            lemma_decreasing_prefix(len, f, k);
        }
        assert(f(if len - 1 + 1 < len { len } else { 0 }) < f(len - 1));
        if len == 1 {
            assert(f(if 0 + 1 < len { 1 } else { 0 }) < f(0));
        }
    }
}

proof fn lemma_decreasing_prefix(len: int, f: spec_fn(int) -> int, k: int)
    requires
        1 <= k < len,
        forall|j: int| 0 <= j < len ==> f(if j + 1 < len { j + 1 } else { 0 }) < #[trigger] f(j),
    ensures
        f(k) < f(0),
    decreases k,
{
    assert(f(if k - 1 + 1 < len { k } else { 0 }) < f(k - 1));
    if k > 1 {
        lemma_decreasing_prefix(len, f, k - 1);
    }
}

} // verus!
