//! Validation reads schemas only through their content: bundles and schemas
//! whose names and schema contents agree give the same errors.
use crate::ir::{
    bundle_entries, opt_chars, lemma_entries_view, lemma_variants_view, map_entries, policy_view,
    scalar_view, schema_view, variant_entries, AdditionalPolicy, OneOfVariant, ScalarKind, Schema,
    SchemaBundle,
};
use crate::diagnostics::ValidationMode;
use crate::ordered_map::{find_key, keys_of, lemma_find_key, lookup};
use crate::rules::{
    budget, check, check_additional, check_enum, check_items, check_optional, check_required,
    check_scalar, check_values, has_required_keys, matching_variants, variant_skipped,
};
use crate::text::{decimal, views};
use crate::validator::validate_spec;
use crate::value::Value;
use vstd::prelude::*;

verus! {

/// Two bundles whose entries have the same names and schema contents, in
/// the same order.
pub open spec fn same_content(b1: SchemaBundle, b2: SchemaBundle) -> bool {
    bundle_entries(b1.schemas.entries@) == bundle_entries(b2.schemas.entries@)
}

proof fn lemma_find_key_same_keys<V, W>(es1: Seq<(String, V)>, es2: Seq<(String, W)>, k: Seq<char>)
    requires
        es1.len() == es2.len(),
        forall|i: int| 0 <= i < es1.len() ==> #[trigger] es1[i].0@ == es2[i].0@,
    ensures
        find_key(es1, k) == find_key(es2, k),
    decreases es1.len(),
{
    if es1.len() > 0 {
        let n = es1.len() - 1;
        assert forall|i: int| 0 <= i < n implies #[trigger] es1.drop_last()[i].0@
            == es2.drop_last()[i].0@ by {
            assert(es1[i].0@ == es2[i].0@);
        }
        lemma_find_key_same_keys(es1.drop_last(), es2.drop_last(), k);
        assert(es1[n].0@ == es2[n].0@);
    }
}

proof fn lemma_map_entries_at(es1: Seq<(String, Box<Schema>)>, es2: Seq<(String, Box<Schema>)>)
    requires
        map_entries(es1) == map_entries(es2),
    ensures
        es1.len() == es2.len(),
        forall|i: int|
            0 <= i < es1.len() ==> #[trigger] es1[i].0@ == es2[i].0@ && schema_view(*es1[i].1)
                == schema_view(*es2[i].1),
{
    assert(map_entries(es1).len() == es1.len());
    assert(map_entries(es2).len() == es2.len());
    assert forall|i: int| 0 <= i < es1.len() implies #[trigger] es1[i].0@ == es2[i].0@
        && schema_view(*es1[i].1) == schema_view(*es2[i].1) by {
        assert(map_entries(es1)[i] == map_entries(es2)[i]);
    }
}

proof fn lemma_variant_entries_at(vs1: Seq<OneOfVariant>, vs2: Seq<OneOfVariant>)
    requires
        variant_entries(vs1) == variant_entries(vs2),
    ensures
        vs1.len() == vs2.len(),
        forall|i: int|
            0 <= i < vs1.len() ==> #[trigger] vs1[i].label@ == vs2[i].label@ && schema_view(
                *vs1[i].schema,
            ) == schema_view(*vs2[i].schema),
{
    assert(variant_entries(vs1).len() == vs1.len());
    assert(variant_entries(vs2).len() == vs2.len());
    assert forall|i: int| 0 <= i < vs1.len() implies #[trigger] vs1[i].label@ == vs2[i].label@
        && schema_view(*vs1[i].schema) == schema_view(*vs2[i].schema) by {
        assert(variant_entries(vs1)[i] == variant_entries(vs2)[i]);
    }
}

proof fn lemma_bundle_at(b1: SchemaBundle, b2: SchemaBundle)
    requires
        same_content(b1, b2),
    ensures
        b1.schemas.entries@.len() == b2.schemas.entries@.len(),
        forall|i: int|
            0 <= i < b1.schemas.entries@.len() ==> #[trigger] b1.schemas.entries@[i].0@
                == b2.schemas.entries@[i].0@ && schema_view(b1.schemas.entries@[i].1)
                == schema_view(b2.schemas.entries@[i].1),
{
    let e1 = b1.schemas.entries@;
    let e2 = b2.schemas.entries@;
    assert(bundle_entries(e1).len() == bundle_entries(e2).len());
    assert forall|i: int| 0 <= i < e1.len() implies #[trigger] e1[i].0@ == e2[i].0@
        && schema_view(e1[i].1) == schema_view(e2[i].1) by {
        assert(bundle_entries(e1)[i] == bundle_entries(e2)[i]);
    }
}

proof fn lemma_entries_content(es: Seq<(String, Box<Schema>)>)
    ensures
        crate::ir::entries_view(es, es.len()) == map_entries(es),
{
    lemma_entries_view(es, es.len());
    assert(es.take(es.len() as int) =~= es);
}

proof fn lemma_variants_content(vs: Seq<OneOfVariant>)
    ensures
        crate::ir::variants_view(vs, vs.len()) == variant_entries(vs),
{
    lemma_variants_view(vs, vs.len());
    assert(vs.take(vs.len() as int) =~= vs);
}

proof fn lemma_scalar_content(
    mode: ValidationMode,
    k1: ScalarKind,
    k2: ScalarKind,
    v: Value,
    ip: Seq<Seq<char>>,
    sp: Seq<Seq<char>>,
)
    requires
        scalar_view(k1) == scalar_view(k2),
    ensures
        check_scalar(mode, k1, v, ip, sp) == check_scalar(mode, k2, v, ip, sp),
{
}

proof fn lemma_enum_content(
    x1: Seq<String>,
    x2: Seq<String>,
    v: Value,
    ip: Seq<Seq<char>>,
    sp: Seq<Seq<char>>,
)
    requires
        x1.map_values(|s: String| s@) == x2.map_values(|s: String| s@),
    ensures
        check_enum(x1, v, ip, sp) == check_enum(x2, v, ip, sp),
{
    assert(views(x1) == views(x2));
}

proof fn lemma_skipped_content(s1: Schema, s2: Schema, v: Value)
    requires
        schema_view(s1) == schema_view(s2),
    ensures
        variant_skipped(s1, v) == variant_skipped(s2, v),
{
    match s1 {
        Schema::Object { required: r1, .. } => match s2 {
            Schema::Object { required: r2, .. } => {
                let e1 = r1.entries@;
                let e2 = r2.entries@;
                lemma_entries_content(e1);
                lemma_entries_content(e2);
                lemma_map_entries_at(e1, e2);
                match v {
                    Value::Object(map) => {
                        let m = map.entries@;
                        if has_required_keys(e1, m) {
                            assert forall|i: int| 0 <= i < e2.len() implies #[trigger] find_key(
                                m,
                                e2[i].0@,
                            ) is Some by {
                                assert(e1[i].0@ == e2[i].0@);
                                assert(find_key(m, e1[i].0@) is Some);
                            }
                        }
                        if has_required_keys(e2, m) {
                            assert forall|i: int| 0 <= i < e1.len() implies #[trigger] find_key(
                                m,
                                e1[i].0@,
                            ) is Some by {
                                assert(e1[i].0@ == e2[i].0@);
                                assert(find_key(m, e2[i].0@) is Some);
                            }
                        }
                    },
                    _ => {},
                }
            },
            _ => {},
        },
        _ => {},
    }
}

/// Validation reads a bundle only through its content: two bundles whose
/// entries have the same names and schema contents in the same order, and
/// whose root names agree, report the same errors for every value, mode and
/// depth limit.
pub proof fn law_validation_reads_content(
    b1: SchemaBundle,
    b2: SchemaBundle,
    mode: ValidationMode,
    max_depth: nat,
    v: Value,
)
    requires
        same_content(b1, b2),
        opt_chars(b1.root_name) == opt_chars(b2.root_name),
    ensures
        validate_spec(b1, mode, max_depth, v) == validate_spec(b2, mode, max_depth, v),
{
    match b1.root_name {
        Some(n1) => {
            lemma_bundle_at(b1, b2);
            let e1 = b1.schemas.entries@;
            let e2 = b2.schemas.entries@;
            lemma_find_key_same_keys(e1, e2, n1@);
            lemma_find_key(e1, n1@);
            match find_key(e1, n1@) {
                Some(i) => lemma_check_content(
                    b1,
                    b2,
                    mode,
                    max_depth,
                    e1[i].1,
                    e2[i].1,
                    v,
                    Seq::empty(),
                    Seq::empty(),
                    0,
                ),
                None => {},
            }
        },
        None => {},
    }
}

/// `check` on two bundles of the same content and two schemas of the same
/// content gives the same errors.
pub proof fn lemma_check_content(
    b1: SchemaBundle,
    b2: SchemaBundle,
    mode: ValidationMode,
    max_depth: nat,
    s1: Schema,
    s2: Schema,
    v: Value,
    ip: Seq<Seq<char>>,
    sp: Seq<Seq<char>>,
    depth: nat,
)
    requires
        same_content(b1, b2),
        schema_view(s1) == schema_view(s2),
    ensures
        check(b1, mode, max_depth, s1, v, ip, sp, depth) == check(
            b2,
            mode,
            max_depth,
            s2,
            v,
            ip,
            sp,
            depth,
        ),
    decreases budget(max_depth, depth), s1, 0nat,
{
    if depth <= max_depth {
        match s1 {
            Schema::Any => {},
            Schema::Scalar(k1) => match s2 {
                Schema::Scalar(k2) => lemma_scalar_content(mode, k1, k2, v, ip, sp),
                _ => {},
            },
            Schema::Enum { values: x1 } => match s2 {
                Schema::Enum { values: x2 } => lemma_enum_content(x1@, x2@, v, ip, sp),
                _ => {},
            },
            Schema::Array { elements: e1 } => match s2 {
                Schema::Array { elements: e2 } => match v {
                    Value::Array(items) => lemma_items_content(
                        b1,
                        b2,
                        mode,
                        max_depth,
                        *e1,
                        *e2,
                        items@,
                        items@.len(),
                        ip,
                        sp,
                        depth,
                    ),
                    _ => {},
                },
                _ => {},
            },
            Schema::Object { required: r1, optional: o1, additional: a1 } => match s2 {
                Schema::Object { required: r2, optional: o2, additional: a2 } => {
                    lemma_entries_content(r1.entries@);
                    lemma_entries_content(r2.entries@);
                    lemma_entries_content(o1.entries@);
                    lemma_entries_content(o2.entries@);
                    lemma_map_entries_at(r1.entries@, r2.entries@);
                    lemma_map_entries_at(o1.entries@, o2.entries@);
                    match v {
                        Value::Object(map) => {
                            let m = map.entries@;
                            assert(decreases_to!(s1 => r1));
                            assert(decreases_to!(r1 => r1.entries));
                            assert(decreases_to!(r1.entries => r1.entries@));
                            assert(decreases_to!(s1 => o1));
                            assert(decreases_to!(o1 => o1.entries));
                            assert(decreases_to!(o1.entries => o1.entries@));
                            lemma_required_content(
                                b1,
                                b2,
                                mode,
                                max_depth,
                                r1.entries@,
                                r2.entries@,
                                r1.entries@.len(),
                                m,
                                ip,
                                sp,
                                depth,
                            );
                            lemma_optional_content(
                                b1,
                                b2,
                                mode,
                                max_depth,
                                o1.entries@,
                                o2.entries@,
                                o1.entries@.len(),
                                m,
                                ip,
                                sp,
                                depth,
                            );
                            lemma_additional_content(
                                b1,
                                b2,
                                mode,
                                max_depth,
                                a1,
                                a2,
                                r1.entries@,
                                r2.entries@,
                                o1.entries@,
                                o2.entries@,
                                m,
                                m.len(),
                                ip,
                                sp,
                                depth,
                            );
                        },
                        _ => {},
                    }
                },
                _ => {},
            },
            Schema::Values { values: x1 } => match s2 {
                Schema::Values { values: x2 } => match v {
                    Value::Object(map) => lemma_values_content(
                        b1,
                        b2,
                        mode,
                        max_depth,
                        *x1,
                        *x2,
                        map.entries@,
                        map.entries@.len(),
                        ip,
                        sp,
                        depth,
                    ),
                    _ => {},
                },
                _ => {},
            },
            Schema::DiscriminatedUnion { discriminator: d1, mapping: m1 } => match s2 {
                Schema::DiscriminatedUnion { discriminator: d2, mapping: m2 } => {
                    lemma_entries_content(m1.entries@);
                    lemma_entries_content(m2.entries@);
                    lemma_map_entries_at(m1.entries@, m2.entries@);
                    assert(keys_of(m1.entries@) =~= keys_of(m2.entries@));
                    match v {
                        Value::Object(map) => match lookup(map.entries@, d1@) {
                            Some(Value::String(tag)) => {
                                lemma_find_key_same_keys(m1.entries@, m2.entries@, tag@);
                                lemma_find_key(m1.entries@, tag@);
                                match find_key(m1.entries@, tag@) {
                                    Some(i) => {
                                        assert(decreases_to!(s1 => m1));
                                        assert(decreases_to!(m1 => m1.entries));
                                        assert(decreases_to!(m1.entries => m1.entries@));
                                        assert(decreases_to!(m1.entries@ => m1.entries@[i]));
                                        lemma_check_content(
                                            b1,
                                            b2,
                                            mode,
                                            max_depth,
                                            *m1.entries@[i].1,
                                            *m2.entries@[i].1,
                                            v,
                                            ip,
                                            sp + seq!["mapping"@, tag@],
                                            depth,
                                        );
                                    },
                                    None => {},
                                }
                            },
                            _ => {},
                        },
                        _ => {},
                    }
                },
                _ => {},
            },
            Schema::OneOf { variants: vs1 } => match s2 {
                Schema::OneOf { variants: vs2 } => {
                    lemma_variants_content(vs1@);
                    lemma_variants_content(vs2@);
                    lemma_variant_entries_at(vs1@, vs2@);
                    assert(decreases_to!(s1 => vs1));
                    assert(decreases_to!(vs1 => vs1@));
                    lemma_matching_content(
                        b1,
                        b2,
                        mode,
                        max_depth,
                        vs1@,
                        vs2@,
                        vs1@.len(),
                        v,
                        ip,
                        sp,
                        depth,
                    );
                    assert(vs1@.map_values(|x: OneOfVariant| x.label@) =~= vs2@.map_values(
                        |x: OneOfVariant| x.label@,
                    ));
                },
                _ => {},
            },
            Schema::Ref { name: n1 } => match s2 {
                Schema::Ref { name: n2 } => {
                    lemma_bundle_at(b1, b2);
                    let e1 = b1.schemas.entries@;
                    let e2 = b2.schemas.entries@;
                    lemma_find_key_same_keys(e1, e2, n1@);
                    lemma_find_key(e1, n1@);
                    match find_key(e1, n1@) {
                        Some(i) => {
                            lemma_check_content(
                                b1,
                                b2,
                                mode,
                                max_depth,
                                e1[i].1,
                                e2[i].1,
                                v,
                                ip,
                                sp,
                                depth + 1,
                            );
                        },
                        None => {},
                    }
                },
                _ => {},
            },
        }
    }
}

proof fn lemma_items_content(
    b1: SchemaBundle,
    b2: SchemaBundle,
    mode: ValidationMode,
    max_depth: nat,
    e1: Schema,
    e2: Schema,
    items: Seq<Value>,
    n: nat,
    ip: Seq<Seq<char>>,
    sp: Seq<Seq<char>>,
    depth: nat,
)
    requires
        same_content(b1, b2),
        schema_view(e1) == schema_view(e2),
    ensures
        check_items(b1, mode, max_depth, e1, items, n, ip, sp, depth) == check_items(
            b2,
            mode,
            max_depth,
            e2,
            items,
            n,
            ip,
            sp,
            depth,
        ),
    decreases budget(max_depth, depth), e1, n,
{
    if n > 0 && n <= items.len() {
        lemma_items_content(b1, b2, mode, max_depth, e1, e2, items, (n - 1) as nat, ip, sp, depth);
        lemma_check_content(
            b1,
            b2,
            mode,
            max_depth,
            e1,
            e2,
            items[n - 1],
            ip.push(decimal((n - 1) as nat)),
            sp.push("elements"@),
            depth,
        );
    }
}

proof fn lemma_values_content(
    b1: SchemaBundle,
    b2: SchemaBundle,
    mode: ValidationMode,
    max_depth: nat,
    x1: Schema,
    x2: Schema,
    map: Seq<(String, Value)>,
    n: nat,
    ip: Seq<Seq<char>>,
    sp: Seq<Seq<char>>,
    depth: nat,
)
    requires
        same_content(b1, b2),
        schema_view(x1) == schema_view(x2),
    ensures
        check_values(b1, mode, max_depth, x1, map, n, ip, sp, depth) == check_values(
            b2,
            mode,
            max_depth,
            x2,
            map,
            n,
            ip,
            sp,
            depth,
        ),
    decreases budget(max_depth, depth), x1, n,
{
    if n > 0 && n <= map.len() {
        lemma_values_content(b1, b2, mode, max_depth, x1, x2, map, (n - 1) as nat, ip, sp, depth);
        lemma_check_content(
            b1,
            b2,
            mode,
            max_depth,
            x1,
            x2,
            map[n - 1].1,
            ip.push(map[n - 1].0@),
            sp.push("values"@),
            depth,
        );
    }
}

proof fn lemma_required_content(
    b1: SchemaBundle,
    b2: SchemaBundle,
    mode: ValidationMode,
    max_depth: nat,
    p1: Seq<(String, Box<Schema>)>,
    p2: Seq<(String, Box<Schema>)>,
    n: nat,
    map: Seq<(String, Value)>,
    ip: Seq<Seq<char>>,
    sp: Seq<Seq<char>>,
    depth: nat,
)
    requires
        same_content(b1, b2),
        map_entries(p1) == map_entries(p2),
    ensures
        check_required(b1, mode, max_depth, p1, n, map, ip, sp, depth) == check_required(
            b2,
            mode,
            max_depth,
            p2,
            n,
            map,
            ip,
            sp,
            depth,
        ),
    decreases budget(max_depth, depth), p1, n,
{
    lemma_map_entries_at(p1, p2);
    if n > 0 && n <= p1.len() {
        lemma_required_content(b1, b2, mode, max_depth, p1, p2, (n - 1) as nat, map, ip, sp, depth);
        let key = p1[n - 1].0@;
        assert(p2[n - 1].0@ == key);
        match lookup(map, key) {
            Some(x) => {
                assert(decreases_to!(p1 => p1[n - 1]));
                lemma_check_content(
                    b1,
                    b2,
                    mode,
                    max_depth,
                    *p1[n - 1].1,
                    *p2[n - 1].1,
                    x,
                    ip.push(key),
                    sp + seq!["properties"@, key],
                    depth,
                );
            },
            None => {},
        }
    }
}

proof fn lemma_optional_content(
    b1: SchemaBundle,
    b2: SchemaBundle,
    mode: ValidationMode,
    max_depth: nat,
    p1: Seq<(String, Box<Schema>)>,
    p2: Seq<(String, Box<Schema>)>,
    n: nat,
    map: Seq<(String, Value)>,
    ip: Seq<Seq<char>>,
    sp: Seq<Seq<char>>,
    depth: nat,
)
    requires
        same_content(b1, b2),
        map_entries(p1) == map_entries(p2),
    ensures
        check_optional(b1, mode, max_depth, p1, n, map, ip, sp, depth) == check_optional(
            b2,
            mode,
            max_depth,
            p2,
            n,
            map,
            ip,
            sp,
            depth,
        ),
    decreases budget(max_depth, depth), p1, n,
{
    lemma_map_entries_at(p1, p2);
    if n > 0 && n <= p1.len() {
        lemma_optional_content(b1, b2, mode, max_depth, p1, p2, (n - 1) as nat, map, ip, sp, depth);
        let key = p1[n - 1].0@;
        assert(p2[n - 1].0@ == key);
        match lookup(map, key) {
            Some(x) => {
                assert(decreases_to!(p1 => p1[n - 1]));
                lemma_check_content(
                    b1,
                    b2,
                    mode,
                    max_depth,
                    *p1[n - 1].1,
                    *p2[n - 1].1,
                    x,
                    ip.push(key),
                    sp + seq!["optionalProperties"@, key],
                    depth,
                );
            },
            None => {},
        }
    }
}

proof fn lemma_additional_content(
    b1: SchemaBundle,
    b2: SchemaBundle,
    mode: ValidationMode,
    max_depth: nat,
    a1: AdditionalPolicy,
    a2: AdditionalPolicy,
    r1: Seq<(String, Box<Schema>)>,
    r2: Seq<(String, Box<Schema>)>,
    o1: Seq<(String, Box<Schema>)>,
    o2: Seq<(String, Box<Schema>)>,
    map: Seq<(String, Value)>,
    n: nat,
    ip: Seq<Seq<char>>,
    sp: Seq<Seq<char>>,
    depth: nat,
)
    requires
        same_content(b1, b2),
        policy_view(a1) == policy_view(a2),
        map_entries(r1) == map_entries(r2),
        map_entries(o1) == map_entries(o2),
    ensures
        check_additional(b1, mode, max_depth, a1, r1, o1, map, n, ip, sp, depth)
            == check_additional(b2, mode, max_depth, a2, r2, o2, map, n, ip, sp, depth),
    decreases budget(max_depth, depth), a1, n,
{
    if n > 0 && n <= map.len() {
        lemma_additional_content(
            b1,
            b2,
            mode,
            max_depth,
            a1,
            a2,
            r1,
            r2,
            o1,
            o2,
            map,
            (n - 1) as nat,
            ip,
            sp,
            depth,
        );
        let key = map[n - 1].0@;
        lemma_map_entries_at(r1, r2);
        lemma_map_entries_at(o1, o2);
        lemma_find_key_same_keys(r1, r2, key);
        lemma_find_key_same_keys(o1, o2, key);
        match a1 {
            AdditionalPolicy::AllowSchema(x1) => match a2 {
                AdditionalPolicy::AllowSchema(x2) => {
                    lemma_check_content(
                        b1,
                        b2,
                        mode,
                        max_depth,
                        *x1,
                        *x2,
                        map[n - 1].1,
                        ip.push(key),
                        sp.push("additionalProperties"@),
                        depth,
                    );
                },
                _ => {},
            },
            _ => {},
        }
    }
}

proof fn lemma_matching_content(
    b1: SchemaBundle,
    b2: SchemaBundle,
    mode: ValidationMode,
    max_depth: nat,
    vs1: Seq<OneOfVariant>,
    vs2: Seq<OneOfVariant>,
    n: nat,
    v: Value,
    ip: Seq<Seq<char>>,
    sp: Seq<Seq<char>>,
    depth: nat,
)
    requires
        same_content(b1, b2),
        variant_entries(vs1) == variant_entries(vs2),
    ensures
        matching_variants(b1, mode, max_depth, vs1, n, v, ip, sp, depth) == matching_variants(
            b2,
            mode,
            max_depth,
            vs2,
            n,
            v,
            ip,
            sp,
            depth,
        ),
    decreases budget(max_depth, depth), vs1, n,
{
    lemma_variant_entries_at(vs1, vs2);
    if n > 0 && n <= vs1.len() {
        lemma_matching_content(b1, b2, mode, max_depth, vs1, vs2, (n - 1) as nat, v, ip, sp, depth);
        assert(vs1[n - 1].label@ == vs2[n - 1].label@);
        lemma_skipped_content(*vs1[n - 1].schema, *vs2[n - 1].schema, v);
        if !variant_skipped(*vs1[n - 1].schema, v) {
            assert(decreases_to!(vs1 => vs1[n - 1]));
            lemma_check_content(
                b1,
                b2,
                mode,
                max_depth,
                *vs1[n - 1].schema,
                *vs2[n - 1].schema,
                v,
                ip,
                sp + seq!["oneOf"@, decimal((n - 1) as nat)],
                depth,
            );
        }
    }
}

} // verus!
