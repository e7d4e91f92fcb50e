//! Structural equality of node types, decided on their canonical form.

use vstd::prelude::*;
use crate::model::{
    assoc_map, distinct_keys, fields_of, find_member, find_property, format_eq, key_lt, kind_of,
    lemma_assoc_get, lemma_key_lt_transitive, lemma_rank_kind, lemma_sorted_distinct,
    lemma_sorted_kinds_distinct, members_of, node_rank, rank, sorted_keys, sorted_kinds, str_lt,
    Kind, NodeType, ObjectProperty,
};

verus! {

/// Every entry of `a` stands in `b` with the same value.
pub open spec fn included<K, V>(a: Map<K, V>, b: Map<K, V>) -> bool {
    forall|k: K| #[trigger] a.contains_key(k) ==> b.contains_key(k) && a[k] == b[k]
}

/// Every key of `a` is a key of `b`.
pub open spec fn keys_included<K, V>(a: Map<K, V>, b: Map<K, V>) -> bool {
    forall|k: K| #[trigger] a.contains_key(k) ==> b.contains_key(k)
}

/// Two maps are equal when one is included in the other and has all its keys.
pub proof fn lemma_included_equal<K, V>(a: Map<K, V>, b: Map<K, V>)
    ensures
        a == b <==> included(a, b) && keys_included(b, a),
{
    if included(a, b) && keys_included(b, a) {
        assert(a =~= b);
    }
}

/// The properties of a list are canonical: ascending names, canonical types.
pub open spec fn properties_wf(props: Seq<(String, ObjectProperty)>) -> bool {
    &&& sorted_keys(fields_of(props))
    &&& forall|i: int| 0 <= i < props.len() ==> (#[trigger] props[i]).1.node_type.wf()
}

/// The members of a list are canonical: ascending kinds, canonical members.
pub open spec fn members_wf(nodes: Seq<NodeType>) -> bool {
    &&& sorted_kinds(members_of(nodes))
    &&& forall|i: int| 0 <= i < nodes.len() ==> (#[trigger] nodes[i]).wf()
}

/// Whether every name of `pa` is a name of `pb`.
fn names_included(pa: &Vec<(String, ObjectProperty)>, pb: &Vec<(String, ObjectProperty)>) -> (r: bool)
    ensures
        r == keys_included(assoc_map(fields_of(pa@)), assoc_map(fields_of(pb@))),
{
    let ghost f = fields_of(pa@);
    let ghost ma = assoc_map(f);
    let ghost mb = assoc_map(fields_of(pb@));
    let mut i: usize = 0;
    while i < pa.len()
        invariant
            i <= pa.len(),
            f == fields_of(pa@),
            ma == assoc_map(f),
            mb == assoc_map(fields_of(pb@)),
            forall|t: int| 0 <= t < i ==> mb.contains_key((#[trigger] f[t]).0),
        decreases pa.len() - i,
    {
        assert(f[i as int].0 == pa[i as int].0@);
        match find_property(pb, &pa[i].0) {
            None => {
                assert(ma.contains_key(f[i as int].0));
                return false;
            },
            Some(j) => {
                assert(fields_of(pb@)[j as int].0 == f[i as int].0);
            },
        }
        i = i + 1;
    }
    true
}

/// Whether every kind of `xs` is a kind of `ys`.
fn kinds_included(xs: &Vec<NodeType>, ys: &Vec<NodeType>) -> (r: bool)
    ensures
        r == keys_included(assoc_map(members_of(xs@)), assoc_map(members_of(ys@))),
{
    let ghost f = members_of(xs@);
    let ghost ma = assoc_map(f);
    let ghost g = members_of(ys@);
    let ghost mb = assoc_map(g);
    let mut i: usize = 0;
    while i < xs.len()
        invariant
            i <= xs.len(),
            f == members_of(xs@),
            g == members_of(ys@),
            ma == assoc_map(f),
            mb == assoc_map(g),
            forall|t: int| 0 <= t < i ==> mb.contains_key((#[trigger] f[t]).0),
        decreases xs.len() - i,
    {
        assert(f[i as int].0 == kind_of(xs[i as int]@));
        match find_member(ys, node_rank(&xs[i])) {
            None => {
                assert(ma.contains_key(f[i as int].0));
                return false;
            },
            Some(j) => {
                proof {
                    lemma_rank_kind(kind_of(xs[i as int]@));
                    lemma_rank_kind(kind_of(ys[j as int]@));
                    assert(g[j as int].0 == f[i as int].0);
                }
            },
        }
        i = i + 1;
    }
    true
}

/// Whether every property of `pa` stands in `pb` with the same field.
fn properties_included(pa: &Vec<(String, ObjectProperty)>, pb: &Vec<(String, ObjectProperty)>) -> (r: bool)
    requires
        properties_wf(pa@),
        properties_wf(pb@),
    ensures
        r == included(assoc_map(fields_of(pa@)), assoc_map(fields_of(pb@))),
    decreases pa,
{
    let ghost f = fields_of(pa@);
    let ghost g = fields_of(pb@);
    let ghost ma = assoc_map(f);
    let ghost mb = assoc_map(g);
    proof {
        lemma_sorted_distinct(f);
        lemma_sorted_distinct(g);
    }
    let mut i: usize = 0;
    while i < pa.len()
        invariant
            i <= pa.len(),
            properties_wf(pa@),
            properties_wf(pb@),
            f == fields_of(pa@),
            g == fields_of(pb@),
            ma == assoc_map(f),
            mb == assoc_map(g),
            distinct_keys(f),
            distinct_keys(g),
            forall|t: int|
                0 <= t < i ==> mb.contains_key((#[trigger] f[t]).0) && mb[f[t].0] == f[t].1,
        decreases pa.len() - i,
    {
        proof {
            lemma_assoc_get(f, i as int);
        }
        match find_property(pb, &pa[i].0) {
            None => {
                return false;
            },
            Some(j) => {
                proof {
                    lemma_assoc_get(g, j as int);
                }
                if pa[i].1.required != pb[j].1.required || !node_eq(
                    &pa[i].1.node_type,
                    &pb[j].1.node_type,
                ) {
                    return false;
                }
            },
        }
        i = i + 1;
    }
    true
}

/// Whether every member of `xs` stands in `ys` with the same shape.
fn members_included(xs: &Vec<NodeType>, ys: &Vec<NodeType>) -> (r: bool)
    requires
        members_wf(xs@),
        members_wf(ys@),
    ensures
        r == included(assoc_map(members_of(xs@)), assoc_map(members_of(ys@))),
    decreases xs,
{
    let ghost f = members_of(xs@);
    let ghost g = members_of(ys@);
    let ghost ma = assoc_map(f);
    let ghost mb = assoc_map(g);
    proof {
        lemma_sorted_kinds_distinct(f);
        lemma_sorted_kinds_distinct(g);
    }
    let mut i: usize = 0;
    while i < xs.len()
        invariant
            i <= xs.len(),
            members_wf(xs@),
            members_wf(ys@),
            f == members_of(xs@),
            g == members_of(ys@),
            ma == assoc_map(f),
            mb == assoc_map(g),
            distinct_keys(f),
            distinct_keys(g),
            forall|t: int|
                0 <= t < i ==> mb.contains_key((#[trigger] f[t]).0) && mb[f[t].0] == f[t].1,
        decreases xs.len() - i,
    {
        proof {
            lemma_assoc_get(f, i as int);
        }
        match find_member(ys, node_rank(&xs[i])) {
            None => {
                return false;
            },
            Some(j) => {
                proof {
                    lemma_assoc_get(g, j as int);
                    lemma_rank_kind(kind_of(xs[i as int]@));
                    lemma_rank_kind(kind_of(ys[j as int]@));
                }
                if !node_eq(&xs[i], &ys[j]) {
                    return false;
                }
            },
        }
        i = i + 1;
    }
    true
}

/// Whether two canonical nodes have the same shape.
pub fn node_eq(a: &NodeType, b: &NodeType) -> (r: bool)
    requires
        a.wf(),
        b.wf(),
    ensures
        r == (a@ == b@),
    decreases a,
{
    match (a, b) {
        (NodeType::Null, NodeType::Null) => true,
        (NodeType::Boolean, NodeType::Boolean) => true,
        (NodeType::Integer(_), NodeType::Integer(_)) => true,
        (NodeType::Number(_), NodeType::Number(_)) => true,
        (NodeType::String(x), NodeType::String(y)) => format_eq(x.format, y.format),
        (NodeType::Array(x), NodeType::Array(y)) => match (&x.items, &y.items) {
            (None, None) => true,
            (Some(p), Some(q)) => node_eq(&**p, &**q),
            _ => false,
        },
        (NodeType::Object(x), NodeType::Object(y)) => {
            proof {
                lemma_included_equal(
                    assoc_map(fields_of(x.properties@)),
                    assoc_map(fields_of(y.properties@)),
                );
            }
            properties_included(&x.properties, &y.properties) && names_included(
                &y.properties,
                &x.properties,
            )
        },
        (NodeType::Any(x), NodeType::Any(y)) => {
            proof {
                lemma_included_equal(assoc_map(members_of(x.nodes@)), assoc_map(members_of(y.nodes@)));
            }
            members_included(&x.nodes, &y.nodes) && kinds_included(&y.nodes, &x.nodes)
        },
        _ => false,
    }
}


/// Whether the properties are canonical.
fn properties_canonical(props: &Vec<(String, ObjectProperty)>) -> (r: bool)
    ensures
        r == properties_wf(props@),
    decreases props,
{
    let ghost f = fields_of(props@);
    let mut i: usize = 0;
    while i < props.len()
        invariant
            i <= props.len(),
            f == fields_of(props@),
            forall|s: int, t: int| 0 <= s < t < i ==> key_lt((#[trigger] f[s]).0, (#[trigger] f[t]).0),
            forall|t: int| 0 <= t < i ==> (#[trigger] props[t]).1.node_type.wf(),
        decreases props.len() - i,
    {
        assert(f[i as int].0 == props[i as int].0@);
        if i > 0 {
            assert(f[i - 1].0 == props[i - 1].0@);
            if !str_lt(props[i - 1].0.as_str(), props[i].0.as_str()) {
                assert(!key_lt(f[i - 1].0, f[i as int].0));
                return false;
            }
            assert forall|s: int| 0 <= s < i implies key_lt((#[trigger] f[s]).0, f[i as int].0) by {
                if s < i - 1 {
                    assert(key_lt(f[s].0, f[i - 1].0));
                    lemma_key_lt_transitive(f[s].0, f[i - 1].0, f[i as int].0);
                }
            }
        }
        if !is_canonical(&props[i].1.node_type) {
            return false;
        }
        i = i + 1;
    }
    true
}

/// Whether the members are canonical.
fn members_canonical(nodes: &Vec<NodeType>) -> (r: bool)
    ensures
        r == members_wf(nodes@),
    decreases nodes,
{
    let ghost m = members_of(nodes@);
    let mut plain: bool = false;
    let mut i: usize = 0;
    while i < nodes.len()
        invariant
            i <= nodes.len(),
            m == members_of(nodes@),
            forall|s: int, t: int| 0 <= s < t < i ==> rank((#[trigger] m[s]).0) < rank((#[trigger] m[t]).0),
            plain <==> exists|t: int| 0 <= t < i && (#[trigger] m[t]).0 == Kind::Text(None),
            forall|s: int, t: int|
                0 <= s < i && 0 <= t < i && (#[trigger] m[s]).0 == Kind::Text(None) ==> !((
                #[trigger] m[t]).0 is Text) || s == t,
            forall|t: int| 0 <= t < i ==> (#[trigger] nodes[t]).wf(),
        decreases nodes.len() - i,
    {
        let r = node_rank(&nodes[i]);
        assert(m[i as int].0 == kind_of(nodes[i as int]@));
        proof {
            lemma_rank_kind(m[i as int].0);
        }
        if i > 0 {
            assert(m[i - 1].0 == kind_of(nodes[i - 1]@));
            if node_rank(&nodes[i - 1]) >= r {
                assert(!(rank(m[i - 1].0) < rank(m[i as int].0)));
                return false;
            }
        }
        if 5 <= r && r <= 8 && plain {
            let ghost t = choose|t: int| 0 <= t < i && (#[trigger] m[t]).0 == Kind::Text(None);
            assert(m[t].0 == Kind::Text(None) && m[i as int].0 is Text && t != i);
            return false;
        }
        if !is_canonical(&nodes[i]) {
            return false;
        }
        proof {
            assert forall|s: int, t: int|
                0 <= s < i + 1 && 0 <= t < i + 1 && (#[trigger] m[s]).0 == Kind::Text(None) implies !((
            #[trigger] m[t]).0 is Text) || s == t by {
                lemma_rank_kind(m[s].0);
                lemma_rank_kind(m[t].0);
                if s == i && t < i {
                    assert(rank(m[t].0) < rank(m[s].0));
                }
                if t == i && s < i {
                    assert(plain);
                }
            }
        }
        if r == 4 {
            plain = true;
        }
        i = i + 1;
    }
    true
}

/// Whether a node is in canonical form.
pub fn is_canonical(n: &NodeType) -> (r: bool)
    ensures
        r == n.wf(),
    decreases n,
{
    match n {
        NodeType::Array(a) => match &a.items {
            None => true,
            Some(item) => is_canonical(&**item),
        },
        NodeType::Object(o) => properties_canonical(&o.properties),
        NodeType::Any(a) => members_canonical(&a.nodes),
        _ => true,
    }
}

} // verus!
