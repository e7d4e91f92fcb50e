//! Merging: the least specific type that describes whatever either of two
//! types describes.

use vstd::prelude::*;
use crate::equality::{members_wf, node_eq, properties_wf};
use crate::model::{
    assoc_map, clone_node, distinct_keys, fields_of, find_member, find_property, insert_property,
    kind_at, key_lt, kind_of, lemma_assoc_get, lemma_assoc_push, lemma_kind_rank, lemma_rank_kind,
    lemma_sorted_distinct, lemma_sorted_kinds_distinct, members, members_of, node_rank, rank,
    sorted_keys, sorted_kinds, AnyNode, ArrayNode, Field, Kind, NodeType, ObjectNode,
    ObjectProperty, Shape,
};

pub mod string;

verus! {

/// Whether the union of the member maps `xs` and `ys` has a member of kind
/// `k`: one of them has, and a formatted string gives way to an unformatted
/// one on either side.
pub open spec fn in_union(xs: Map<Kind, Shape>, ys: Map<Kind, Shape>, k: Kind) -> bool {
    &&& xs.contains_key(k) || ys.contains_key(k)
    &&& k is Text && k != Kind::Text(None) ==> !xs.contains_key(Kind::Text(None)) && !ys.contains_key(
        Kind::Text(None),
    )
}

/// The merge of two shapes.
///
/// Equal shapes merge to themselves. Two strings of which one has no format
/// merge to the string without format. Two objects merge key by key: a
/// property of both is required if it is required in both and has the merged
/// type, a property of one becomes optional. Two arrays merge their items,
/// an absent item giving way to a present one. Everything else becomes a
/// union: the members of both sides, two members of one kind merged into one.
pub open spec fn merge_shapes(a: Shape, b: Shape) -> Shape
    decreases a, b,
{
    if a == b {
        a
    } else if a is Text && b is Text && (a->Text_0 is None || b->Text_0 is None) {
        Shape::Text(None)
    } else if a is Object && b is Object {
        Shape::Object(
            Map::new(
                |k: Seq<char>| a->Object_0.contains_key(k) || b->Object_0.contains_key(k),
                |k: Seq<char>|
                    if a->Object_0.contains_key(k) && b->Object_0.contains_key(k) {
                        Field {
                            required: a->Object_0[k].required && b->Object_0[k].required,
                            shape: merge_shapes(a->Object_0[k].shape, b->Object_0[k].shape),
                        }
                    } else if a->Object_0.contains_key(k) {
                        Field { required: false, shape: a->Object_0[k].shape }
                    } else {
                        Field { required: false, shape: b->Object_0[k].shape }
                    },
            ),
        )
    } else if a is Array && b is Array {
        Shape::Array(
            match (a->Array_0, b->Array_0) {
                (Some(x), Some(y)) => Some(Box::new(merge_shapes(*x, *y))),
                (Some(x), None) => Some(x),
                (None, y) => y,
            },
        )
    } else {
        Shape::Any(
            Map::new(
                |k: Kind| in_union(members(a), members(b), k),
                |k: Kind|
                    if members(a).contains_key(k) && members(b).contains_key(k) {
                        if a is Any {
                            if b is Any {
                                merge_shapes(a->Any_0[k], b->Any_0[k])
                            } else {
                                merge_shapes(a->Any_0[k], b)
                            }
                        } else if b is Any {
                            merge_shapes(a, b->Any_0[k])
                        } else {
                            a
                        }
                    } else if members(a).contains_key(k) {
                        members(a)[k]
                    } else {
                        members(b)[k]
                    },
            ),
        )
    }
}

/// The fields of two objects merged name by name: a field of both is
/// required if it is required in both and has the merged shape, a field of
/// one is not required.
pub open spec fn merged_fields(pa: Map<Seq<char>, Field>, pb: Map<Seq<char>, Field>) -> Map<
    Seq<char>,
    Field,
> {
    Map::new(
        |k: Seq<char>| pa.contains_key(k) || pb.contains_key(k),
        |k: Seq<char>|
            if pa.contains_key(k) && pb.contains_key(k) {
                Field {
                    required: pa[k].required && pb[k].required,
                    shape: merge_shapes(pa[k].shape, pb[k].shape),
                }
            } else if pa.contains_key(k) {
                Field { required: false, shape: pa[k].shape }
            } else {
                Field { required: false, shape: pb[k].shape }
            },
    )
}

/// Two objects that differ merge into the object of their merged fields.
pub proof fn lemma_merge_objects(a: Shape, b: Shape)
    requires
        a is Object,
        b is Object,
        a != b,
    ensures
        merge_shapes(a, b) == Shape::Object(merged_fields(a->Object_0, b->Object_0)),
{
    assert(merge_shapes(a, b)->Object_0 =~= merged_fields(a->Object_0, b->Object_0));
}

/// The two shapes merge into a union.
pub open spec fn union_case(a: Shape, b: Shape) -> bool {
    &&& a != b
    &&& !(a is Text && b is Text && (a->Text_0 is None || b->Text_0 is None))
    &&& !(a is Object && b is Object)
    &&& !(a is Array && b is Array)
}

/// Merging a shape with itself changes nothing.
pub proof fn lemma_merge_idempotent(t: Shape)
    ensures
        merge_shapes(t, t) == t,
{
}

/// Two shapes of one kind merge into a shape of that kind.
pub proof fn lemma_merge_keeps_kind(a: Shape, b: Shape)
    requires
        kind_of(a) == kind_of(b),
    ensures
        kind_of(merge_shapes(a, b)) == kind_of(a),
{
}

/// The order of the two sides does not matter to a merge.
pub proof fn lemma_merge_commutative(a: Shape, b: Shape)
    ensures
        merge_shapes(a, b) == merge_shapes(b, a),
    decreases a, b,
{
    if a == b {
    } else if a is Text && b is Text && (a->Text_0 is None || b->Text_0 is None) {
    } else if a is Object && b is Object {
        let pa = a->Object_0;
        let pb = b->Object_0;
        assert forall|k: Seq<char>| pa.contains_key(k) && pb.contains_key(k) implies merge_shapes(
            pa[k].shape,
            pb[k].shape,
        ) == merge_shapes(pb[k].shape, pa[k].shape) by {
            lemma_merge_commutative(pa[k].shape, pb[k].shape);
        }
        assert(merge_shapes(a, b)->Object_0 =~= merge_shapes(b, a)->Object_0);
    } else if a is Array && b is Array {
        match (a->Array_0, b->Array_0) {
            (Some(x), Some(y)) => {
                lemma_merge_commutative(*x, *y);
            },
            _ => {},
        }
    } else {
        let ma = members(a);
        let mb = members(b);
        assert forall|k: Kind|
            in_union(ma, mb, k) && ma.contains_key(k) && mb.contains_key(k) implies merge_shapes(
            a,
            b,
        )->Any_0[k] == merge_shapes(b, a)->Any_0[k] by {
            if a is Any {
                if b is Any {
                    lemma_merge_commutative(a->Any_0[k], b->Any_0[k]);
                } else {
                    lemma_merge_commutative(a->Any_0[k], b);
                }
            } else if b is Any {
                lemma_merge_commutative(a, b->Any_0[k]);
            }
        }
        assert(merge_shapes(a, b)->Any_0 =~= merge_shapes(b, a)->Any_0);
    }
}

/// A property of a merged object is required only if it was required on
/// both sides.
pub proof fn lemma_required_monotonic(a: Shape, b: Shape, k: Seq<char>)
    requires
        a is Object,
        b is Object,
        merge_shapes(a, b)->Object_0.contains_key(k),
        merge_shapes(a, b)->Object_0[k].required,
    ensures
        merge_shapes(a, b) is Object,
        a->Object_0.contains_key(k) && a->Object_0[k].required,
        b->Object_0.contains_key(k) && b->Object_0[k].required,
{
}


/// An empty list stands for the empty map.
pub proof fn lemma_assoc_empty<K, V>()
    ensures
        assoc_map(Seq::<(K, V)>::empty()) == Map::<K, V>::empty(),
        distinct_keys(Seq::<(K, V)>::empty()),
{
    assert(assoc_map(Seq::<(K, V)>::empty()) =~= Map::<K, V>::empty());
}

/// Appends a member whose kind comes behind all kinds of the list.
pub fn push_member(out: &mut Vec<NodeType>, node: NodeType)
    requires
        members_wf(old(out)@),
        node.wf(),
        forall|i: int| 0 <= i < old(out).len() ==> rank(kind_of((#[trigger] old(out)[i])@)) < rank(kind_of(node@)),
        kind_of(node@) is Text ==> forall|i: int|
            0 <= i < old(out).len() ==> !(kind_of((#[trigger] old(out)[i])@) is Text) || (kind_of(
                old(out)[i]@,
            ) != Kind::Text(None) && kind_of(node@) != Kind::Text(None)),
    ensures
        members_wf(final(out)@),
        final(out)@ == old(out)@.push(node),
        assoc_map(members_of(final(out)@)) == assoc_map(members_of(old(out)@)).insert(
            kind_of(node@),
            node@,
        ),
{
    let ghost before = members_of(out@);
    proof {
        lemma_sorted_kinds_distinct(before);
        assert forall|i: int| 0 <= i < before.len() implies (#[trigger] before[i]).0 != kind_of(node@) by {
            assert(before[i].0 == kind_of(out[i]@));
        }
        lemma_assoc_push(before, kind_of(node@), node@);
    }
    out.push(node);
    proof {
        let after = members_of(out@);
        assert(after =~= before.push((kind_of(node@), node@)));
        assert forall|i: int| 0 <= i < after.len() implies (#[trigger] after[i]).0 == kind_of(out[i]@) by {}
        assert(sorted_kinds(after)) by {
            assert forall|i: int, j: int| 0 <= i < j < after.len() implies rank((#[trigger] after[i]).0)
                < rank((#[trigger] after[j]).0) by {
                if j < before.len() {
                    assert(after[i] == before[i] && after[j] == before[j]);
                } else {
                    assert(after[i].0 == kind_of(out[i]@));
                }
            }
            assert forall|i: int, j: int|
                0 <= i < after.len() && 0 <= j < after.len() && (#[trigger] after[i]).0 == Kind::Text(
                    None,
                ) implies !((#[trigger] after[j]).0 is Text) || i == j by {
                assert(after[i].0 == kind_of(out[i]@));
                assert(after[j].0 == kind_of(out[j]@));
                if i < before.len() && j < before.len() {
                    assert(after[i] == before[i] && after[j] == before[j]);
                }
            }
        }
    }
}

/// The member of `n` whose kind stands at place `r`: a member of the union
/// if `n` is one, `n` itself otherwise.
pub fn member_at<'a>(n: &'a NodeType, r: u8) -> (m: Option<&'a NodeType>)
    requires
        n.wf(),
        r <= 11,
    ensures
        m is Some <==> members(n@).contains_key(kind_at(r as int)),
        m is Some ==> {
            &&& m->0@ == members(n@)[kind_at(r as int)]
            &&& kind_of(m->0@) == kind_at(r as int)
            &&& m->0.wf()
            &&& n is Any ==> exists|i: int| 0 <= i < n->Any_0.nodes.len() && *m->0 == n->Any_0.nodes[i]
            &&& !(n is Any) ==> *m->0 == *n
        },
{
    proof {
        lemma_kind_rank(r as int);
    }
    match n {
        NodeType::Any(union) => {
            proof {
                lemma_sorted_kinds_distinct(members_of(union.nodes@));
            }
            match find_member(&union.nodes, r) {
                Some(i) => {
                    proof {
                        lemma_assoc_get(members_of(union.nodes@), i as int);
                        lemma_rank_kind(kind_of(union.nodes[i as int]@));
                    }
                    Some(&union.nodes[i])
                },
                None => None,
            }
        },
        _ => {
            proof {
                lemma_rank_kind(kind_of(n@));
            }
            if node_rank(n) == r {
                Some(n)
            } else {
                None
            }
        },
    }
}

/// The union of two nodes that merge into one: the members of both sides in
/// ascending order of their kinds, two members of one kind merged.
#[verifier::loop_isolation(false)]
pub fn merge_members(a: &NodeType, b: &NodeType) -> (r: NodeType)
    requires
        a.wf(),
        b.wf(),
        union_case(a@, b@),
    ensures
        r.wf(),
        r@ == merge_shapes(a@, b@),
    decreases a, b, 0int,
{
    let ghost ma = members(a@);
    let ghost mb = members(b@);
    let ghost target = merge_shapes(a@, b@)->Any_0;
    let plain: bool = member_at(a, 4).is_some() || member_at(b, 4).is_some();
    let mut out: Vec<NodeType> = Vec::new();
    let mut r: u8 = 0;
    proof {
        lemma_assoc_empty::<Kind, Shape>();
        assert(members_of(out@) =~= Seq::empty());
    }
    while r < 12
        invariant
            r <= 12,
            members_wf(out@),
            plain == (ma.contains_key(Kind::Text(None)) || mb.contains_key(Kind::Text(None))),
            forall|i: int| 0 <= i < out.len() ==> rank(kind_of((#[trigger] out[i])@)) < r,
            plain ==> forall|i: int|
                0 <= i < out.len() ==> !(kind_of((#[trigger] out[i])@) is Text) || kind_of(out[i]@)
                    == Kind::Text(None),
            !plain ==> forall|i: int| 0 <= i < out.len() ==> kind_of((#[trigger] out[i])@) != Kind::Text(None),
            forall|k: Kind|
                rank(k) < r ==> (#[trigger] assoc_map(members_of(out@)).contains_key(k)
                    <==> target.contains_key(k)),
            forall|k: Kind| #[trigger]
                assoc_map(members_of(out@)).contains_key(k) ==> rank(k) < r && assoc_map(
                    members_of(out@),
                )[k] == target[k],
        decreases 12 - r,
    {
        let ghost k = kind_at(r as int);
        let ghost before = assoc_map(members_of(out@));
        proof {
            lemma_kind_rank(r as int);
            assert forall|q: Kind| rank(q) == r implies q == k by {
                lemma_rank_kind(q);
            }
        }
        let x = member_at(a, r);
        let y = member_at(b, r);
        let formatted: bool = 5 <= r && r <= 8;
        assert(formatted == (k is Text && k != Kind::Text(None)));
        if !(formatted && plain) {
            match (x, y) {
                (Some(p), Some(q)) => {
                    proof {
                        assert(a is Any || b is Any);
                        if a is Any {
                            let i = choose|i: int| 0 <= i < a->Any_0.nodes.len() && *p == a->Any_0.nodes[i];
                            assert(decreases_to!(a->Any_0.nodes => a->Any_0.nodes[i]));
                        }
                        if b is Any {
                            let j = choose|j: int| 0 <= j < b->Any_0.nodes.len() && *q == b->Any_0.nodes[j];
                            assert(decreases_to!(b->Any_0.nodes => b->Any_0.nodes[j]));
                        }
                        lemma_merge_keeps_kind(p@, q@);
                    }
                    let merged = merge_nodes(p, q);
                    push_member(&mut out, merged);
                },
                (Some(p), None) => {
                    let copy = clone_node(p);
                    push_member(&mut out, copy);
                },
                (None, Some(q)) => {
                    let copy = clone_node(q);
                    push_member(&mut out, copy);
                },
                (None, None) => {},
            }
        }
        r = r + 1;
    }
    proof {
        assert forall|k: Kind| assoc_map(members_of(out@)).contains_key(k) <==> target.contains_key(k) by {
            lemma_rank_kind(k);
        }
        assert(assoc_map(members_of(out@)) =~= target);
    }
    NodeType::Any(AnyNode { nodes: out })
}

/// The properties of two objects, merged name by name.
#[verifier::loop_isolation(false)]
pub fn merge_properties(pa: &Vec<(String, ObjectProperty)>, pb: &Vec<(String, ObjectProperty)>) -> (r: Vec<
    (String, ObjectProperty),
>)
    requires
        properties_wf(pa@),
        properties_wf(pb@),
    ensures
        properties_wf(r@),
        assoc_map(fields_of(r@)) == merged_fields(
            assoc_map(fields_of(pa@)),
            assoc_map(fields_of(pb@)),
        ),
    decreases pa, pb,
{
    let ghost f = fields_of(pa@);
    let ghost g = fields_of(pb@);
    let ghost ma = assoc_map(f);
    let ghost mb = assoc_map(g);
    let ghost target = merged_fields(ma, mb);
    proof {
        lemma_sorted_distinct(f);
        lemma_sorted_distinct(g);
    }
    let mut out: Vec<(String, ObjectProperty)> = Vec::new();
    let mut i: usize = 0;
    while i < pa.len()
        invariant
            i <= pa.len(),
            out.len() == i,
            forall|t: int|
                0 <= t < i ==> (#[trigger] out[t]).0@ == pa[t].0@ && out[t].1.node_type.wf() && (Field {
                    required: out[t].1.required,
                    shape: out[t].1.node_type@,
                }) == target[pa[t].0@],
        decreases pa.len() - i,
    {
        let entry = &pa[i];
        proof {
            lemma_assoc_get(f, i as int);
        }
        let prop = match find_property(pb, &entry.0) {
            Some(j) => {
                proof {
                    lemma_assoc_get(g, j as int);
                }
                let other = &pb[j];
                ObjectProperty {
                    required: entry.1.required && other.1.required,
                    node_type: merge_nodes(&entry.1.node_type, &other.1.node_type),
                }
            },
            None => ObjectProperty { required: false, node_type: clone_node(&entry.1.node_type) },
        };
        out.push((entry.0.clone(), prop));
        i = i + 1;
    }
    proof {
        let h = fields_of(out@);
        assert forall|s: int, t: int| 0 <= s < t < h.len() implies key_lt(
            (#[trigger] h[s]).0,
            (#[trigger] h[t]).0,
        ) by {
            assert(h[s].0 == out[s].0@ && h[t].0 == out[t].0@);
            assert(key_lt(f[s].0, f[t].0));
        }
        assert(sorted_keys(h));
        lemma_sorted_distinct(h);
        assert forall|k: Seq<char>| #[trigger] assoc_map(h).contains_key(k) implies ma.contains_key(k)
            && assoc_map(h)[k] == target[k] by {
            let t = choose|t: int| 0 <= t < h.len() && (#[trigger] h[t]).0 == k;
            lemma_assoc_get(h, t);
            assert(f[t].0 == k);
        }
        assert forall|k: Seq<char>| ma.contains_key(k) implies #[trigger] assoc_map(h).contains_key(k) by {
            let t = choose|t: int| 0 <= t < f.len() && (#[trigger] f[t]).0 == k;
            assert(h[t].0 == k);
        }
    }
    let mut j: usize = 0;
    while j < pb.len()
        invariant
            j <= pb.len(),
            properties_wf(out@),
            forall|k: Seq<char>| #[trigger]
                assoc_map(fields_of(out@)).contains_key(k) <==> ma.contains_key(k) || exists|t: int|
                    0 <= t < j && (#[trigger] g[t]).0 == k,
            forall|k: Seq<char>| #[trigger]
                assoc_map(fields_of(out@)).contains_key(k) ==> assoc_map(fields_of(out@))[k] == target[k],
        decreases pb.len() - j,
    {
        let entry = &pb[j];
        let ghost before = assoc_map(fields_of(out@));
        proof {
            lemma_assoc_get(g, j as int);
        }
        match find_property(pa, &entry.0) {
            None => {
                let prop = ObjectProperty { required: false, node_type: clone_node(&entry.1.node_type) };
                insert_property(&mut out, entry.0.clone(), prop);
            },
            Some(i) => {
                assert(f[i as int].0 == entry.0@);
            },
        }
        proof {
            let after = assoc_map(fields_of(out@));
            assert(g[j as int].0 == entry.0@);
            assert forall|k: Seq<char>| #[trigger] after.contains_key(k) <==> ma.contains_key(k) || exists|
                t: int,
            |
                0 <= t < j + 1 && (#[trigger] g[t]).0 == k by {
                if exists|t: int| 0 <= t < j + 1 && (#[trigger] g[t]).0 == k {
                    let t = choose|t: int| 0 <= t < j + 1 && (#[trigger] g[t]).0 == k;
                    if t < j {
                        assert(before.contains_key(k));
                    }
                }
                if before.contains_key(k) && !ma.contains_key(k) {
                    let t = choose|t: int| 0 <= t < j && (#[trigger] g[t]).0 == k;
                    assert(0 <= t < j + 1 && g[t].0 == k);
                }
                if k == entry.0@ {
                    assert(g[j as int].0 == k);
                }
            }
        }
        j = j + 1;
    }
    proof {
        assert(assoc_map(fields_of(out@)) =~= target);
    }
    out
}

/// The merge of two canonical nodes.
pub fn merge_nodes(a: &NodeType, b: &NodeType) -> (r: NodeType)
    requires
        a.wf(),
        b.wf(),
    ensures
        r.wf(),
        r@ == merge_shapes(a@, b@),
    decreases a, b, 1int,
{
    if node_eq(a, b) {
        return clone_node(a);
    }
    match (a, b) {
        (NodeType::String(x), NodeType::String(y)) => string::merge(*x, *y),
        (NodeType::Object(x), NodeType::Object(y)) => {
            proof {
                lemma_merge_objects(a@, b@);
            }
            NodeType::Object(
                ObjectNode { properties: merge_properties(&x.properties, &y.properties) },
            )
        },
        (NodeType::Array(x), NodeType::Array(y)) => match (&x.items, &y.items) {
            (Some(p), Some(q)) => NodeType::Array(
                ArrayNode { items: Some(Box::new(merge_nodes(&**p, &**q))) },
            ),
            (Some(p), None) => NodeType::Array(ArrayNode { items: Some(Box::new(clone_node(&**p))) }),
            (None, Some(q)) => NodeType::Array(ArrayNode { items: Some(Box::new(clone_node(&**q))) }),
            (None, None) => NodeType::Array(ArrayNode { items: None }),
        },
        _ => merge_members(a, b),
    }
}

/// Merges two types into the least specific type that describes what either
/// of them describes.
pub fn merge_node_type(a: NodeType, b: NodeType) -> (r: NodeType)
    requires
        a.wf(),
        b.wf(),
    ensures
        r.wf(),
        r@ == merge_shapes(a@, b@),
{
    merge_nodes(&a, &b)
}

} // verus!
