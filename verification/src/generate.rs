//! Generation: the type of one JSON document.

use vstd::prelude::*;
use vstd::string::*;
use vstd::utf8::encode_utf8;
use crate::construct::{
    collapsed, detect_format, fold_members, fold_pairs, format_of, shapes_of, single,
};
use crate::equality::properties_wf;
use crate::json::{entries_of, models_of, Json, JsonValue};
use crate::merge::{in_union, lemma_assoc_empty};
use crate::model::{
    assoc_map, fields_of, insert_property, kind_of, members, AnyNode, ArrayNode, Field,
    IntegerNode, Kind, NodeType, NumberNode, ObjectNode, ObjectProperty, Shape, StringNode,
};

verus! {

/// The shapes of the elements of an array.
pub open spec fn element_shapes(items: Seq<JsonValue>) -> Seq<Shape>
    decreases items,
{
    Seq::new(
        items.len(),
        |i: int|
            if 0 <= i < items.len() {
                shape_of(items[i])
            } else {
                Shape::Null
            },
    )
}

/// The fields that the entries of an object give rise to: every one required.
pub open spec fn entry_fields(entries: Seq<(Seq<char>, JsonValue)>) -> Seq<(Seq<char>, Field)>
    decreases entries,
{
    Seq::new(
        entries.len(),
        |i: int|
            if 0 <= i < entries.len() {
                (entries[i].0, Field { required: true, shape: shape_of(entries[i].1) })
            } else {
                (Seq::empty(), Field { required: false, shape: Shape::Null })
            },
    )
}

/// The item of an array with the given element shapes: none for no
/// element, the shape itself if all elements share one, their union
/// otherwise.
pub open spec fn item_of(shapes: Seq<Shape>) -> Option<Shape> {
    collapsed(fold_members(shapes, shapes.len() as int))
}

/// The shape of a JSON value. Scalars have the shape of their kind, a string
/// carries the format it is recognised to have, an array carries the item of
/// its elements, and an object has one required field for each entry.
pub open spec fn shape_of(v: JsonValue) -> Shape
    decreases v,
{
    match v {
        JsonValue::Null => Shape::Null,
        JsonValue::Bool(_) => Shape::Boolean,
        JsonValue::Integer(_) => Shape::Integer,
        JsonValue::Float(_) => Shape::Number,
        JsonValue::String(s) => Shape::Text(format_of(encode_utf8(s))),
        JsonValue::Array(items) => Shape::Array(
            match item_of(element_shapes(items)) {
                Some(s) => Some(Box::new(s)),
                None => None,
            },
        ),
        JsonValue::Object(entries) => Shape::Object(
            fold_pairs(entry_fields(entries), entries.len() as int),
        ),
    }
}

/// A union that has taken in at least one shape has a member.
pub proof fn lemma_fold_members_nonempty(shapes: Seq<Shape>, n: int)
    requires
        1 <= n <= shapes.len(),
    ensures
        fold_members(shapes, n).dom() != Set::<Kind>::empty(),
{
    let m = fold_members(shapes, n - 1);
    let s = shapes[n - 1];
    let a = Shape::Any(m);
    let b = Shape::Any(single(s));
    let r = fold_members(shapes, n);
    assert(single(s).contains_key(kind_of(s)));
    if a == b {
        assert(r == m);
        assert(r.dom().contains(kind_of(s)));
    } else {
        let k = kind_of(s);
        if in_union(members(a), members(b), k) {
            assert(r.dom().contains(k));
        } else {
            assert(in_union(members(a), members(b), Kind::Text(None)));
            assert(r.dom().contains(Kind::Text(None)));
        }
    }
}

/// The properties of the object with the given entries.
pub fn generate_properties(entries: &Vec<(String, Json)>) -> (r: Vec<(String, ObjectProperty)>)
    ensures
        properties_wf(r@),
        assoc_map(fields_of(r@)) == fold_pairs(
            entry_fields(entries_of(entries@)),
            entries.len() as int,
        ),
    decreases entries,
{
    let ghost target = entry_fields(entries_of(entries@));
    let mut out: Vec<(String, ObjectProperty)> = Vec::new();
    proof {
        lemma_assoc_empty::<Seq<char>, Field>();
        assert(fields_of(out@) =~= Seq::empty());
    }
    let mut i: usize = 0;
    while i < entries.len()
        invariant
            i <= entries.len(),
            properties_wf(out@),
            target == entry_fields(entries_of(entries@)),
            assoc_map(fields_of(out@)) == fold_pairs(target, i as int),
        decreases entries.len() - i,
    {
        let entry = &entries[i];
        let node = generate(&entry.1);
        assert(target[i as int] == (entry.0@, Field { required: true, shape: node@ }));
        insert_property(&mut out, entry.0.clone(), ObjectProperty { required: true, node_type: node });
        i = i + 1;
    }
    out
}

/// The types of the elements of an array.
fn generate_each(values: &Vec<Json>) -> (r: Vec<NodeType>)
    ensures
        r.len() == values.len(),
        forall|i: int| 0 <= i < r.len() ==> (#[trigger] r[i]).wf(),
        shapes_of(r@) == element_shapes(models_of(values@)),
    decreases values, 0int,
{
    let mut out: Vec<NodeType> = Vec::new();
    let mut i: usize = 0;
    while i < values.len()
        invariant
            i <= values.len(),
            out.len() == i,
            forall|t: int| 0 <= t < i ==> (#[trigger] out[t]).wf() && out[t]@ == shape_of(values[t].model()),
        decreases values.len() - i,
    {
        let node = generate(&values[i]);
        out.push(node);
        i = i + 1;
    }
    proof {
        assert(shapes_of(out@) =~= element_shapes(models_of(values@)));
    }
    out
}

/// The type that describes every element of a non-empty array: the types
/// of the elements folded into one union, and the union's only member in
/// its place if it has just one.
pub fn generate_node_type_for_array_values(values: &Vec<Json>) -> (r: NodeType)
    requires
        values.len() > 0,
    ensures
        r.wf(),
        Some(r@) == item_of(element_shapes(models_of(values@))),
    decreases values, 1int,
{
    let types = generate_each(values);
    proof {
        lemma_fold_members_nonempty(shapes_of(types@), types.len() as int);
    }
    match AnyNode::new(types).collapse() {
        Some(item) => item,
        None => NodeType::Null,
    }
}

/// The type of one JSON document.
pub fn generate(doc: &Json) -> (r: NodeType)
    ensures
        r.wf(),
        r@ == shape_of(doc@),
    decreases doc,
{
    match doc {
        Json::Null => NodeType::Null,
        Json::Bool(_) => NodeType::Boolean,
        Json::Integer(_) => NodeType::Integer(IntegerNode::new()),
        Json::Float(_) => NodeType::Number(NumberNode::new()),
        Json::String(s) => NodeType::String(StringNode { format: detect_format(s.as_str()) }),
        Json::Array(values) => {
            if values.len() == 0 {
                proof {
                    lemma_assoc_empty::<Kind, Shape>();
                    assert(fold_members(element_shapes(models_of(values@)), 0).dom() =~= Set::<Kind>::empty());
                }
                NodeType::Array(ArrayNode { items: None })
            } else {
                let item = generate_node_type_for_array_values(values);
                NodeType::Array(ArrayNode { items: Some(Box::new(item)) })
            }
        },
        Json::Object(entries) => NodeType::Object(
            ObjectNode { properties: generate_properties(entries) },
        ),
    }
}

} // verus!
