//! What holds of generation and merging: a generated type describes the
//! document it was generated from, and a merge describes whatever either
//! side describes.

use vstd::prelude::*;
use vstd::utf8::encode_utf8;
use crate::construct::{collapsed, fold_members, fold_pairs, format_of, single};
use crate::format::{valid_date, valid_datetime, valid_time, valid_uuid};
use crate::generate::{element_shapes, entry_fields, item_of, shape_of};
use crate::json::JsonValue;
use crate::merge::{
    in_union, lemma_merge_commutative, lemma_merge_keeps_kind, merge_shapes,
};
use crate::model::{
    assoc_map, fields_of, kind_of, lemma_assoc_get, lemma_sorted_distinct,
    lemma_sorted_kinds_distinct, members, members_of, Field, Format, Kind, NodeType, Shape,
};

verus! {

/// The bytes `s` are written in the format `f`.
pub open spec fn has_format(f: Format, s: Seq<u8>) -> bool {
    match f {
        Format::DateTime => valid_datetime(s),
        Format::Date => valid_date(s),
        Format::Time => valid_time(s),
        Format::Uuid => valid_uuid(s),
    }
}

/// The entries of an object by name, a later entry taking the place of an
/// earlier one of the same name.
pub open spec fn value_of(entries: Seq<(Seq<char>, JsonValue)>) -> Map<Seq<char>, JsonValue> {
    fold_pairs(entries, entries.len() as int)
}

/// The shape `s` describes the value `v`.
///
/// A scalar shape describes the values of its kind, a number also the
/// integers. A string shape describes the strings written in its format, or
/// all strings if it has none. An array describes the arrays whose elements
/// its item describes, without an item only the empty array. An object
/// describes the objects that have all its required properties and no
/// others than its properties, each described by the type of the property.
/// A union describes what one of its members describes.
pub open spec fn describes(s: Shape, v: JsonValue) -> bool
    decreases s,
{
    match s {
        Shape::Null => v is Null,
        Shape::Boolean => v is Bool,
        Shape::Integer => v is Integer,
        Shape::Number => v is Float || v is Integer,
        Shape::Text(f) => v is String && (f is Some ==> has_format(f->0, encode_utf8(v->String_0))),
        Shape::Array(item) => v is Array && match item {
            Some(x) => forall|i: int|
                0 <= i < v->Array_0.len() ==> describes(*x, #[trigger] v->Array_0[i]),
            None => v->Array_0.len() == 0,
        },
        Shape::Object(fields) => {
            &&& v is Object
            &&& forall|k: Seq<char>| #[trigger]
                value_of(v->Object_0).contains_key(k) ==> fields.contains_key(k) && describes(
                    fields[k].shape,
                    value_of(v->Object_0)[k],
                )
            &&& forall|k: Seq<char>| #[trigger]
                fields.contains_key(k) && fields[k].required ==> value_of(v->Object_0).contains_key(k)
        },
        Shape::Any(ms) => exists|k: Kind| #[trigger] ms.contains_key(k) && describes(ms[k], v),
    }
}

/// Every member of a union inside `s` stands under its own kind.
pub open spec fn coherent(s: Shape) -> bool
    decreases s,
{
    match s {
        Shape::Array(Some(x)) => coherent(*x),
        Shape::Object(fields) => forall|k: Seq<char>| #[trigger]
            fields.contains_key(k) ==> coherent(fields[k].shape),
        Shape::Any(ms) => forall|k: Kind| #[trigger]
            ms.contains_key(k) ==> kind_of(ms[k]) == k && coherent(ms[k]),
        _ => true,
    }
}

/// Merging keeps every member of a union under its own kind.
pub proof fn lemma_merge_coherent(a: Shape, b: Shape)
    requires
        coherent(a),
        coherent(b),
    ensures
        coherent(merge_shapes(a, b)),
    decreases a, b,
{
    let r = merge_shapes(a, b);
    if a == b {
    } else if a is Text && b is Text && (a->Text_0 is None || b->Text_0 is None) {
    } else if a is Object && b is Object {
        let pa = a->Object_0;
        let pb = b->Object_0;
        assert forall|k: Seq<char>| #[trigger] r->Object_0.contains_key(k) implies coherent(
            r->Object_0[k].shape,
        ) by {
            if pa.contains_key(k) && pb.contains_key(k) {
                lemma_merge_coherent(pa[k].shape, pb[k].shape);
            }
        }
    } else if a is Array && b is Array {
        match (a->Array_0, b->Array_0) {
            (Some(x), Some(y)) => {
                lemma_merge_coherent(*x, *y);
            },
            _ => {},
        }
    } else {
        let ma = members(a);
        let mb = members(b);
        assert forall|k: Kind| #[trigger] r->Any_0.contains_key(k) implies kind_of(r->Any_0[k]) == k
            && coherent(r->Any_0[k]) by {
            if ma.contains_key(k) && mb.contains_key(k) {
                if a is Any {
                    if b is Any {
                        lemma_merge_coherent(a->Any_0[k], b->Any_0[k]);
                        lemma_merge_keeps_kind(a->Any_0[k], b->Any_0[k]);
                    } else {
                        lemma_merge_coherent(a->Any_0[k], b);
                        lemma_merge_keeps_kind(a->Any_0[k], b);
                    }
                } else if b is Any {
                    lemma_merge_coherent(a, b->Any_0[k]);
                    lemma_merge_keeps_kind(a, b->Any_0[k]);
                }
            }
        }
    }
}

/// A merge describes whatever its first side describes.
pub proof fn lemma_merge_widens_left(a: Shape, b: Shape, v: JsonValue)
    requires
        coherent(a),
        coherent(b),
        describes(a, v),
    ensures
        describes(merge_shapes(a, b), v),
    decreases a, b,
{
    let r = merge_shapes(a, b);
    if a == b {
    } else if a is Text && b is Text && (a->Text_0 is None || b->Text_0 is None) {
    } else if a is Object && b is Object {
        let pa = a->Object_0;
        let pb = b->Object_0;
        let m = value_of(v->Object_0);
        assert forall|k: Seq<char>| #[trigger] m.contains_key(k) implies r->Object_0.contains_key(k)
            && describes(r->Object_0[k].shape, m[k]) by {
            assert(pa.contains_key(k));
            if pb.contains_key(k) {
                lemma_merge_widens_left(pa[k].shape, pb[k].shape, m[k]);
            }
        }
        assert forall|k: Seq<char>| #[trigger]
            r->Object_0.contains_key(k) && r->Object_0[k].required implies m.contains_key(k) by {
            assert(pa.contains_key(k) && pa[k].required);
        }
    } else if a is Array && b is Array {
        match (a->Array_0, b->Array_0) {
            (Some(x), Some(y)) => {
                assert forall|i: int| 0 <= i < v->Array_0.len() implies describes(
                    merge_shapes(*x, *y),
                    #[trigger] v->Array_0[i],
                ) by {
                    lemma_merge_widens_left(*x, *y, v->Array_0[i]);
                }
            },
            _ => {},
        }
    } else {
        let ma = members(a);
        let mb = members(b);
        let k = if a is Any {
            choose|k: Kind| #[trigger] a->Any_0.contains_key(k) && describes(a->Any_0[k], v)
        } else {
            kind_of(a)
        };
        let x = ma[k];
        assert(ma.contains_key(k) && describes(x, v) && kind_of(x) == k);
        lemma_merge_coherent(a, b);
        if in_union(ma, mb, k) {
            if mb.contains_key(k) {
                if a is Any {
                    if b is Any {
                        lemma_merge_widens_left(a->Any_0[k], b->Any_0[k], v);
                    } else {
                        lemma_merge_widens_left(a->Any_0[k], b, v);
                    }
                } else if b is Any {
                    lemma_merge_widens_left(a, b->Any_0[k], v);
                }
            }
            assert(r->Any_0.contains_key(k) && describes(r->Any_0[k], v));
        } else {
            let plain = Kind::Text(None);
            assert(in_union(ma, mb, plain));
            assert(r->Any_0.contains_key(plain));
            assert(kind_of(r->Any_0[plain]) == plain);
            assert(r->Any_0[plain] == Shape::Text(None));
            assert(v is String);
            assert(r->Any_0.contains_key(plain) && describes(r->Any_0[plain], v));
        }
    }
}

/// A merge describes whatever its second side describes.
pub proof fn lemma_merge_widens_right(a: Shape, b: Shape, v: JsonValue)
    requires
        coherent(a),
        coherent(b),
        describes(b, v),
    ensures
        describes(merge_shapes(a, b), v),
{
    lemma_merge_commutative(a, b);
    lemma_merge_widens_left(b, a, v);
}

/// A union built from coherent shapes is coherent.
pub proof fn lemma_fold_coherent(shapes: Seq<Shape>, n: int)
    requires
        0 <= n <= shapes.len(),
        forall|i: int| 0 <= i < shapes.len() ==> coherent(#[trigger] shapes[i]),
    ensures
        coherent(Shape::Any(fold_members(shapes, n))),
    decreases n,
{
    if n > 0 {
        lemma_fold_coherent(shapes, n - 1);
        let s = shapes[n - 1];
        assert(coherent(Shape::Any(single(s))));
        lemma_merge_coherent(Shape::Any(fold_members(shapes, n - 1)), Shape::Any(single(s)));
    }
}

/// A union describes whatever one of the shapes it was built from describes.
pub proof fn lemma_fold_describes(shapes: Seq<Shape>, n: int, i: int, v: JsonValue)
    requires
        0 <= i < n <= shapes.len(),
        forall|i: int| 0 <= i < shapes.len() ==> coherent(#[trigger] shapes[i]),
        describes(shapes[i], v),
    ensures
        describes(Shape::Any(fold_members(shapes, n)), v),
    decreases n,
{
    let s = shapes[n - 1];
    let before = Shape::Any(fold_members(shapes, n - 1));
    let next = Shape::Any(single(s));
    lemma_fold_coherent(shapes, n - 1);
    assert(coherent(next));
    if i == n - 1 {
        assert(single(s).contains_key(kind_of(s)) && describes(single(s)[kind_of(s)], v));
        lemma_merge_widens_right(before, next, v);
    } else {
        lemma_fold_describes(shapes, n - 1, i, v);
        lemma_merge_widens_left(before, next, v);
    }
}

/// What a union collapses to describes whatever the union describes.
pub proof fn lemma_collapsed_describes(m: Map<Kind, Shape>, v: JsonValue)
    requires
        describes(Shape::Any(m), v),
    ensures
        collapsed(m) is Some,
        describes(collapsed(m)->0, v),
{
    let k = choose|k: Kind| #[trigger] m.contains_key(k) && describes(m[k], v);
    assert(m.dom().contains(k));
    if exists|q: Kind| m.dom() == set![q] {
        let q = choose|q: Kind| m.dom() == set![q];
        assert(set![q].contains(k));
    }
}

/// The two maps that the entries of an object give rise to, of values and
/// of fields, have the same names, and under each name the field of the
/// value.
pub proof fn lemma_entry_fields(entries: Seq<(Seq<char>, JsonValue)>, n: int, k: Seq<char>)
    requires
        0 <= n <= entries.len(),
    ensures
        fold_pairs(entry_fields(entries), n).contains_key(k) <==> fold_pairs(entries, n).contains_key(k),
        fold_pairs(entries, n).contains_key(k) ==> exists|j: int|
            0 <= j < n && fold_pairs(entries, n)[k] == (#[trigger] entries[j]).1 && fold_pairs(
                entry_fields(entries),
                n,
            )[k] == (Field { required: true, shape: shape_of(entries[j].1) }),
    decreases n,
{
    if n > 0 {
        lemma_entry_fields(entries, n - 1, k);
        if entries[n - 1].0 == k {
            assert(fold_pairs(entries, n)[k] == entries[n - 1].1);
        } else if fold_pairs(entries, n).contains_key(k) {
            let j = choose|j: int|
                0 <= j < n - 1 && fold_pairs(entries, n - 1)[k] == (#[trigger] entries[j]).1
                    && fold_pairs(entry_fields(entries), n - 1)[k] == (Field {
                    required: true,
                    shape: shape_of(entries[j].1),
                });
            assert(0 <= j < n && fold_pairs(entries, n)[k] == entries[j].1);
        }
    }
}

/// A generated shape is coherent.
pub proof fn lemma_generated_coherent(v: JsonValue)
    ensures
        coherent(shape_of(v)),
    decreases v,
{
    match v {
        JsonValue::Array(items) => {
            let shapes = element_shapes(items);
            assert forall|i: int| 0 <= i < shapes.len() implies coherent(#[trigger] shapes[i]) by {
                lemma_generated_coherent(items[i]);
            }
            lemma_fold_coherent(shapes, shapes.len() as int);
            let m = fold_members(shapes, shapes.len() as int);
            if exists|q: Kind| m.dom() == set![q] {
                let q = choose|q: Kind| m.dom() == set![q];
                assert(set![q].contains(q));
                assert(m.contains_key(q));
            }
        },
        JsonValue::Object(entries) => {
            let fields = fold_pairs(entry_fields(entries), entries.len() as int);
            assert forall|k: Seq<char>| #[trigger] fields.contains_key(k) implies coherent(
                fields[k].shape,
            ) by {
                lemma_entry_fields(entries, entries.len() as int, k);
                let j = choose|j: int|
                    0 <= j < entries.len() && fold_pairs(entries, entries.len() as int)[k] == (
                    #[trigger] entries[j]).1 && fields[k] == (Field {
                        required: true,
                        shape: shape_of(entries[j].1),
                    });
                lemma_generated_coherent(entries[j].1);
            }
        },
        _ => {},
    }
}

/// The shape generated from a value describes that value.
pub proof fn lemma_generated_describes(v: JsonValue)
    ensures
        describes(shape_of(v), v),
    decreases v,
{
    match v {
        JsonValue::Array(items) => {
            let shapes = element_shapes(items);
            assert forall|i: int| 0 <= i < shapes.len() implies coherent(#[trigger] shapes[i]) by {
                lemma_generated_coherent(items[i]);
            }
            let m = fold_members(shapes, shapes.len() as int);
            if items.len() > 0 {
                assert forall|i: int| 0 <= i < items.len() implies item_of(shapes) is Some && describes(
                    item_of(shapes)->0,
                    #[trigger] items[i],
                ) by {
                    lemma_generated_describes(items[i]);
                    lemma_fold_describes(shapes, shapes.len() as int, i, items[i]);
                    lemma_collapsed_describes(m, items[i]);
                }
                assert(item_of(shapes) is Some) by {
                    assert(item_of(shapes) is Some && describes(item_of(shapes)->0, items[0]));
                }
            } else {
                assert(m.dom() =~= Set::<Kind>::empty());
            }
        },
        JsonValue::Object(entries) => {
            let fields = fold_pairs(entry_fields(entries), entries.len() as int);
            let m = value_of(entries);
            assert forall|k: Seq<char>| #[trigger] m.contains_key(k) implies fields.contains_key(k)
                && describes(fields[k].shape, m[k]) by {
                lemma_entry_fields(entries, entries.len() as int, k);
                let j = choose|j: int|
                    0 <= j < entries.len() && m[k] == (#[trigger] entries[j]).1 && fields[k] == (Field {
                        required: true,
                        shape: shape_of(entries[j].1),
                    });
                lemma_generated_describes(entries[j].1);
            }
            assert forall|k: Seq<char>| #[trigger]
                fields.contains_key(k) && fields[k].required implies m.contains_key(k) by {
                lemma_entry_fields(entries, entries.len() as int, k);
            }
        },
        JsonValue::String(s) => {
            assert(format_of(encode_utf8(s)) is Some ==> has_format(
                format_of(encode_utf8(s))->0,
                encode_utf8(s),
            ));
        },
        _ => {},
    }
}

/// The merge of the shapes generated from two values describes both values.
pub proof fn lemma_merge_sound(d1: JsonValue, d2: JsonValue)
    ensures
        describes(merge_shapes(shape_of(d1), shape_of(d2)), d1),
        describes(merge_shapes(shape_of(d1), shape_of(d2)), d2),
{
    lemma_generated_coherent(d1);
    lemma_generated_coherent(d2);
    lemma_generated_describes(d1);
    lemma_generated_describes(d2);
    lemma_merge_widens_left(shape_of(d1), shape_of(d2), d1);
    lemma_merge_widens_right(shape_of(d1), shape_of(d2), d2);
}


/// The shape of a canonical node is coherent.
pub proof fn lemma_canonical_coherent(n: NodeType)
    requires
        n.wf(),
    ensures
        coherent(n@),
    decreases n,
{
    match n {
        NodeType::Array(a) => {
            match a.items {
                Some(item) => {
                    lemma_canonical_coherent(*item);
                },
                None => {},
            }
        },
        NodeType::Object(o) => {
            let f = fields_of(o.properties@);
            lemma_sorted_distinct(f);
            assert forall|k: Seq<char>| #[trigger] assoc_map(f).contains_key(k) implies coherent(
                assoc_map(f)[k].shape,
            ) by {
                let i = choose|i: int| 0 <= i < f.len() && (#[trigger] f[i]).0 == k;
                lemma_assoc_get(f, i);
                lemma_canonical_coherent(o.properties[i].1.node_type);
            }
        },
        NodeType::Any(a) => {
            let m = members_of(a.nodes@);
            lemma_sorted_kinds_distinct(m);
            assert forall|k: Kind| #[trigger] assoc_map(m).contains_key(k) implies kind_of(
                assoc_map(m)[k],
            ) == k && coherent(assoc_map(m)[k]) by {
                let i = choose|i: int| 0 <= i < m.len() && (#[trigger] m[i]).0 == k;
                lemma_assoc_get(m, i);
                lemma_canonical_coherent(a.nodes[i]);
            }
        },
        _ => {},
    }
}

/// The merge of two canonical nodes describes whatever either of them
/// describes: a hypothesis never comes to reject what it accepted.
pub proof fn lemma_merge_never_narrows(a: NodeType, b: NodeType, v: JsonValue)
    requires
        a.wf(),
        b.wf(),
        describes(a@, v) || describes(b@, v),
    ensures
        describes(merge_shapes(a@, b@), v),
{
    lemma_canonical_coherent(a);
    lemma_canonical_coherent(b);
    if describes(a@, v) {
        lemma_merge_widens_left(a@, b@, v);
    } else {
        lemma_merge_widens_right(a@, b@, v);
    }
}

} // verus!
