//! Rendering: a type, and a hypothesis with its metadata, laid out as a
//! schema document.

use vstd::prelude::*;
use vstd::string::*;
use crate::equality::properties_wf;
use crate::json::{entries_of, models_of, Json, JsonValue};
use crate::merge::member_at;
use crate::model::{
    assoc_map, distinct_keys, fields_of, key_lt, kind_at, lemma_assoc_get,
    lemma_key_lt_irreflexive, lemma_key_lt_transitive, lemma_sorted_distinct, sorted_keys, Field,
    Format, Kind, NodeType, ObjectProperty, SchemaHypothesis, Shape,
};

verus! {

/// The name of a format in a schema document.
pub open spec fn format_name(f: Format) -> Seq<char> {
    match f {
        Format::DateTime => "date-time"@,
        Format::Date => "date"@,
        Format::Time => "time"@,
        Format::Uuid => "uuid"@,
    }
}

/// The entry that gives a schema its type.
pub open spec fn type_entry(name: Seq<char>) -> (Seq<char>, JsonValue) {
    ("type"@, JsonValue::String(name))
}

/// The names are strictly ascending.
pub open spec fn ascending(names: Seq<Seq<char>>) -> bool {
    forall|i: int, j: int| 0 <= i < j < names.len() ==> key_lt(#[trigger] names[i], #[trigger] names[j])
}

/// `names` lists exactly the names in `keys`, in ascending order.
pub open spec fn lists(names: Seq<Seq<char>>, keys: Set<Seq<char>>) -> bool {
    ascending(names) && forall|k: Seq<char>| #[trigger] names.contains(k) <==> keys.contains(k)
}

/// The names in `keys`, in ascending order.
pub open spec fn names_in_order(keys: Set<Seq<char>>) -> Seq<Seq<char>> {
    choose|names: Seq<Seq<char>>| lists(names, keys)
}

/// Those of the first `n` names whose field is required, in the order of the
/// names.
pub open spec fn required_names(names: Seq<Seq<char>>, fields: Map<Seq<char>, Field>, n: int) -> Seq<
    JsonValue,
>
    decreases n,
{
    if n <= 0 {
        Seq::empty()
    } else if fields[names[n - 1]].required {
        required_names(names, fields, n - 1).push(JsonValue::String(names[n - 1]))
    } else {
        required_names(names, fields, n - 1)
    }
}

/// The schemas of the members whose kind stands before place `r`, in the
/// order of the kinds.
pub open spec fn in_kind_order(schemas: Map<Kind, JsonValue>, r: int) -> Seq<JsonValue>
    decreases r,
{
    if r <= 0 {
        Seq::empty()
    } else if schemas.contains_key(kind_at(r - 1)) {
        in_kind_order(schemas, r - 1).push(schemas[kind_at(r - 1)])
    } else {
        in_kind_order(schemas, r - 1)
    }
}

/// The entries of the schema of a shape, in ascending order of their names.
///
/// A scalar has its type alone. A string adds its format if it has one, an
/// array the schema of its item if it has one. An object lists the schemas of
/// its properties and the names of the required ones, both in ascending
/// order of the names. A union lists the schemas of its members under
/// `anyOf`, in the order of their kinds.
pub open spec fn schema_entries(s: Shape) -> Seq<(Seq<char>, JsonValue)>
    decreases s, 1int,
{
    match s {
        Shape::Null => seq![type_entry("null"@)],
        Shape::Boolean => seq![type_entry("boolean"@)],
        Shape::Integer => seq![type_entry("integer"@)],
        Shape::Number => seq![type_entry("number"@)],
        Shape::Text(None) => seq![type_entry("string"@)],
        Shape::Text(Some(f)) => seq![
            ("format"@, JsonValue::String(format_name(f))),
            type_entry("string"@),
        ],
        Shape::Array(None) => seq![type_entry("array"@)],
        Shape::Array(Some(item)) => seq![
            ("items"@, JsonValue::Object(schema_entries(*item))),
            type_entry("array"@),
        ],
        Shape::Object(fields) => seq![
            (
                "properties"@,
                JsonValue::Object(property_schemas(s, names_in_order(fields.dom()))),
            ),
            (
                "required"@,
                JsonValue::Array(
                    required_names(
                        names_in_order(fields.dom()),
                        fields,
                        names_in_order(fields.dom()).len() as int,
                    ),
                ),
            ),
            type_entry("object"@),
        ],
        Shape::Any(_) => seq![("anyOf"@, JsonValue::Array(in_kind_order(member_schemas(s), 12)))],
    }
}

/// The schemas of the fields of an object under the given names, in the
/// order of the names.
pub open spec fn property_schemas(s: Shape, names: Seq<Seq<char>>) -> Seq<(Seq<char>, JsonValue)>
    decreases s, 0int,
{
    Seq::new(
        names.len(),
        |i: int|
            if 0 <= i < names.len() && s is Object && s->Object_0.contains_key(names[i]) {
                (names[i], JsonValue::Object(schema_entries(s->Object_0[names[i]].shape)))
            } else {
                (Seq::empty(), JsonValue::Null)
            },
    )
}

/// The schemas of the members of a union, each under its kind.
pub open spec fn member_schemas(s: Shape) -> Map<Kind, JsonValue>
    decreases s, 0int,
{
    Map::new(
        |k: Kind| s is Any && s->Any_0.contains_key(k),
        |k: Kind|
            if s is Any && s->Any_0.contains_key(k) {
                JsonValue::Object(schema_entries(s->Any_0[k]))
            } else {
                JsonValue::Null
            },
    )
}

/// The schemas of a list of fields, each under its name.
pub open spec fn field_schemas(fields: Seq<(Seq<char>, Field)>) -> Seq<(Seq<char>, JsonValue)> {
    Seq::new(fields.len(), |i: int| (fields[i].0, JsonValue::Object(schema_entries(fields[i].1.shape))))
}

/// The names of a list of fields.
pub open spec fn names_of(fields: Seq<(Seq<char>, Field)>) -> Seq<Seq<char>> {
    Seq::new(fields.len(), |i: int| fields[i].0)
}

/// Only one list holds given names in ascending order.
pub proof fn lemma_ascending_unique(a: Seq<Seq<char>>, b: Seq<Seq<char>>)
    requires
        ascending(a),
        ascending(b),
        forall|k: Seq<char>| #[trigger] a.contains(k) <==> b.contains(k),
    ensures
        a == b,
    decreases a.len(),
{
    if a.len() == 0 {
        if b.len() > 0 {
            assert(b.contains(b[0]));
            assert(a.contains(b[0]));
        }
        assert(a =~= b);
    } else {
        let x = a.last();
        assert(a.contains(x));
        assert(b.contains(x));
        let y = b.last();
        assert(b.contains(y));
        assert(a.contains(y));
        let ix = choose|i: int| 0 <= i < b.len() && b[i] == x;
        let iy = choose|i: int| 0 <= i < a.len() && a[i] == y;
        lemma_key_lt_irreflexive(x);
        if ix < b.len() - 1 {
            assert(key_lt(b[ix], b[b.len() - 1]));
            if iy < a.len() - 1 {
                assert(key_lt(a[iy], a[a.len() - 1]));
                lemma_key_lt_transitive(x, y, x);
            }
        }
        assert(x == y) by {
            if ix < b.len() - 1 {
                assert(key_lt(x, y));
                assert(iy == a.len() - 1);
            }
        }
        let a0 = a.drop_last();
        let b0 = b.drop_last();
        assert forall|k: Seq<char>| #[trigger] a0.contains(k) <==> b0.contains(k) by {
            if a0.contains(k) {
                let i = choose|i: int| 0 <= i < a0.len() && a0[i] == k;
                assert(a[i] == k);
                assert(key_lt(a[i], a[a.len() - 1]));
                assert(a.contains(k));
                assert(b.contains(k));
                let j = choose|j: int| 0 <= j < b.len() && b[j] == k;
                assert(j < b.len() - 1);
                assert(b0[j] == k);
            }
            if b0.contains(k) {
                let j = choose|j: int| 0 <= j < b0.len() && b0[j] == k;
                assert(b[j] == k);
                assert(key_lt(b[j], b[b.len() - 1]));
                assert(b.contains(k));
                assert(a.contains(k));
                let i = choose|i: int| 0 <= i < a.len() && a[i] == k;
                assert(i < a.len() - 1);
                assert(a0[i] == k);
            }
        }
        assert(ascending(a0)) by {
            assert forall|i: int, j: int| 0 <= i < j < a0.len() implies key_lt(
                #[trigger] a0[i],
                #[trigger] a0[j],
            ) by {
                assert(key_lt(a[i], a[j]));
            }
        }
        assert(ascending(b0)) by {
            assert forall|i: int, j: int| 0 <= i < j < b0.len() implies key_lt(
                #[trigger] b0[i],
                #[trigger] b0[j],
            ) by {
                assert(key_lt(b[i], b[j]));
            }
        }
        lemma_ascending_unique(a0, b0);
        assert(a =~= a0.push(x));
        assert(b =~= b0.push(y));
    }
}

/// The names of a canonical list of fields are the names of its map in
/// ascending order.
pub proof fn lemma_names_in_order(fields: Seq<(Seq<char>, Field)>)
    requires
        sorted_keys(fields),
    ensures
        names_in_order(assoc_map(fields).dom()) == names_of(fields),
{
    let names = names_of(fields);
    let keys = assoc_map(fields).dom();
    assert(ascending(names)) by {
        assert forall|i: int, j: int| 0 <= i < j < names.len() implies key_lt(
            #[trigger] names[i],
            #[trigger] names[j],
        ) by {
            assert(key_lt(fields[i].0, fields[j].0));
        }
    }
    assert forall|k: Seq<char>| #[trigger] names.contains(k) <==> keys.contains(k) by {
        if names.contains(k) {
            let i = choose|i: int| 0 <= i < names.len() && names[i] == k;
            assert(fields[i].0 == k);
        }
        if keys.contains(k) {
            let i = choose|i: int| 0 <= i < fields.len() && (#[trigger] fields[i]).0 == k;
            assert(names[i] == k);
        }
    }
    assert(lists(names, keys));
    let chosen = names_in_order(keys);
    assert(lists(chosen, keys));
    lemma_ascending_unique(chosen, names);
}

/// The identifier of the schema dialect that documents are written in.
pub open spec fn draft() -> Seq<char> {
    "http://json-schema.org/draft-07/schema#"@
}

/// The entries of the document of a hypothesis: the dialect, the metadata of
/// the hypothesis, and behind them the entries of the root if there is one.
pub open spec fn document_entries(h: SchemaHypothesis) -> Seq<(Seq<char>, JsonValue)> {
    seq![
        ("$schema"@, JsonValue::String(draft())),
        ("$id"@, JsonValue::String(h.id@)),
        ("title"@, JsonValue::String(h.title@)),
        ("description"@, JsonValue::String(h.description@)),
    ] + match h.root {
        Some(root) => schema_entries(root@),
        None => Seq::empty(),
    }
}

/// The name of a format in a schema document.
pub fn format_str(f: Format) -> (r: &'static str)
    ensures
        r@ == format_name(f),
{
    match f {
        Format::DateTime => "date-time",
        Format::Date => "date",
        Format::Time => "time",
        Format::Uuid => "uuid",
    }
}

/// An entry whose value is a string.
fn text_entry(key: &str, value: &str) -> (r: (String, Json))
    ensures
        r.0@ == key@,
        r.1@ == JsonValue::String(value@),
{
    (key.to_owned(), Json::String(value.to_owned()))
}

/// The names of the required properties, in the order of the properties.
fn render_required(props: &Vec<(String, ObjectProperty)>) -> (r: Vec<Json>)
    requires
        properties_wf(props@),
    ensures
        models_of(r@) == required_names(
            names_of(fields_of(props@)),
            assoc_map(fields_of(props@)),
            props.len() as int,
        ),
{
    let ghost f = fields_of(props@);
    let ghost names = names_of(f);
    let ghost map = assoc_map(f);
    proof {
        lemma_sorted_distinct(f);
    }
    let mut out: Vec<Json> = Vec::new();
    let mut i: usize = 0;
    assert(models_of(out@) =~= required_names(names, map, 0));
    while i < props.len()
        invariant
            i <= props.len(),
            f == fields_of(props@),
            names == names_of(f),
            map == assoc_map(f),
            distinct_keys(f),
            models_of(out@) == required_names(names, map, i as int),
        decreases props.len() - i,
    {
        let ghost before = models_of(out@);
        proof {
            lemma_assoc_get(f, i as int);
            assert(names[i as int] == f[i as int].0);
        }
        if props[i].1.required {
            out.push(Json::String(props[i].0.clone()));
            assert(models_of(out@) =~= before.push(JsonValue::String(props[i as int].0@)));
        }
        i = i + 1;
    }
    out
}

/// The schemas of the properties, each under its name.
fn render_properties(props: &Vec<(String, ObjectProperty)>) -> (r: Vec<(String, Json)>)
    requires
        properties_wf(props@),
    ensures
        entries_of(r@) == field_schemas(fields_of(props@)),
    decreases props,
{
    let mut out: Vec<(String, Json)> = Vec::new();
    let mut i: usize = 0;
    while i < props.len()
        invariant
            i <= props.len(),
            out.len() == i,
            properties_wf(props@),
            forall|t: int|
                0 <= t < i ==> (#[trigger] out[t]).0@ == props[t].0@ && out[t].1@ == JsonValue::Object(
                    schema_entries(props[t].1.node_type@),
                ),
        decreases props.len() - i,
    {
        let value = render(&props[i].1.node_type);
        out.push((props[i].0.clone(), value));
        i = i + 1;
    }
    assert(entries_of(out@) =~= field_schemas(fields_of(props@)));
    out
}

/// The schemas of the members of a union, in the order of their kinds.
#[verifier::loop_isolation(false)]
fn render_members(n: &NodeType) -> (r: Vec<Json>)
    requires
        n.wf(),
        n is Any,
    ensures
        models_of(r@) == in_kind_order(member_schemas(n@), 12),
    decreases n, 0int,
{
    let ghost schemas = member_schemas(n@);
    let mut out: Vec<Json> = Vec::new();
    let mut r: u8 = 0;
    assert(models_of(out@) =~= in_kind_order(schemas, 0));
    while r < 12
        invariant
            r <= 12,
            models_of(out@) == in_kind_order(schemas, r as int),
        decreases 12 - r,
    {
        let ghost before = models_of(out@);
        match member_at(n, r) {
            Some(x) => {
                proof {
                    let i = choose|i: int| 0 <= i < n->Any_0.nodes.len() && *x == n->Any_0.nodes[i];
                    assert(decreases_to!(n->Any_0.nodes => n->Any_0.nodes[i]));
                }
                let value = render(x);
                out.push(value);
                assert(models_of(out@) =~= before.push(JsonValue::Object(schema_entries(x@))));
            },
            None => {},
        }
        r = r + 1;
    }
    out
}

/// The entries of the schema of a canonical node.
pub fn render_entries(n: &NodeType) -> (r: Vec<(String, Json)>)
    requires
        n.wf(),
    ensures
        entries_of(r@) == schema_entries(n@),
    decreases n, 1int,
{
    let mut out: Vec<(String, Json)> = Vec::new();
    match n {
        NodeType::Null => {
            out.push(text_entry("type", "null"));
        },
        NodeType::Boolean => {
            out.push(text_entry("type", "boolean"));
        },
        NodeType::Integer(_) => {
            out.push(text_entry("type", "integer"));
        },
        NodeType::Number(_) => {
            out.push(text_entry("type", "number"));
        },
        NodeType::String(s) => {
            match s.format {
                None => {},
                Some(f) => {
                    out.push(text_entry("format", format_str(f)));
                },
            }
            out.push(text_entry("type", "string"));
        },
        NodeType::Array(a) => {
            match &a.items {
                None => {},
                Some(item) => {
                    let value = render(&**item);
                    out.push(("items".to_owned(), value));
                },
            }
            out.push(text_entry("type", "array"));
        },
        NodeType::Object(o) => {
            let properties = Json::Object(render_properties(&o.properties));
            let required = Json::Array(render_required(&o.properties));
            out.push(("properties".to_owned(), properties));
            out.push(("required".to_owned(), required));
            out.push(text_entry("type", "object"));
            proof {
                let f = fields_of(o.properties@);
                let fields = assoc_map(f);
                lemma_sorted_distinct(f);
                lemma_names_in_order(f);
                let names = names_in_order(fields.dom());
                let listed = property_schemas(n@, names);
                assert forall|i: int| 0 <= i < f.len() implies #[trigger] listed[i] == field_schemas(f)[i] by {
                    lemma_assoc_get(f, i);
                }
                assert(listed =~= field_schemas(f));
            }
        },
        NodeType::Any(_) => {
            let members = Json::Array(render_members(n));
            out.push(("anyOf".to_owned(), members));
        },
    }
    assert(entries_of(out@) =~= schema_entries(n@));
    out
}

/// The schema of a canonical node.
pub fn render(n: &NodeType) -> (r: Json)
    requires
        n.wf(),
    ensures
        r@ == JsonValue::Object(schema_entries(n@)),
    decreases n, 2int,
{
    Json::Object(render_entries(n))
}

/// The schema document of a hypothesis.
pub fn render_json_schema(schema: &SchemaHypothesis) -> (r: Json)
    requires
        schema.wf(),
    ensures
        r@ == JsonValue::Object(document_entries(*schema)),
{
    let mut out: Vec<(String, Json)> = Vec::new();
    out.push(text_entry("$schema", "http://json-schema.org/draft-07/schema#"));
    out.push(("$id".to_owned(), Json::String(schema.id.clone())));
    out.push(("title".to_owned(), Json::String(schema.title.clone())));
    out.push(("description".to_owned(), Json::String(schema.description.clone())));
    let ghost head = entries_of(out@);
    match &schema.root {
        Some(root) => {
            let mut rest = render_entries(root);
            let ghost tail = entries_of(rest@);
            out.append(&mut rest);
            assert(entries_of(out@) =~= head + tail);
        },
        None => {},
    }
    assert(entries_of(out@) =~= document_entries(*schema));
    Json::Object(out)
}

} // verus!
