//! The type model: the node types a schema is built from, the mathematical
//! shape each of them stands for, and the canonical form in which they are
//! kept.

use vstd::prelude::*;

verus! {

/// A recognised textual encoding of a string.
#[derive(Clone, Copy, Debug, PartialEq, Eq, PartialOrd, Ord, Hash, Structural)]
pub enum Format {
    DateTime,
    Date,
    Time,
    Uuid,
}

/// A string, with the format that every observed value had, if any.
#[derive(Clone, Copy, Debug, PartialEq, Eq, PartialOrd, Ord)]
pub struct StringNode {
    pub format: Option<Format>,
}

/// A number without a fractional part.
#[derive(Clone, Copy, Debug, PartialEq, Eq, PartialOrd, Ord)]
pub struct IntegerNode {}

/// A number with a fractional part.
#[derive(Clone, Copy, Debug, PartialEq, Eq, PartialOrd, Ord)]
pub struct NumberNode {}

/// An array; `items` is absent as long as only empty arrays were observed.
#[derive(Debug, PartialEq, Eq, PartialOrd, Ord)]
pub struct ArrayNode {
    pub items: Option<Box<NodeType>>,
}

/// One property of an object.
#[derive(Debug, PartialEq, Eq, PartialOrd, Ord)]
pub struct ObjectProperty {
    pub required: bool,
    pub node_type: NodeType,
}

/// An object: its properties by name, in ascending order of the names.
#[derive(Debug, PartialEq, Eq, PartialOrd, Ord)]
pub struct ObjectNode {
    pub properties: Vec<(String, ObjectProperty)>,
}

/// A union of shapes, with at most one member of each kind, in ascending
/// order of the kinds.
#[derive(Debug, PartialEq, Eq, PartialOrd, Ord)]
pub struct AnyNode {
    pub nodes: Vec<NodeType>,
}

/// A node of the structural type model. The variants are declared in the
/// order in which they sort.
#[derive(Debug, PartialEq, Eq, PartialOrd, Ord)]
pub enum NodeType {
    Null,
    Boolean,
    Integer(IntegerNode),
    Number(NumberNode),
    String(StringNode),
    Array(ArrayNode),
    Object(ObjectNode),
    Any(AnyNode),
}

/// The accumulated description of all documents observed on one stream.
#[derive(Debug, PartialEq, Eq)]
pub struct SchemaHypothesis {
    pub id: String,
    pub title: String,
    pub description: String,
    pub root: Option<NodeType>,
}

/// What a union holds at most one member of.
pub enum Kind {
    Null,
    Boolean,
    Integer,
    Number,
    Text(Option<Format>),
    Array,
    Object,
    Any,
}

/// The mathematical value of a node type: objects are maps from names to
/// fields and unions are maps from kinds to members, so that neither depends
/// on an order of insertion.
pub enum Shape {
    Null,
    Boolean,
    Integer,
    Number,
    Text(Option<Format>),
    Array(Option<Box<Shape>>),
    Object(Map<Seq<char>, Field>),
    Any(Map<Kind, Shape>),
}

/// The mathematical value of an object property.
pub struct Field {
    pub required: bool,
    pub shape: Shape,
}

/// The kind of a shape.
pub open spec fn kind_of(s: Shape) -> Kind {
    match s {
        Shape::Null => Kind::Null,
        Shape::Boolean => Kind::Boolean,
        Shape::Integer => Kind::Integer,
        Shape::Number => Kind::Number,
        Shape::Text(f) => Kind::Text(f),
        Shape::Array(_) => Kind::Array,
        Shape::Object(_) => Kind::Object,
        Shape::Any(_) => Kind::Any,
    }
}

/// The place of a kind in the total order of the kinds.
pub open spec fn rank(k: Kind) -> int {
    match k {
        Kind::Null => 0,
        Kind::Boolean => 1,
        Kind::Integer => 2,
        Kind::Number => 3,
        Kind::Text(None) => 4,
        Kind::Text(Some(Format::DateTime)) => 5,
        Kind::Text(Some(Format::Date)) => 6,
        Kind::Text(Some(Format::Time)) => 7,
        Kind::Text(Some(Format::Uuid)) => 8,
        Kind::Array => 9,
        Kind::Object => 10,
        Kind::Any => 11,
    }
}

/// The kind at a place of the total order.
pub open spec fn kind_at(r: int) -> Kind {
    if r == 0 {
        Kind::Null
    } else if r == 1 {
        Kind::Boolean
    } else if r == 2 {
        Kind::Integer
    } else if r == 3 {
        Kind::Number
    } else if r == 4 {
        Kind::Text(None)
    } else if r == 5 {
        Kind::Text(Some(Format::DateTime))
    } else if r == 6 {
        Kind::Text(Some(Format::Date))
    } else if r == 7 {
        Kind::Text(Some(Format::Time))
    } else if r == 8 {
        Kind::Text(Some(Format::Uuid))
    } else if r == 9 {
        Kind::Array
    } else if r == 10 {
        Kind::Object
    } else {
        Kind::Any
    }
}

/// Every kind has a place from 0 to 11, and no two kinds share one.
pub proof fn lemma_rank_kind(k: Kind)
    ensures
        0 <= rank(k) <= 11,
        kind_at(rank(k)) == k,
{
}

/// Every place from 0 to 11 holds the kind that has it as its place.
pub proof fn lemma_kind_rank(r: int)
    requires
        0 <= r <= 11,
    ensures
        rank(kind_at(r)) == r,
{
}

/// The members that a shape brings into a union: its own if it is a union,
/// itself otherwise.
pub open spec fn members(s: Shape) -> Map<Kind, Shape> {
    match s {
        Shape::Any(m) => m,
        _ => Map::empty().insert(kind_of(s), s),
    }
}

/// The map that a list of pairs with distinct keys stands for.
pub open spec fn assoc_map<K, V>(s: Seq<(K, V)>) -> Map<K, V> {
    Map::new(
        |k: K| exists|i: int| 0 <= i < s.len() && (#[trigger] s[i]).0 == k,
        |k: K| s[choose|i: int| 0 <= i < s.len() && (#[trigger] s[i]).0 == k].1,
    )
}

/// No key occurs twice in `s`.
pub open spec fn distinct_keys<K, V>(s: Seq<(K, V)>) -> bool {
    forall|i: int, j: int|
        0 <= i < s.len() && 0 <= j < s.len() && (#[trigger] s[i]).0 == (#[trigger] s[j]).0 ==> i
            == j
}

/// With distinct keys, the map holds each pair of the list.
pub proof fn lemma_assoc_get<K, V>(s: Seq<(K, V)>, i: int)
    requires
        distinct_keys(s),
        0 <= i < s.len(),
    ensures
        assoc_map(s).contains_key(s[i].0),
        assoc_map(s)[s[i].0] == s[i].1,
{
    let k = s[i].0;
    let j = choose|j: int| 0 <= j < s.len() && (#[trigger] s[j]).0 == k;
    assert(j == i);
}

/// Appending a pair with a new key inserts it into the map.
pub proof fn lemma_assoc_push<K, V>(s: Seq<(K, V)>, k: K, v: V)
    requires
        distinct_keys(s),
        !assoc_map(s).contains_key(k),
    ensures
        distinct_keys(s.push((k, v))),
        assoc_map(s.push((k, v))) == assoc_map(s).insert(k, v),
{
    let t = s.push((k, v));
    assert forall|i: int, j: int|
        0 <= i < t.len() && 0 <= j < t.len() && (#[trigger] t[i]).0 == (#[trigger] t[j]).0 implies i
        == j by {
        if i < s.len() {
            assert(t[i] == s[i]);
        }
        if j < s.len() {
            assert(t[j] == s[j]);
        }
    }
    assert forall|q: K| #[trigger] assoc_map(t).contains_key(q) <==> assoc_map(s).insert(k, v).contains_key(q) by {
        if assoc_map(t).contains_key(q) {
            let i = choose|i: int| 0 <= i < t.len() && (#[trigger] t[i]).0 == q;
            if i < s.len() {
                assert(s[i].0 == q);
            }
        }
        if assoc_map(s).contains_key(q) {
            let i = choose|i: int| 0 <= i < s.len() && (#[trigger] s[i]).0 == q;
            assert(t[i].0 == q);
        }
        if q == k {
            assert(t[s.len() as int].0 == q);
        }
    }
    assert forall|q: K| assoc_map(t).contains_key(q) implies #[trigger] assoc_map(t)[q] == assoc_map(s).insert(k, v)[q] by {
        let i = choose|i: int| 0 <= i < t.len() && (#[trigger] t[i]).0 == q;
        lemma_assoc_get(t, i);
        if i < s.len() {
            assert(t[i] == s[i]);
            lemma_assoc_get(s, i);
        }
    }
    assert(assoc_map(t) =~= assoc_map(s).insert(k, v));
}

/// Placing a pair with a new key anywhere in the list inserts it into the map.
pub proof fn lemma_assoc_insert<K, V>(s: Seq<(K, V)>, p: int, k: K, v: V)
    requires
        distinct_keys(s),
        0 <= p <= s.len(),
        !assoc_map(s).contains_key(k),
    ensures
        distinct_keys(s.insert(p, (k, v))),
        assoc_map(s.insert(p, (k, v))) == assoc_map(s).insert(k, v),
{
    let t = s.insert(p, (k, v));
    let back = |i: int| if i < p { i } else { i - 1 };
    assert forall|i: int| 0 <= i < t.len() && i != p implies #[trigger] t[i] == s[back(i)] by {}
    assert forall|i: int, j: int|
        0 <= i < t.len() && 0 <= j < t.len() && (#[trigger] t[i]).0 == (#[trigger] t[j]).0 implies i
        == j by {
        if i != p {
            assert(t[i] == s[back(i)]);
        }
        if j != p {
            assert(t[j] == s[back(j)]);
        }
    }
    assert forall|q: K| #[trigger] assoc_map(t).contains_key(q) <==> assoc_map(s).insert(k, v).contains_key(q) by {
        if assoc_map(t).contains_key(q) {
            let i = choose|i: int| 0 <= i < t.len() && (#[trigger] t[i]).0 == q;
            if i != p {
                assert(s[back(i)].0 == q);
            }
        }
        if assoc_map(s).contains_key(q) {
            let i = choose|i: int| 0 <= i < s.len() && (#[trigger] s[i]).0 == q;
            assert(t[if i < p { i } else { i + 1 }].0 == q);
        }
        if q == k {
            assert(t[p].0 == q);
        }
    }
    assert forall|q: K| assoc_map(t).contains_key(q) implies #[trigger] assoc_map(t)[q] == assoc_map(s).insert(k, v)[q] by {
        let i = choose|i: int| 0 <= i < t.len() && (#[trigger] t[i]).0 == q;
        lemma_assoc_get(t, i);
        if i != p {
            assert(t[i] == s[back(i)]);
            lemma_assoc_get(s, back(i));
        }
    }
    assert(assoc_map(t) =~= assoc_map(s).insert(k, v));
}

/// Replacing the value of a pair replaces it in the map.
pub proof fn lemma_assoc_update<K, V>(s: Seq<(K, V)>, p: int, v: V)
    requires
        distinct_keys(s),
        0 <= p < s.len(),
    ensures
        distinct_keys(s.update(p, (s[p].0, v))),
        assoc_map(s.update(p, (s[p].0, v))) == assoc_map(s).insert(s[p].0, v),
{
    let k = s[p].0;
    let t = s.update(p, (k, v));
    assert forall|i: int, j: int|
        0 <= i < t.len() && 0 <= j < t.len() && (#[trigger] t[i]).0 == (#[trigger] t[j]).0 implies i
        == j by {
        assert(t[i].0 == s[i].0);
        assert(t[j].0 == s[j].0);
    }
    assert forall|q: K| #[trigger] assoc_map(t).contains_key(q) <==> assoc_map(s).insert(k, v).contains_key(q) by {
        if assoc_map(t).contains_key(q) {
            let i = choose|i: int| 0 <= i < t.len() && (#[trigger] t[i]).0 == q;
            assert(s[i].0 == q);
        }
        if assoc_map(s).contains_key(q) {
            let i = choose|i: int| 0 <= i < s.len() && (#[trigger] s[i]).0 == q;
            assert(t[i].0 == q);
        }
        if q == k {
            assert(t[p].0 == q);
        }
    }
    assert forall|q: K| assoc_map(t).contains_key(q) implies #[trigger] assoc_map(t)[q] == assoc_map(s).insert(k, v)[q] by {
        let i = choose|i: int| 0 <= i < t.len() && (#[trigger] t[i]).0 == q;
        lemma_assoc_get(t, i);
        assert(t[i].0 == s[i].0);
        if i != p {
            assert(t[i] == s[i]);
            lemma_assoc_get(s, i);
        }
    }
    assert(assoc_map(t) =~= assoc_map(s).insert(k, v));
}

/// The order of property names: lexicographic by code point.
pub open spec fn key_lt(a: Seq<char>, b: Seq<char>) -> bool
    decreases a.len(),
{
    if b.len() == 0 {
        false
    } else if a.len() == 0 {
        true
    } else if a[0] != b[0] {
        (a[0] as int) < (b[0] as int)
    } else {
        key_lt(a.drop_first(), b.drop_first())
    }
}

/// No name comes before itself.
pub proof fn lemma_key_lt_irreflexive(a: Seq<char>)
    ensures
        !key_lt(a, a),
    decreases a.len(),
{
    if a.len() > 0 {
        lemma_key_lt_irreflexive(a.drop_first());
    }
}

/// The order of names is transitive.
pub proof fn lemma_key_lt_transitive(a: Seq<char>, b: Seq<char>, c: Seq<char>)
    requires
        key_lt(a, b),
        key_lt(b, c),
    ensures
        key_lt(a, c),
    decreases a.len(),
{
    if a.len() > 0 && b.len() > 0 && c.len() > 0 {
        if a[0] == b[0] && b[0] == c[0] {
            lemma_key_lt_transitive(a.drop_first(), b.drop_first(), c.drop_first());
        }
    }
}

/// Of two different names one comes before the other.
pub proof fn lemma_key_lt_total(a: Seq<char>, b: Seq<char>)
    ensures
        a == b || key_lt(a, b) || key_lt(b, a),
    decreases a.len(),
{
    if a.len() == 0 || b.len() == 0 {
        if a.len() == 0 && b.len() == 0 {
            assert(a =~= b);
        }
    } else if a[0] == b[0] {
        lemma_key_lt_total(a.drop_first(), b.drop_first());
        if a.drop_first() == b.drop_first() {
            assert(a =~= seq![a[0]] + a.drop_first());
            assert(b =~= seq![b[0]] + b.drop_first());
        }
    } else {
        assert(a[0] as int != b[0] as int);
    }
}

/// Compares two names with `str`'s own `<`, which orders strings
/// lexicographically by their bytes and thereby by their code points.
#[verifier::external_body]
pub(crate) fn str_lt(a: &str, b: &str) -> (r: bool)
    ensures
        r == key_lt(a@, b@),
{
    a < b
}

/// The names of `s` are strictly ascending.
pub open spec fn sorted_keys(s: Seq<(Seq<char>, Field)>) -> bool {
    forall|i: int, j: int| 0 <= i < j < s.len() ==> key_lt((#[trigger] s[i]).0, (#[trigger] s[j]).0)
}

/// Strictly ascending names are distinct.
pub proof fn lemma_sorted_distinct(s: Seq<(Seq<char>, Field)>)
    requires
        sorted_keys(s),
    ensures
        distinct_keys(s),
{
    assert forall|i: int, j: int|
        0 <= i < s.len() && 0 <= j < s.len() && (#[trigger] s[i]).0 == (#[trigger] s[j]).0 implies i
        == j by {
        lemma_key_lt_irreflexive(s[i].0);
        if i < j {
            assert(key_lt(s[i].0, s[j].0));
        } else if j < i {
            assert(key_lt(s[j].0, s[i].0));
        }
    }
}

/// The kinds of `s` are strictly ascending, and an unformatted string stands
/// beside no formatted one.
pub open spec fn sorted_kinds(s: Seq<(Kind, Shape)>) -> bool {
    &&& forall|i: int, j: int|
        0 <= i < j < s.len() ==> rank((#[trigger] s[i]).0) < rank((#[trigger] s[j]).0)
    &&& forall|i: int, j: int|
        0 <= i < s.len() && 0 <= j < s.len() && (#[trigger] s[i]).0 == Kind::Text(None) ==> !((
        #[trigger] s[j]).0 is Text) || i == j
}

/// Strictly ascending kinds are distinct.
pub proof fn lemma_sorted_kinds_distinct(s: Seq<(Kind, Shape)>)
    requires
        sorted_kinds(s),
    ensures
        distinct_keys(s),
{
    assert forall|i: int, j: int|
        0 <= i < s.len() && 0 <= j < s.len() && (#[trigger] s[i]).0 == (#[trigger] s[j]).0 implies i
        == j by {
        if i < j {
            assert(rank(s[i].0) < rank(s[j].0));
        } else if j < i {
            assert(rank(s[j].0) < rank(s[i].0));
        }
    }
}

impl NodeType {
    /// The shape that this node stands for.
    pub open spec fn shape(&self) -> Shape
        decreases self,
    {
        match self {
            NodeType::Null => Shape::Null,
            NodeType::Boolean => Shape::Boolean,
            NodeType::Integer(_) => Shape::Integer,
            NodeType::Number(_) => Shape::Number,
            NodeType::String(s) => Shape::Text(s.format),
            NodeType::Array(a) => match a.items {
                None => Shape::Array(None),
                Some(item) => Shape::Array(Some(Box::new((*item).shape()))),
            },
            NodeType::Object(o) => Shape::Object(assoc_map(fields_of(o.properties@))),
            NodeType::Any(a) => Shape::Any(assoc_map(members_of(a.nodes@))),
        }
    }

    /// The node is in canonical form, and so is every node inside it.
    pub open spec fn wf(&self) -> bool
        decreases self,
    {
        match self {
            NodeType::Array(a) => a.items is Some ==> (*a.items->0).wf(),
            NodeType::Object(o) => {
                &&& sorted_keys(fields_of(o.properties@))
                &&& forall|i: int|
                    0 <= i < o.properties.len() ==> (#[trigger] o.properties[i]).1.node_type.wf()
            },
            NodeType::Any(a) => {
                &&& sorted_kinds(members_of(a.nodes@))
                &&& forall|i: int| 0 <= i < a.nodes.len() ==> (#[trigger] a.nodes[i]).wf()
            },
            _ => true,
        }
    }
}

impl View for NodeType {
    type V = Shape;

    open spec fn view(&self) -> Shape {
        self.shape()
    }
}

/// The names and fields of a list of properties, in the order of the list.
pub open spec fn fields_of(props: Seq<(String, ObjectProperty)>) -> Seq<(Seq<char>, Field)>
    decreases props,
{
    Seq::new(
        props.len(),
        |i: int|
            if 0 <= i < props.len() {
                (props[i].0@, Field { required: props[i].1.required, shape: props[i].1.node_type.shape() })
            } else {
                (Seq::empty(), Field { required: false, shape: Shape::Null })
            },
    )
}

/// The kinds and shapes of a list of nodes, in the order of the list.
pub open spec fn members_of(nodes: Seq<NodeType>) -> Seq<(Kind, Shape)>
    decreases nodes,
{
    Seq::new(
        nodes.len(),
        |i: int|
            if 0 <= i < nodes.len() {
                (kind_of(nodes[i].shape()), nodes[i].shape())
            } else {
                (Kind::Null, Shape::Null)
            },
    )
}

/// The place of a node's kind in the total order.
pub fn node_rank(n: &NodeType) -> (r: u8)
    ensures
        r as int == rank(kind_of(n@)),
        r <= 11,
{
    match n {
        NodeType::Null => 0,
        NodeType::Boolean => 1,
        NodeType::Integer(_) => 2,
        NodeType::Number(_) => 3,
        NodeType::String(s) => match s.format {
            None => 4,
            Some(Format::DateTime) => 5,
            Some(Format::Date) => 6,
            Some(Format::Time) => 7,
            Some(Format::Uuid) => 8,
        },
        NodeType::Array(_) => 9,
        NodeType::Object(_) => 10,
        NodeType::Any(_) => 11,
    }
}

/// Whether two formats are the same.
pub fn format_eq(a: Option<Format>, b: Option<Format>) -> (r: bool)
    ensures
        r == (a == b),
{
    match (a, b) {
        (None, None) => true,
        (Some(x), Some(y)) => x == y,
        _ => false,
    }
}

/// The index of the first property called `name`, if there is one.
pub fn find_property(props: &Vec<(String, ObjectProperty)>, name: &String) -> (r: Option<usize>)
    ensures
        match r {
            Some(i) => i < props.len() && props[i as int].0@ == name@ && forall|k: int|
                0 <= k < i ==> (#[trigger] props[k]).0@ != name@,
            None => !assoc_map(fields_of(props@)).contains_key(name@),
        },
{
    let mut i: usize = 0;
    while i < props.len()
        invariant
            i <= props.len(),
            forall|k: int| 0 <= k < i ==> (#[trigger] props[k]).0@ != name@,
        decreases props.len() - i,
    {
        if props[i].0 == *name {
            return Some(i);
        }
        i = i + 1;
    }
    proof {
        let f = fields_of(props@);
        assert forall|k: int| 0 <= k < f.len() implies (#[trigger] f[k]).0 != name@ by {
            assert(f[k].0 == props[k].0@);
        }
    }
    None
}

/// The index of the first member whose kind stands at place `r`, if there
/// is one.
pub fn find_member(nodes: &Vec<NodeType>, r: u8) -> (found: Option<usize>)
    ensures
        match found {
            Some(i) => i < nodes.len() && rank(kind_of(nodes[i as int]@)) == r && forall|k: int|
                0 <= k < i ==> rank(kind_of((#[trigger] nodes[k])@)) != r,
            None => forall|k: Kind| rank(k) == r ==> !assoc_map(members_of(nodes@)).contains_key(k),
        },
{
    let mut i: usize = 0;
    while i < nodes.len()
        invariant
            i <= nodes.len(),
            forall|k: int| 0 <= k < i ==> rank(kind_of((#[trigger] nodes[k])@)) != r,
        decreases nodes.len() - i,
    {
        if node_rank(&nodes[i]) == r {
            return Some(i);
        }
        i = i + 1;
    }
    proof {
        let m = members_of(nodes@);
        assert forall|k: int| 0 <= k < m.len() implies rank((#[trigger] m[k]).0) != r by {
            assert(m[k].0 == kind_of(nodes[k]@));
        }
    }
    None
}

/// Puts the property `name` into a list of properties in ascending order of
/// the names: in its place if the name is new, in place of the property of
/// that name otherwise.
pub fn insert_property(props: &mut Vec<(String, ObjectProperty)>, name: String, prop: ObjectProperty)
    requires
        sorted_keys(fields_of(old(props)@)),
    ensures
        sorted_keys(fields_of(final(props)@)),
        assoc_map(fields_of(final(props)@)) == assoc_map(fields_of(old(props)@)).insert(
            name@,
            Field { required: prop.required, shape: prop.node_type@ },
        ),
        (forall|i: int| 0 <= i < old(props).len() ==> (#[trigger] old(props)[i]).1.node_type.wf())
            && prop.node_type.wf() ==> (forall|i: int|
            0 <= i < final(props).len() ==> (#[trigger] final(props)[i]).1.node_type.wf()),
{
    let ghost before = props@;
    let ghost f = fields_of(before);
    let ghost field = Field { required: prop.required, shape: prop.node_type@ };
    let mut p: usize = 0;
    while p < props.len() && str_lt(props[p].0.as_str(), name.as_str())
        invariant
            p <= props.len(),
            props@ == before,
            forall|k: int| 0 <= k < p ==> key_lt((#[trigger] before[k]).0@, name@),
        decreases props.len() - p,
    {
        p = p + 1;
    }
    proof {
        lemma_sorted_distinct(f);
        assert forall|k: int| 0 <= k < f.len() implies (#[trigger] f[k]).0 == before[k].0@ by {}
    }
    if p < props.len() && props[p].0 == name {
        props.set(p, (name, prop));
        proof {
            let g = fields_of(props@);
            assert(g =~= f.update(p as int, (f[p as int].0, field)));
            lemma_assoc_update(f, p as int, field);
            assert forall|i: int, j: int| 0 <= i < j < g.len() implies key_lt(
                (#[trigger] g[i]).0,
                (#[trigger] g[j]).0,
            ) by {
                assert(g[i].0 == f[i].0 && g[j].0 == f[j].0);
            }
        }
    } else {
        proof {
            assert forall|k: int| p <= k < f.len() implies key_lt(name@, (#[trigger] f[k]).0) by {
                lemma_key_lt_total(f[p as int].0, name@);
                assert(key_lt(name@, f[p as int].0));
                if k > p {
                    assert(key_lt(f[p as int].0, f[k].0));
                    lemma_key_lt_transitive(name@, f[p as int].0, f[k].0);
                }
            }
            assert forall|k: int| 0 <= k < f.len() implies (#[trigger] f[k]).0 != name@ by {
                lemma_key_lt_irreflexive(name@);
                if k < p {
                    assert(key_lt(before[k].0@, name@));
                }
            }
        }
        props.insert(p, (name, prop));
        proof {
            let g = fields_of(props@);
            assert(g =~= f.insert(p as int, (name@, field)));
            lemma_assoc_insert(f, p as int, name@, field);
            assert forall|i: int, j: int| 0 <= i < j < g.len() implies key_lt(
                (#[trigger] g[i]).0,
                (#[trigger] g[j]).0,
            ) by {
                let bi = if i < p { i } else { i - 1 };
                let bj = if j < p { j } else { j - 1 };
                if i != p && j != p {
                    assert(g[i] == f[bi] && g[j] == f[bj]);
                } else if i == p {
                    assert(g[j] == f[bj]);
                } else {
                    assert(g[i] == f[bi]);
                    assert(key_lt(before[bi].0@, name@));
                }
            }
        }
    }
}

/// A copy of a list of properties.
pub fn clone_properties(props: &Vec<(String, ObjectProperty)>) -> (r: Vec<(String, ObjectProperty)>)
    ensures
        fields_of(r@) == fields_of(props@),
        r.len() == props.len(),
        forall|i: int|
            0 <= i < props.len() && props[i].1.node_type.wf() ==> (#[trigger] r[i]).1.node_type.wf(),
    decreases props,
{
    let mut out: Vec<(String, ObjectProperty)> = Vec::new();
    let mut i: usize = 0;
    while i < props.len()
        invariant
            i <= props.len(),
            out.len() == i,
            forall|k: int|
                0 <= k < i ==> (#[trigger] out[k]).0@ == props[k].0@ && out[k].1.required
                    == props[k].1.required && out[k].1.node_type@ == props[k].1.node_type@ && (
                props[k].1.node_type.wf() ==> out[k].1.node_type.wf()),
        decreases props.len() - i,
    {
        let entry = &props[i];
        let node = clone_node(&entry.1.node_type);
        out.push((entry.0.clone(), ObjectProperty { required: entry.1.required, node_type: node }));
        i = i + 1;
    }
    proof {
        assert(fields_of(out@) =~= fields_of(props@));
    }
    out
}

/// A copy of a list of nodes.
pub fn clone_nodes(nodes: &Vec<NodeType>) -> (r: Vec<NodeType>)
    ensures
        members_of(r@) == members_of(nodes@),
        r.len() == nodes.len(),
        forall|i: int| 0 <= i < nodes.len() ==> (#[trigger] r[i])@ == nodes[i]@,
        forall|i: int| 0 <= i < nodes.len() && nodes[i].wf() ==> (#[trigger] r[i]).wf(),
    decreases nodes,
{
    let mut out: Vec<NodeType> = Vec::new();
    let mut i: usize = 0;
    while i < nodes.len()
        invariant
            i <= nodes.len(),
            out.len() == i,
            forall|k: int|
                0 <= k < i ==> (#[trigger] out[k])@ == nodes[k]@ && (nodes[k].wf() ==> out[k].wf()),
        decreases nodes.len() - i,
    {
        let node = clone_node(&nodes[i]);
        out.push(node);
        i = i + 1;
    }
    proof {
        assert(members_of(out@) =~= members_of(nodes@));
    }
    out
}

/// A copy of a node: the same shape, and canonical if the node is.
pub fn clone_node(n: &NodeType) -> (r: NodeType)
    ensures
        r@ == n@,
        n.wf() ==> r.wf(),
    decreases n,
{
    match n {
        NodeType::Null => NodeType::Null,
        NodeType::Boolean => NodeType::Boolean,
        NodeType::Integer(_) => NodeType::Integer(IntegerNode {  }),
        NodeType::Number(_) => NodeType::Number(NumberNode {  }),
        NodeType::String(s) => NodeType::String(StringNode { format: s.format }),
        NodeType::Array(a) => match &a.items {
            None => NodeType::Array(ArrayNode { items: None }),
            Some(item) => {
                let inner = clone_node(&**item);
                NodeType::Array(ArrayNode { items: Some(Box::new(inner)) })
            },
        },
        NodeType::Object(o) => {
            let props = clone_properties(&o.properties);
            let out = ObjectNode { properties: props };
            NodeType::Object(out)
        },
        NodeType::Any(a) => {
            let nodes = clone_nodes(&a.nodes);
            let out = AnyNode { nodes };
            NodeType::Any(out)
        },
    }
}

impl Clone for NodeType {
    fn clone(&self) -> (r: Self)
        ensures
            r@ == self@,
            self.wf() ==> r.wf(),
    {
        clone_node(self)
    }
}

impl Clone for SchemaHypothesis {
    fn clone(&self) -> (r: Self)
        ensures
            r.id == self.id,
            r.title == self.title,
            r.description == self.description,
            r.root is Some <==> self.root is Some,
            r.root is Some ==> r.root->0@ == self.root->0@ && (self.root->0.wf() ==> r.root->0.wf()),
    {
        SchemaHypothesis {
            id: self.id.clone(),
            title: self.title.clone(),
            description: self.description.clone(),
            root: match &self.root {
                Some(root) => Some(clone_node(root)),
                None => None,
            },
        }
    }
}

impl Clone for AnyNode {
    fn clone(&self) -> (r: Self)
        ensures
            members_of(r.nodes@) == members_of(self.nodes@),
    {
        AnyNode { nodes: clone_nodes(&self.nodes) }
    }
}

impl Clone for ObjectNode {
    fn clone(&self) -> (r: Self)
        ensures
            fields_of(r.properties@) == fields_of(self.properties@),
    {
        ObjectNode { properties: clone_properties(&self.properties) }
    }
}

impl Clone for ObjectProperty {
    fn clone(&self) -> (r: Self)
        ensures
            r.required == self.required,
            r.node_type@ == self.node_type@,
    {
        ObjectProperty { required: self.required, node_type: clone_node(&self.node_type) }
    }
}

impl Clone for ArrayNode {
    fn clone(&self) -> (r: Self)
        ensures
            NodeType::Array(r)@ == NodeType::Array(*self)@,
    {
        match &self.items {
            None => ArrayNode { items: None },
            Some(item) => ArrayNode { items: Some(Box::new(clone_node(&**item))) },
        }
    }
}

} // verus!
