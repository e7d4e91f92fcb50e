//! Constructors: they bring whatever they are given into canonical form.

use vstd::prelude::*;
use crate::equality::{node_eq, properties_wf};
use crate::format::{
    is_valid_date, is_valid_datetime, is_valid_time, is_valid_uuid, valid_date, valid_datetime,
    valid_time, valid_uuid,
};
use crate::merge::{lemma_assoc_empty, merge_nodes, merge_shapes, push_member};
use crate::model::{
    assoc_map, clone_node, fields_of, insert_property, kind_of, lemma_sorted_kinds_distinct,
    lemma_assoc_get, members_of, AnyNode, ArrayNode, Field, Format, IntegerNode, Kind, NodeType,
    NumberNode, ObjectNode, ObjectProperty, SchemaHypothesis, Shape, StringNode,
};
use vstd::string::*;

verus! {

/// The format that a string with the UTF-8 bytes `s` is recognised to have:
/// a date-time before a date, a date before a time, a time before a UUID.
pub open spec fn format_of(s: Seq<u8>) -> Option<Format> {
    if valid_datetime(s) {
        Some(Format::DateTime)
    } else if valid_date(s) {
        Some(Format::Date)
    } else if valid_time(s) {
        Some(Format::Time)
    } else if valid_uuid(s) {
        Some(Format::Uuid)
    } else {
        None
    }
}

/// The format that `value` is recognised to have.
pub fn detect_format(value: &str) -> (r: Option<Format>)
    ensures
        r == format_of(value.spec_bytes()),
{
    if is_valid_datetime(value) {
        Some(Format::DateTime)
    } else if is_valid_date(value) {
        Some(Format::Date)
    } else if is_valid_time(value) {
        Some(Format::Time)
    } else if is_valid_uuid(value) {
        Some(Format::Uuid)
    } else {
        None
    }
}

impl StringNode {
    /// A string with the given format, or with none.
    pub fn new(format: Option<Format>) -> (r: Self)
        ensures
            r.format == format,
    {
        Self { format }
    }

    /// A string with the given format.
    pub fn formatted(format: Format) -> (r: Self)
        ensures
            r.format == Some(format),
    {
        Self { format: Some(format) }
    }

}

impl Default for StringNode {
    fn default() -> (r: Self)
        ensures
            r.format is None,
    {
        Self { format: None }
    }
}

impl IntegerNode {
    /// The node of the integers.
    pub fn new() -> (r: Self)
        ensures
            r == (IntegerNode {  }),
            NodeType::Integer(r)@ == Shape::Integer,
    {
        IntegerNode {  }
    }
}

impl NumberNode {
    /// The node of the numbers.
    pub fn new() -> (r: Self)
        ensures
            r == (NumberNode {  }),
            NodeType::Number(r)@ == Shape::Number,
    {
        NumberNode {  }
    }
}

impl ObjectProperty {
    /// A required property of the given type.
    pub fn new(node_type: NodeType) -> (r: Self)
        ensures
            r.required,
            r.node_type == node_type,
    {
        ObjectProperty { required: true, node_type }
    }

    /// The same property, no longer required.
    pub fn optional(self) -> (r: Self)
        ensures
            !r.required,
            r.node_type == self.node_type,
    {
        ObjectProperty { required: false, node_type: self.node_type }
    }
}

/// The map of the first `n` pairs of a list, a later pair taking the place
/// of an earlier one with the same key.
pub open spec fn fold_pairs<K, V>(pairs: Seq<(K, V)>, n: int) -> Map<K, V>
    decreases n,
{
    if n <= 0 {
        Map::empty()
    } else {
        fold_pairs(pairs, n - 1).insert(pairs[n - 1].0, pairs[n - 1].1)
    }
}

impl ObjectNode {
    /// The object with the given properties.
    pub fn new(properties: Vec<(String, ObjectProperty)>) -> (r: Self)
        requires
            forall|i: int| 0 <= i < properties.len() ==> (#[trigger] properties[i]).1.node_type.wf(),
        ensures
            NodeType::Object(r).wf(),
            NodeType::Object(r)@ == Shape::Object(
                fold_pairs(fields_of(properties@), properties.len() as int),
            ),
    {
        let mut out: Vec<(String, ObjectProperty)> = Vec::new();
        let mut i: usize = 0;
        proof {
            lemma_assoc_empty::<Seq<char>, Field>();
            assert(fields_of(out@) =~= Seq::empty());
        }
        while i < properties.len()
            invariant
                i <= properties.len(),
                properties_wf(out@),
                forall|i: int| 0 <= i < properties.len() ==> (#[trigger] properties[i]).1.node_type.wf(),
                assoc_map(fields_of(out@)) == fold_pairs(fields_of(properties@), i as int),
            decreases properties.len() - i,
        {
            let entry = &properties[i];
            let prop = ObjectProperty {
                required: entry.1.required,
                node_type: clone_node(&entry.1.node_type),
            };
            insert_property(&mut out, entry.0.clone(), prop);
            i = i + 1;
        }
        ObjectNode { properties: out }
    }
}

/// The union with the single member `s`.
pub open spec fn single(s: Shape) -> Map<Kind, Shape> {
    Map::empty().insert(kind_of(s), s)
}

/// The union of the first `n` shapes of a list: each shape in turn is merged
/// into the member of its kind, or becomes a member if there is none yet.
pub open spec fn fold_members(shapes: Seq<Shape>, n: int) -> Map<Kind, Shape>
    decreases n,
{
    if n <= 0 {
        Map::empty()
    } else {
        merge_shapes(Shape::Any(fold_members(shapes, n - 1)), Shape::Any(single(shapes[n - 1])))->Any_0
    }
}

/// The shapes of a list of nodes.
pub open spec fn shapes_of(nodes: Seq<NodeType>) -> Seq<Shape> {
    Seq::new(nodes.len(), |i: int| nodes[i]@)
}

/// What a union stands for where a single type is expected: nothing if it
/// has no member, its member if it has one, itself otherwise.
pub open spec fn collapsed(m: Map<Kind, Shape>) -> Option<Shape> {
    if m.dom() == Set::<Kind>::empty() {
        None
    } else if exists|k: Kind| m.dom() == set![k] {
        Some(m[choose|k: Kind| m.dom() == set![k]])
    } else {
        Some(Shape::Any(m))
    }
}

/// The union that holds `node` alone.
pub fn singleton(node: NodeType) -> (r: NodeType)
    requires
        node.wf(),
    ensures
        r.wf(),
        r@ == Shape::Any(single(node@)),
{
    let mut nodes: Vec<NodeType> = Vec::new();
    proof {
        lemma_assoc_empty::<Kind, Shape>();
        assert(members_of(nodes@) =~= Seq::empty());
    }
    push_member(&mut nodes, node);
    NodeType::Any(AnyNode { nodes })
}

impl AnyNode {
    /// The union of the given nodes, reduced to at most one member of each
    /// kind.
    pub fn new(nodes: Vec<NodeType>) -> (r: Self)
        requires
            forall|i: int| 0 <= i < nodes.len() ==> (#[trigger] nodes[i]).wf(),
        ensures
            NodeType::Any(r).wf(),
            NodeType::Any(r)@ == Shape::Any(fold_members(shapes_of(nodes@), nodes.len() as int)),
    {
        let mut acc = NodeType::Any(AnyNode { nodes: Vec::new() });
        proof {
            lemma_assoc_empty::<Kind, Shape>();
            assert(members_of(acc->Any_0.nodes@) =~= Seq::empty());
        }
        let mut i: usize = 0;
        while i < nodes.len()
            invariant
                i <= nodes.len(),
                forall|i: int| 0 <= i < nodes.len() ==> (#[trigger] nodes[i]).wf(),
                acc.wf(),
                acc is Any,
                acc@ == Shape::Any(fold_members(shapes_of(nodes@), i as int)),
            decreases nodes.len() - i,
        {
            let next = singleton(clone_node(&nodes[i]));
            acc = merge_nodes(&acc, &next);
            i = i + 1;
        }
        match acc {
            NodeType::Any(union) => union,
            _ => AnyNode { nodes: Vec::new() },
        }
    }

    /// What the union stands for where a single type is expected.
    pub fn collapse(self) -> (r: Option<NodeType>)
        requires
            NodeType::Any(self).wf(),
        ensures
            r is Some ==> r->0.wf(),
            r is Some <==> collapsed(NodeType::Any(self)@->Any_0) is Some,
            r is Some ==> r->0@ == collapsed(NodeType::Any(self)@->Any_0)->0,
    {
        let ghost m = members_of(self.nodes@);
        let ghost map = assoc_map(m);
        proof {
            lemma_sorted_kinds_distinct(m);
        }
        if self.nodes.len() == 0 {
            assert(map.dom() =~= Set::<Kind>::empty());
            None
        } else if self.nodes.len() == 1 {
            proof {
                lemma_assoc_get(m, 0);
                assert(map.dom() =~= set![m[0].0]);
                let k = choose|k: Kind| map.dom() == set![k];
                assert(set![k].contains(m[0].0));
                assert(map.dom().contains(m[0].0));
            }
            Some(clone_node(&self.nodes[0]))
        } else {
            proof {
                lemma_assoc_get(m, 0);
                lemma_assoc_get(m, 1);
                assert(m[0].0 != m[1].0);
                assert(map.dom().contains(m[0].0));
                assert(map.dom().contains(m[1].0));
                assert forall|k: Kind| map.dom() != set![k] by {
                    if map.dom() == set![k] {
                        assert(set![k].contains(m[0].0));
                        assert(set![k].contains(m[1].0));
                    }
                }
            }
            Some(NodeType::Any(self))
        }
    }
}

impl Default for AnyNode {
    fn default() -> (r: Self)
        ensures
            r.nodes@.len() == 0,
    {
        AnyNode { nodes: Vec::new() }
    }
}

impl ArrayNode {
    /// An array whose elements all have the given type.
    pub fn new(node_type: NodeType) -> (r: Self)
        ensures
            r.items is Some,
            *r.items->0 == node_type,
    {
        Self { items: Some(Box::new(node_type)) }
    }

    /// An array of which no element was observed.
    pub fn new_untyped() -> (r: Self)
        ensures
            r.items is None,
    {
        Self { items: None }
    }

    /// An array whose elements have the given types: no item for no type,
    /// the type itself for one, their union otherwise.
    pub fn new_many(nodes: Vec<NodeType>) -> (r: Self)
        requires
            forall|i: int| 0 <= i < nodes.len() ==> (#[trigger] nodes[i]).wf(),
        ensures
            NodeType::Array(r).wf(),
            NodeType::Array(r)@ == Shape::Array(
                match collapsed(fold_members(shapes_of(nodes@), nodes.len() as int)) {
                    Some(s) => Some(Box::new(s)),
                    None => None,
                },
            ),
    {
        match AnyNode::new(nodes).collapse() {
            Some(item) => Self { items: Some(Box::new(item)) },
            None => Self { items: None },
        }
    }
}

impl Default for ArrayNode {
    fn default() -> (r: Self)
        ensures
            r.items is None,
    {
        Self { items: None }
    }
}

impl SchemaHypothesis {
    /// A hypothesis that has observed nothing yet.
    pub fn new(id: String, title: String, description: String) -> (r: Self)
        ensures
            r.id == id,
            r.title == title,
            r.description == description,
            r.root is None,
    {
        SchemaHypothesis { id, title, description, root: None }
    }

    /// The root, if there is one, is canonical.
    pub open spec fn wf(&self) -> bool {
        self.root is Some ==> self.root->0.wf()
    }

    /// The hypothesis after one more observed type: the type itself if it
    /// is the first, the merge of the root with it otherwise.
    pub fn merge(self, other_root: NodeType) -> (r: SchemaHypothesis)
        requires
            self.wf(),
            other_root.wf(),
        ensures
            r.wf(),
            r.id == self.id,
            r.title == self.title,
            r.description == self.description,
            r.root is Some,
            r.root->0@ == (match self.root {
                Some(root) => merge_shapes(root@, other_root@),
                None => other_root@,
            }),
    {
        let root = match self.root {
            Some(root) => merge_nodes(&root, &other_root),
            None => other_root,
        };
        SchemaHypothesis {
            id: self.id,
            title: self.title,
            description: self.description,
            root: Some(root),
        }
    }

    /// Whether the two hypotheses have different roots, which is when a new
    /// schema is worth publishing.
    pub fn differs_from(&self, other: &SchemaHypothesis) -> (r: bool)
        requires
            self.wf(),
            other.wf(),
        ensures
            r == !(match (self.root, other.root) {
                (Some(a), Some(b)) => a@ == b@,
                (None, None) => true,
                _ => false,
            }),
    {
        match (&self.root, &other.root) {
            (Some(a), Some(b)) => !node_eq(a, b),
            (None, None) => false,
            _ => true,
        }
    }
}

/// Merges two hypotheses: the metadata of the first, and the merge of the
/// roots, a missing root giving way to the other.
pub fn merge_hypothesis(a: SchemaHypothesis, b: SchemaHypothesis) -> (r: SchemaHypothesis)
    requires
        a.wf(),
        b.wf(),
    ensures
        r.wf(),
        r.id == a.id,
        r.title == a.title,
        r.description == a.description,
        r.root is Some <==> a.root is Some || b.root is Some,
        r.root is Some ==> r.root->0@ == (match (a.root, b.root) {
            (Some(x), Some(y)) => merge_shapes(x@, y@),
            (Some(x), None) => x@,
            (None, Some(y)) => y@,
            (None, None) => Shape::Null,
        }),
{
    let root = match (a.root, b.root) {
        (Some(x), Some(y)) => Some(merge_nodes(&x, &y)),
        (Some(x), None) => Some(x),
        (None, y) => y,
    };
    SchemaHypothesis { id: a.id, title: a.title, description: a.description, root }
}

} // verus!
