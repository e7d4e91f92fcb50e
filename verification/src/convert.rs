//! Conversions into node types.

use vstd::prelude::*;
use vstd::std_specs::convert::FromSpecImpl;
use vstd::string::*;
use crate::construct::{detect_format, format_of};
use crate::model::{
    AnyNode, ArrayNode, IntegerNode, NodeType, NumberNode, ObjectNode, StringNode,
};

verus! {

impl From<StringNode> for NodeType {
    fn from(node: StringNode) -> (r: Self) {
        NodeType::String(node)
    }
}

impl FromSpecImpl<StringNode> for NodeType {
    open spec fn obeys_from_spec() -> bool {
        true
    }

    open spec fn from_spec(node: StringNode) -> Self {
        NodeType::String(node)
    }
}

impl From<IntegerNode> for NodeType {
    fn from(node: IntegerNode) -> (r: Self) {
        NodeType::Integer(node)
    }
}

impl FromSpecImpl<IntegerNode> for NodeType {
    open spec fn obeys_from_spec() -> bool {
        true
    }

    open spec fn from_spec(node: IntegerNode) -> Self {
        NodeType::Integer(node)
    }
}

impl From<NumberNode> for NodeType {
    fn from(node: NumberNode) -> (r: Self) {
        NodeType::Number(node)
    }
}

impl FromSpecImpl<NumberNode> for NodeType {
    open spec fn obeys_from_spec() -> bool {
        true
    }

    open spec fn from_spec(node: NumberNode) -> Self {
        NodeType::Number(node)
    }
}

impl From<ArrayNode> for NodeType {
    fn from(node: ArrayNode) -> (r: Self) {
        NodeType::Array(node)
    }
}

impl FromSpecImpl<ArrayNode> for NodeType {
    open spec fn obeys_from_spec() -> bool {
        true
    }

    open spec fn from_spec(node: ArrayNode) -> Self {
        NodeType::Array(node)
    }
}

impl From<ObjectNode> for NodeType {
    fn from(node: ObjectNode) -> (r: Self) {
        NodeType::Object(node)
    }
}

impl FromSpecImpl<ObjectNode> for NodeType {
    open spec fn obeys_from_spec() -> bool {
        true
    }

    open spec fn from_spec(node: ObjectNode) -> Self {
        NodeType::Object(node)
    }
}

impl From<AnyNode> for NodeType {
    fn from(node: AnyNode) -> (r: Self) {
        NodeType::Any(node)
    }
}

impl FromSpecImpl<AnyNode> for NodeType {
    open spec fn obeys_from_spec() -> bool {
        true
    }

    open spec fn from_spec(node: AnyNode) -> Self {
        NodeType::Any(node)
    }
}

impl From<&str> for StringNode {
    fn from(value: &str) -> (r: Self) {
        StringNode { format: detect_format(value) }
    }
}

impl FromSpecImpl<&str> for StringNode {
    open spec fn obeys_from_spec() -> bool {
        true
    }

    open spec fn from_spec(value: &str) -> Self {
        StringNode { format: format_of(value.spec_bytes()) }
    }
}

} // verus!
