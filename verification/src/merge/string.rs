//! Merging two strings.

use vstd::prelude::*;
use crate::merge::{lemma_assoc_empty, merge_shapes, push_member};
use crate::model::{members_of, node_rank, AnyNode, Kind, NodeType, Shape, StringNode};

verus! {

/// Merges two strings: an equal format is kept, a string without format
/// takes the format from the other, and two different formats stand side by
/// side in a union.
pub fn merge(a: StringNode, b: StringNode) -> (r: NodeType)
    ensures
        r.wf(),
        r@ == merge_shapes(Shape::Text(a.format), Shape::Text(b.format)),
{
    match (a.format, b.format) {
        (Some(x), Some(y)) => {
            if x == y {
                NodeType::String(StringNode { format: Some(x) })
            } else {
                let left = NodeType::String(a);
                let right = NodeType::String(b);
                let mut nodes: Vec<NodeType> = Vec::new();
                proof {
                    lemma_assoc_empty::<Kind, Shape>();
                    assert(members_of(nodes@) =~= Seq::empty());
                }
                if node_rank(&left) < node_rank(&right) {
                    push_member(&mut nodes, left);
                    push_member(&mut nodes, right);
                } else {
                    push_member(&mut nodes, right);
                    push_member(&mut nodes, left);
                }
                let out = NodeType::Any(AnyNode { nodes });
                proof {
                    assert(out@->Any_0 =~= merge_shapes(
                        Shape::Text(a.format),
                        Shape::Text(b.format),
                    )->Any_0);
                }
                out
            }
        },
        _ => NodeType::String(StringNode { format: None }),
    }
}

} // verus!
