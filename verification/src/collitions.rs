use vstd::prelude::*;
use crate::Node;

verus! {

/// True when the two records agree on every field, payload included.
pub open spec fn same_all_fields(a: Node, b: Node) -> bool {
    a.id == b.id && a.left == b.left && a.right == b.right && a.payload == b.payload
}

/// A full-identity view of a [`Node`]. Where two `Node` values are equal
/// whenever their ids are equal, two `CollidingNode` values are equal
/// only when *every* field of the wrapped nodes is equal; the wrapper is
/// what the collision and repetition sets store.
#[derive(Debug, Clone, Copy, Hash)]
pub struct CollidingNode(pub Node);

impl PartialEq for CollidingNode {
    fn eq(&self, other: &CollidingNode) -> (r: bool) {
        self.0.id == other.0.id && self.0.left == other.0.left && self.0.right == other.0.right
            && self.0.payload == other.0.payload
    }
}

impl Eq for CollidingNode {}

impl vstd::std_specs::cmp::PartialEqSpecImpl for CollidingNode {
    open spec fn obeys_eq_spec() -> bool {
        true
    }

    open spec fn eq_spec(&self, other: &CollidingNode) -> bool {
        same_all_fields(self.0, other.0)
    }
}

impl From<Node> for CollidingNode {
    fn from(node: Node) -> (r: CollidingNode) {
        CollidingNode(node)
    }
}

impl vstd::std_specs::convert::FromSpecImpl<Node> for CollidingNode {
    open spec fn obeys_from_spec() -> bool {
        true
    }

    open spec fn from_spec(node: Node) -> CollidingNode {
        CollidingNode(node)
    }
}

impl CollidingNode {
    /// Compares every field of the wrapped node, payload included, with
    /// those of `node`.
    pub fn has_same_fields_to(&self, node: &Node) -> (r: bool)
        ensures
            r == same_all_fields(self.0, *node),
    {
        self.0.id == node.id && self.0.left == node.left && self.0.right == node.right
            && self.0.payload == node.payload
    }
}

} // verus!
