use vstd::prelude::*;
use crate::container::Container;
use crate::properties::{Property, PropertyList};

verus! {

/// One of the two child slots of a node, and one step of a path.
#[derive(Clone, Copy, Debug, PartialEq, Eq, Structural)]
pub enum Side {
    Left,
    Right,
}

/// The back-reference of a node: what it hangs under.
///
/// The tree owns its nodes from the root down, so the back-reference holds no
/// pointer. It records which slot of its parent the node fills, or, for a
/// root, the container that owns the tree.
#[derive(Clone, Copy, Debug, PartialEq, Eq, Structural)]
pub enum Parent {
    /// The node fills this slot of a parent node.
    Interval(Side),
    /// The node is the root of the tree of this container.
    Object(Container),
}

/// The payload of a tree cell: everything but its links.
#[derive(Debug)]
pub struct Node {
    /// Length of this node's own span and of both subtrees.
    pub total_length: usize,
    /// Cache of the absolute position at which the node's own span starts.
    pub position: usize,
    /// Whether modification is prevented.
    pub write_protect: bool,
    /// Whether the span should be displayed.
    pub visible: bool,
    /// Whether text inserted just before the span is added to it.
    pub front_sticky: bool,
    /// Whether text inserted just after the span is added to it.
    pub rear_sticky: bool,
    /// Other properties.
    pub plist: PropertyList,
}

/// What a node contributes to the meaning of its tree: the length of its own
/// range, its cached position and its properties.
pub struct Span {
    pub length: int,
    pub position: nat,
    pub write_protect: bool,
    pub visible: bool,
    pub front_sticky: bool,
    pub rear_sticky: bool,
    pub plist: Seq<Property>,
}

impl Node {
    /// The span of a node with this payload whose children weigh `below` together.
    pub open spec fn span(self, below: nat) -> Span {
        Span {
            length: self.total_length - below,
            position: self.position as nat,
            write_protect: self.write_protect,
            visible: self.visible,
            front_sticky: self.front_sticky,
            rear_sticky: self.rear_sticky,
            plist: self.plist@,
        }
    }

    /// A payload of length zero with no property set.
    pub fn new() -> (n: Node)
        ensures
            n.total_length == 0,
            n.position == 0,
            !n.write_protect,
            !n.visible,
            !n.front_sticky,
            !n.rear_sticky,
            n.plist@ == Seq::<Property>::empty(),
    {
        Node {
            total_length: 0,
            position: 0,
            write_protect: false,
            visible: false,
            front_sticky: false,
            rear_sticky: false,
            plist: PropertyList::new(),
        }
    }
}

} // verus!
