use vstd::prelude::*;
use crate::container::Container;
use crate::error::IntervalError;
use crate::node::{Node, Parent, Side, Span};
use crate::properties::PropertyList;

verus! {

/// A cell of the interval tree: a payload, the two subtrees it owns and its
/// back-reference.
#[derive(Debug)]
pub struct Interval {
    /// Left child.
    pub left: Option<Box<Interval>>,
    /// Right child.
    pub right: Option<Box<Interval>>,
    /// What this node hangs under.
    pub parent: Parent,
    pub node: Node,
}

impl View for Interval {
    type V = Seq<Span>;

    /// The spans of the tree, in order.
    open spec fn view(&self) -> Seq<Span> {
        self.spans()
    }
}

// The model: weights, spans, size and well-formedness.
impl Interval {
    /// The weight of an optional subtree; an absent one weighs nothing.
    pub open spec fn weight(t: Option<Box<Interval>>) -> nat {
        match t {
            Some(b) => b.node.total_length as nat,
            None => 0,
        }
    }

    /// The weight of the left subtree.
    pub open spec fn left_weight(self) -> nat {
        Self::weight(self.left)
    }

    /// The weight of the right subtree.
    pub open spec fn right_weight(self) -> nat {
        Self::weight(self.right)
    }

    /// The length of the node's own range: its weight less that of its children.
    pub open spec fn own_length(self) -> int {
        self.node.total_length - self.left_weight() - self.right_weight()
    }

    /// The span of this node itself.
    pub open spec fn own_span(self) -> Span {
        self.node.span(self.left_weight() + self.right_weight())
    }

    /// The spans of the subtree, left to right.
    pub open spec fn spans(self) -> Seq<Span>
        decreases self,
    {
        Self::opt_spans(self.left) + seq![self.own_span()] + Self::opt_spans(self.right)
    }

    /// The spans of an optional subtree; an absent one has none.
    pub open spec fn opt_spans(t: Option<Box<Interval>>) -> Seq<Span>
        decreases t,
    {
        match t {
            Some(b) => b.spans(),
            None => Seq::empty(),
        }
    }

    /// The number of nodes of the subtree.
    pub open spec fn size(self) -> nat
        decreases self,
    {
        Self::opt_size(self.left) + 1 + Self::opt_size(self.right)
    }

    /// The number of nodes of an optional subtree.
    pub open spec fn opt_size(t: Option<Box<Interval>>) -> nat
        decreases t,
    {
        match t {
            Some(b) => b.size(),
            None => 0,
        }
    }

    /// The tree is well formed: every node has a range of its own, so its
    /// weight exceeds that of its children, and every child records the slot
    /// that holds it.
    pub open spec fn wf(self) -> bool
        decreases self,
    {
        &&& self.own_length() > 0
        &&& match self.left {
            Some(l) => l.parent == Parent::Interval(Side::Left) && l.wf(),
            None => true,
        }
        &&& match self.right {
            Some(r) => r.parent == Parent::Interval(Side::Right) && r.wf(),
            None => true,
        }
    }

    /// Whether an optional subtree is well formed; an absent one is.
    pub open spec fn opt_wf(t: Option<Box<Interval>>) -> bool {
        match t {
            Some(b) => b.wf(),
            None => true,
        }
    }

    /// This node with another back-reference.
    pub open spec fn with_parent(self, parent: Parent) -> Interval {
        Interval { parent, ..self }
    }

    /// An optional subtree whose root, if any, records `side` as its slot.
    pub open spec fn linked(t: Option<Box<Interval>>, side: Side) -> Option<Box<Interval>> {
        match t {
            Some(b) => Some(Box::new(b.with_parent(Parent::Interval(side)))),
            None => None,
        }
    }

    /// This node with the back-references of both children set to their slots.
    pub open spec fn relinked(self) -> Interval {
        Interval {
            left: Self::linked(self.left, Side::Left),
            right: Self::linked(self.right, Side::Right),
            ..self
        }
    }

    /// The position at which the sequence of this node's tree starts: that of
    /// the container for a root, 0 for a node seen as a tree of its own.
    pub open spec fn start(self) -> nat {
        match self.parent {
            Parent::Interval(_) => 0,
            Parent::Object(c) => c.begin(),
        }
    }

    /// The sum of the lengths of the first `n` spans.
    pub open spec fn prefix_length(spans: Seq<Span>, n: int) -> int
        decreases n,
    {
        if n <= 0 {
            0
        } else {
            Self::prefix_length(spans, n - 1) + spans[n - 1].length
        }
    }

    /// The sum of the lengths of all spans.
    pub open spec fn total_span_length(spans: Seq<Span>) -> int {
        Self::prefix_length(spans, spans.len() as int)
    }
}

// Facts of the model.
impl Interval {
    /// The spans, the size and the weight of a tree do not depend on the
    /// back-reference of its root, nor does the well-formedness of what hangs
    /// under it.
    pub proof fn lemma_with_parent(self, parent: Parent)
        ensures
            self.with_parent(parent)@ == self@,
            self.with_parent(parent).size() == self.size(),
            self.with_parent(parent).wf() == self.wf(),
            self.with_parent(parent).own_span() == self.own_span(),
    {
    }

    /// The spans of a node are those of its left subtree, its own, and those
    /// of its right subtree; its size counts the same.
    pub proof fn lemma_unfold(self)
        ensures
            self@ == Self::opt_spans(self.left) + seq![self.own_span()] + Self::opt_spans(
                self.right,
            ),
            self.size() == Self::opt_size(self.left) + 1 + Self::opt_size(self.right),
            self@.len() == self.size(),
        decreases self,
    {
        match self.left {
            Some(l) => l.lemma_unfold(),
            None => {},
        }
        match self.right {
            Some(r) => r.lemma_unfold(),
            None => {},
        }
    }

    /// Five runs of spans joined in the two ways in which a rotation groups
    /// them are the same sequence.
    pub proof fn lemma_regroup(x: Seq<Span>, a: Span, y: Seq<Span>, b: Span, z: Seq<Span>)
        ensures
            (x + seq![a] + y) + seq![b] + z == x + seq![a] + (y + seq![b] + z),
    {
        assert((x + seq![a] + y) + seq![b] + z =~= x + seq![a] + (y + seq![b] + z));
    }

    /// What `lemma_with_parent` says, of an optional subtree.
    pub proof fn lemma_linked(t: Option<Box<Interval>>, side: Side)
        ensures
            Self::opt_spans(Self::linked(t, side)) == Self::opt_spans(t),
            Self::opt_size(Self::linked(t, side)) == Self::opt_size(t),
            Self::opt_wf(Self::linked(t, side)) == Self::opt_wf(t),
            Self::weight(Self::linked(t, side)) == Self::weight(t),
            Self::linked(t, side) is Some == t is Some,
            t is Some && t.unwrap().parent == Parent::Interval(side) ==> Self::linked(t, side) == t,
    {
        match t {
            Some(b) => {
                b.lemma_with_parent(Parent::Interval(side));
            },
            None => {},
        }
    }
}

// Construction and the queries on one node.
impl Interval {
    /// A node of length zero with no children and no property set.
    pub fn new(parent: Parent) -> (r: Interval)
        ensures
            r.left is None,
            r.right is None,
            r.parent == parent,
            r.node.total_length == 0,
            r.node.position == 0,
            !r.node.write_protect,
            !r.node.visible,
            !r.node.front_sticky,
            !r.node.rear_sticky,
            r.node.plist@.len() == 0,
    {
        Interval { left: None, right: None, parent, node: Node::new() }
    }

    /// The root of a new tree for `container`: one node that spans the whole
    /// sequence and has no property set.
    pub fn create_root(container: Container) -> (r: Interval)
        ensures
            r.left is None,
            r.right is None,
            r.parent == Parent::Object(container),
            r.node.total_length == container.length,
            r.node.position == container.begin(),
            r.node.plist@.len() == 0,
            !r.node.write_protect,
            !r.node.visible,
            !r.node.front_sticky,
            !r.node.rear_sticky,
            container.length > 0 ==> r.wf(),
            r@ == seq![r.own_span()],
    {
        let mut r = Interval::new(Parent::Object(container));
        r.node.total_length = container.length();
        r.node.position = container.begin_offset();
        assert(r.spans() =~= seq![r.own_span()]);
        r
    }

    /// Whether the node has a left child.
    pub fn has_left(&self) -> (b: bool)
        ensures
            b == (self.left is Some),
    {
        self.left.is_some()
    }

    /// Whether the node has a right child.
    pub fn has_right(&self) -> (b: bool)
        ensures
            b == (self.right is Some),
    {
        self.right.is_some()
    }

    /// Whether the node has any child.
    pub fn has_child(&self) -> (b: bool)
        ensures
            b == (self.left is Some || self.right is Some),
    {
        self.has_left() || self.has_right()
    }

    /// Whether the node has both children.
    pub fn has_children(&self) -> (b: bool)
        ensures
            b == (self.left is Some && self.right is Some),
    {
        self.has_left() && self.has_right()
    }

    /// Whether the node hangs under another node.
    pub fn has_parent(&self) -> (b: bool)
        ensures
            b == (self.parent is Interval),
    {
        match self.parent {
            Parent::Interval(_) => true,
            Parent::Object(_) => false,
        }
    }

    /// Whether the node is the root of a container's tree.
    pub fn has_object(&self) -> (b: bool)
        ensures
            b == (self.parent is Object),
    {
        match self.parent {
            Parent::Interval(_) => false,
            Parent::Object(_) => true,
        }
    }

    /// Whether the node's property list is empty.
    pub fn is_default(&self) -> (b: bool)
        ensures
            b == (self.node.plist@.len() == 0),
    {
        self.node.plist.is_empty()
    }

    /// Whether the node records that it fills the left slot of its parent.
    pub fn is_left_child(&self) -> (b: bool)
        ensures
            b == (self.parent == Parent::Interval(Side::Left)),
    {
        match self.parent {
            Parent::Interval(Side::Left) => true,
            _ => false,
        }
    }

    /// Whether the node records that it fills the right slot of its parent.
    pub fn is_right_child(&self) -> (b: bool)
        ensures
            b == (self.parent == Parent::Interval(Side::Right)),
    {
        match self.parent {
            Parent::Interval(Side::Right) => true,
            _ => false,
        }
    }

    /// The length of the node's own range.
    pub fn length(&self) -> (n: usize)
        requires
            self.own_length() >= 0,
        ensures
            n == self.own_length(),
    {
        self.node.total_length - self.left_total_length() - self.right_total_length()
    }

    /// The left child.
    pub fn left(&self) -> (r: Option<&Interval>)
        ensures
            match self.left {
                Some(l) => r == Some(&*l),
                None => r is None,
            },
    {
        match &self.left {
            Some(l) => Some(&**l),
            None => None,
        }
    }

    /// The right child.
    pub fn right(&self) -> (r: Option<&Interval>)
        ensures
            match self.right {
                Some(x) => r == Some(&*x),
                None => r is None,
            },
    {
        match &self.right {
            Some(x) => Some(&**x),
            None => None,
        }
    }

    /// The container that owns the tree, if this node is its root.
    pub fn object(&self) -> (r: Option<Container>)
        ensures
            r == match self.parent {
                Parent::Object(c) => Some(c),
                Parent::Interval(_) => None,
            },
    {
        match self.parent {
            Parent::Object(c) => Some(c),
            Parent::Interval(_) => None,
        }
    }

    /// The left child, for changing it in place. Whatever the caller leaves
    /// behind the reference is the left child afterwards.
    pub fn left_mut(&mut self) -> (r: Option<&mut Interval>)
        ensures
            final(self).right == old(self).right,
            final(self).parent == old(self).parent,
            final(self).node == old(self).node,
            match old(self).left {
                Some(l) => r is Some && *r.unwrap() == *l
                    && final(self).left == Some(Box::new(*final(r.unwrap()))),
                None => r is None && final(self).left is None,
            },
    {
        match &mut self.left {
            Some(l) => Some(&mut **l),
            None => None,
        }
    }

    /// The right child, for changing it in place. Whatever the caller leaves
    /// behind the reference is the right child afterwards.
    pub fn right_mut(&mut self) -> (r: Option<&mut Interval>)
        ensures
            final(self).left == old(self).left,
            final(self).parent == old(self).parent,
            final(self).node == old(self).node,
            match old(self).right {
                Some(x) => r is Some && *r.unwrap() == *x
                    && final(self).right == Some(Box::new(*final(r.unwrap()))),
                None => r is None && final(self).right is None,
            },
    {
        match &mut self.right {
            Some(x) => Some(&mut **x),
            None => None,
        }
    }

    /// Detaches the left child and hands it over. Its back-reference is left
    /// as it was.
    pub fn take_left(&mut self) -> (r: Option<Interval>)
        ensures
            final(self).left is None,
            final(self).right == old(self).right,
            final(self).parent == old(self).parent,
            final(self).node == old(self).node,
            match old(self).left {
                Some(l) => r == Some(*l),
                None => r is None,
            },
    {
        match self.left.take() {
            Some(l) => Some(*l),
            None => None,
        }
    }

    /// Detaches the right child and hands it over. Its back-reference is left
    /// as it was.
    pub fn take_right(&mut self) -> (r: Option<Interval>)
        ensures
            final(self).right is None,
            final(self).left == old(self).left,
            final(self).parent == old(self).parent,
            final(self).node == old(self).node,
            match old(self).right {
                Some(x) => r == Some(*x),
                None => r is None,
            },
    {
        match self.right.take() {
            Some(x) => Some(*x),
            None => None,
        }
    }

    /// Installs `left` as the left child, which records its new slot. No
    /// weight is changed.
    pub fn set_left(&mut self, left: Interval)
        ensures
            final(self).left == Some(Box::new(left.with_parent(Parent::Interval(Side::Left)))),
            final(self).right == old(self).right,
            final(self).parent == old(self).parent,
            final(self).node == old(self).node,
    {
        let mut left = left;
        left.set_parent(Side::Left);
        self.left = Some(Box::new(left));
    }

    /// Installs `right` as the right child, which records its new slot. No
    /// weight is changed.
    pub fn set_right(&mut self, right: Interval)
        ensures
            final(self).right == Some(Box::new(right.with_parent(Parent::Interval(Side::Right)))),
            final(self).left == old(self).left,
            final(self).parent == old(self).parent,
            final(self).node == old(self).node,
    {
        let mut right = right;
        right.set_parent(Side::Right);
        self.right = Some(Box::new(right));
    }

    /// Records that the node fills the slot `side` of a parent node.
    pub fn set_parent(&mut self, side: Side)
        ensures
            *final(self) == old(self).with_parent(Parent::Interval(side)),
    {
        self.parent = Parent::Interval(side);
    }

    /// Makes both children record the slots that hold them.
    pub fn update_parents(&mut self)
        ensures
            *final(self) == old(self).relinked(),
    {
        match &mut self.left {
            Some(l) => {
                l.set_parent(Side::Left);
            },
            None => {},
        }
        match &mut self.right {
            Some(r) => {
                r.set_parent(Side::Right);
            },
            None => {},
        }
    }

    /// Records that the node is the root of the tree of `container`.
    pub fn set_object(&mut self, container: Container)
        ensures
            *final(self) == old(self).with_parent(Parent::Object(container)),
    {
        self.parent = Parent::Object(container);
    }

    /// Weight of the left subtree.
    pub fn left_total_length(&self) -> (n: usize)
        ensures
            n == self.left_weight(),
    {
        match &self.left {
            Some(l) => l.node.total_length,
            None => 0,
        }
    }

    /// Weight of the right subtree.
    pub fn right_total_length(&self) -> (n: usize)
        ensures
            n == self.right_weight(),
    {
        match &self.right {
            Some(r) => r.node.total_length,
            None => 0,
        }
    }

    /// The position just behind the node's own range, by its cached position.
    pub fn last_pos(&self) -> (n: usize)
        requires
            self.own_length() >= 0,
            self.node.position + self.own_length() <= usize::MAX,
        ensures
            n == self.node.position + self.own_length(),
    {
        self.node.position + self.length()
    }

    /// The first position of the sequence that the node's tree describes: that
    /// of the container for a root, 0 for any other node.
    pub fn start_pos(&self) -> (n: usize)
        ensures
            n == self.start(),
    {
        match self.parent {
            Parent::Interval(_) => 0,
            Parent::Object(c) => c.begin_offset(),
        }
    }

    /// Gives the node the properties of `source`: its four flags and a copy of
    /// its property list. Where neither has any property, nothing is done.
    /// Links, weight and cached position are never touched.
    pub fn copy_properties(&mut self, source: &Interval)
        ensures
            final(self).left == old(self).left,
            final(self).right == old(self).right,
            final(self).parent == old(self).parent,
            final(self).node.total_length == old(self).node.total_length,
            final(self).node.position == old(self).node.position,
            old(self).node.plist@.len() == 0 && source.node.plist@.len() == 0 ==> *final(self)
                == *old(self),
            !(old(self).node.plist@.len() == 0 && source.node.plist@.len() == 0) ==> {
                &&& final(self).node.write_protect == source.node.write_protect
                &&& final(self).node.visible == source.node.visible
                &&& final(self).node.front_sticky == source.node.front_sticky
                &&& final(self).node.rear_sticky == source.node.rear_sticky
                &&& final(self).node.plist@ == source.node.plist@
            },
    {
        if self.is_default() && source.is_default() {
            return ;
        }
        self.node.write_protect = source.node.write_protect;
        self.node.visible = source.node.visible;
        self.node.front_sticky = source.node.front_sticky;
        self.node.rear_sticky = source.node.rear_sticky;
        self.node.plist = source.node.plist.deep_copy();
    }

    /// Makes the node fit for use anew: it loses its children, its length,
    /// its cached position and its property list. The flags and the
    /// back-reference stay.
    pub fn reset(&mut self)
        ensures
            final(self).left is None,
            final(self).right is None,
            final(self).parent == old(self).parent,
            final(self).node.total_length == 0,
            final(self).node.position == 0,
            final(self).node.plist@.len() == 0,
            final(self).node.write_protect == old(self).node.write_protect,
            final(self).node.visible == old(self).node.visible,
            final(self).node.front_sticky == old(self).node.front_sticky,
            final(self).node.rear_sticky == old(self).node.rear_sticky,
    {
        self.left = None;
        self.right = None;
        self.node.total_length = 0;
        self.node.position = 0;
        self.node.plist = PropertyList::new();
    }

    /// Checks the tree against its invariants, for callers that cannot know
    /// of a tree where it came from: every node must weigh more than its
    /// children together, and every child must record the slot that holds it.
    pub fn validate(&self) -> (r: Result<(), IntervalError>)
        ensures
            r is Ok <==> self.wf(),
            r is Err ==> r == Err::<(), IntervalError>(IntervalError::ViolatedInvariant),
        decreases self,
    {
        let below_left = self.left_total_length();
        let below_right = self.right_total_length();
        if self.node.total_length <= below_left || self.node.total_length - below_left
            <= below_right {
            return Err(IntervalError::ViolatedInvariant);
        }
        match &self.left {
            Some(l) => {
                if !l.is_left_child() {
                    return Err(IntervalError::ViolatedInvariant);
                }
                match l.validate() {
                    Ok(_) => {},
                    Err(e) => {
                        return Err(e);
                    },
                }
            },
            None => {},
        }
        match &self.right {
            Some(r) => {
                if !r.is_right_child() {
                    return Err(IntervalError::ViolatedInvariant);
                }
                match r.validate() {
                    Ok(_) => {},
                    Err(e) => {
                        return Err(e);
                    },
                }
            },
            None => {},
        }
        Ok(())
    }
}

} // verus!
