use vstd::prelude::*;
use crate::interval::Interval;
use crate::node::{Node, Parent, Side};

verus! {

impl Interval {
    /// Whether the node can be rotated to the left: it has a right child, and
    /// both have a range of their own.
    pub open spec fn can_rotate_left(self) -> bool {
        &&& self.right is Some
        &&& self.own_length() > 0
        &&& self.right.unwrap().own_length() > 0
    }

    /// Whether the node can be rotated to the right: it has a left child, and
    /// both have a range of their own.
    pub open spec fn can_rotate_right(self) -> bool {
        &&& self.left is Some
        &&& self.own_length() > 0
        &&& self.left.unwrap().own_length() > 0
    }

    /// The tree after a rotation to the left. With `A` this node, `B` its
    /// right child and `d`, `c`, `e` the subtrees from left to right:
    ///
    /// ```text
    ///     A               B
    ///    / \             / \
    ///   d   B    =>     A   e
    ///      / \         / \
    ///     c   e       d   c
    /// ```
    ///
    /// `B` takes the weight and the back-reference that `A` had; `A` keeps its
    /// own range and weighs that with `d` and `c`.
    pub open spec fn rotated_left(self) -> Interval {
        let b = self.right.unwrap();
        let a = Interval {
            left: Self::linked(self.left, Side::Left),
            right: Self::linked(b.left, Side::Right),
            parent: Parent::Interval(Side::Left),
            node: Node {
                total_length: (self.node.total_length - (b.node.total_length - b.left_weight())) as usize,
                ..self.node
            },
        };
        Interval {
            left: Some(Box::new(a)),
            right: Self::linked(b.right, Side::Right),
            parent: self.parent,
            node: Node { total_length: self.node.total_length, ..b.node },
        }
    }

    /// The tree after a rotation to the right. With `A` this node, `B` its left
    /// child and `e`, `c`, `d` the subtrees from left to right:
    ///
    /// ```text
    ///       A           B
    ///      / \         / \
    ///     B   d  =>   e   A
    ///    / \             / \
    ///   e   c           c   d
    /// ```
    ///
    /// `B` takes the weight and the back-reference that `A` had; `A` keeps its
    /// own range and weighs that with `c` and `d`.
    pub open spec fn rotated_right(self) -> Interval {
        let b = self.left.unwrap();
        let a = Interval {
            left: Self::linked(b.right, Side::Left),
            right: Self::linked(self.right, Side::Right),
            parent: Parent::Interval(Side::Right),
            node: Node {
                total_length: (self.node.total_length - (b.node.total_length - b.right_weight())) as usize,
                ..self.node
            },
        };
        Interval {
            left: Self::linked(b.left, Side::Left),
            right: Some(Box::new(a)),
            parent: self.parent,
            node: Node { total_length: self.node.total_length, ..b.node },
        }
    }

    /// A rotation to the left keeps the spans, the size and the weight of the
    /// tree, every own range, and well-formedness.
    pub proof fn lemma_rotated_left(self)
        requires
            self.can_rotate_left(),
        ensures
            self.rotated_left()@ == self@,
            self.rotated_left().size() == self.size(),
            self.rotated_left().node.total_length == self.node.total_length,
            self.rotated_left().parent == self.parent,
            self.rotated_left().own_length() == self.right.unwrap().own_length(),
            self.rotated_left().left.unwrap().own_length() == self.own_length(),
            self.wf() ==> self.rotated_left().wf(),
    {
        let b = self.right.unwrap();
        let r = self.rotated_left();
        let a = r.left.unwrap();
        Self::lemma_linked(self.left, Side::Left);
        Self::lemma_linked(b.left, Side::Right);
        Self::lemma_linked(b.right, Side::Right);
        assert(a.own_span() == self.own_span());
        assert(r.own_span() == b.own_span());
        a.lemma_unfold();
        b.lemma_unfold();
        r.lemma_unfold();
        self.lemma_unfold();
        Self::lemma_regroup(
            Self::opt_spans(self.left),
            self.own_span(),
            Self::opt_spans(b.left),
            b.own_span(),
            Self::opt_spans(b.right),
        );
        if self.wf() {
            assert(b.wf());
            assert(a.wf());
        }
    }

    /// A rotation to the right keeps the spans, the size and the weight of the
    /// tree, every own range, and well-formedness.
    pub proof fn lemma_rotated_right(self)
        requires
            self.can_rotate_right(),
        ensures
            self.rotated_right()@ == self@,
            self.rotated_right().size() == self.size(),
            self.rotated_right().node.total_length == self.node.total_length,
            self.rotated_right().parent == self.parent,
            self.rotated_right().own_length() == self.left.unwrap().own_length(),
            self.rotated_right().right.unwrap().own_length() == self.own_length(),
            self.wf() ==> self.rotated_right().wf(),
    {
        let b = self.left.unwrap();
        let r = self.rotated_right();
        let a = r.right.unwrap();
        Self::lemma_linked(self.right, Side::Right);
        Self::lemma_linked(b.left, Side::Left);
        Self::lemma_linked(b.right, Side::Left);
        assert(a.own_span() == self.own_span());
        assert(r.own_span() == b.own_span());
        a.lemma_unfold();
        b.lemma_unfold();
        r.lemma_unfold();
        self.lemma_unfold();
        Self::lemma_regroup(
            Self::opt_spans(b.left),
            b.own_span(),
            Self::opt_spans(b.right),
            self.own_span(),
            Self::opt_spans(self.right),
        );
        if self.wf() {
            assert(b.wf());
            assert(a.wf());
        }
    }

    /// Rotates the node to the left in place: the payloads of the node and of
    /// its right child change places, then the subtrees are handed round, so
    /// that the cell under `self` stays where it is and what hangs above it
    /// is untouched.
    pub fn rotate_left(&mut self)
        requires
            old(self).can_rotate_left(),
        ensures
            *final(self) == old(self).rotated_left(),
            final(self).own_length() == old(self).right.unwrap().own_length(),
            final(self).left.unwrap().own_length() == old(self).own_length(),
            final(self)@ == old(self)@,
            final(self).size() == old(self).size(),
            final(self).node.total_length == old(self).node.total_length,
            final(self).parent == old(self).parent,
            old(self).wf() ==> final(self).wf(),
    {
        proof {
            old(self).lemma_rotated_left();
        }
        let old_total = self.node.total_length;
        // The payloads of A and B change places.
        match self.right.as_mut() {
            Some(right) => core::mem::swap(&mut self.node, &mut right.node),
            None => return ,
        }
        // The cell that now holds A's payload moves to the left; d to the right.
        core::mem::swap(&mut self.left, &mut self.right);
        let a = self.left.as_mut().unwrap();
        // d and e change places.
        core::mem::swap(&mut self.right, &mut a.right);
        match self.right.as_mut() {
            Some(e) => e.set_parent(Side::Right),
            None => {},
        }
        // d and c change places.
        core::mem::swap(&mut a.left, &mut a.right);
        a.set_parent(Side::Left);
        a.update_parents();
        // A no longer weighs B's own range nor e.
        a.node.total_length = a.node.total_length - (self.node.total_length
            - a.right_total_length());
        // B weighs what A weighed.
        self.node.total_length = old_total;
    }

    /// Rotates the node to the right in place: the payloads of the node and of
    /// its left child change places, then the subtrees are handed round, so
    /// that the cell under `self` stays where it is and what hangs above it
    /// is untouched.
    pub fn rotate_right(&mut self)
        requires
            old(self).can_rotate_right(),
        ensures
            *final(self) == old(self).rotated_right(),
            final(self).own_length() == old(self).left.unwrap().own_length(),
            final(self).right.unwrap().own_length() == old(self).own_length(),
            final(self)@ == old(self)@,
            final(self).size() == old(self).size(),
            final(self).node.total_length == old(self).node.total_length,
            final(self).parent == old(self).parent,
            old(self).wf() ==> final(self).wf(),
    {
        proof {
            old(self).lemma_rotated_right();
        }
        let old_total = self.node.total_length;
        // The payloads of A and B change places.
        match self.left.as_mut() {
            Some(left) => core::mem::swap(&mut self.node, &mut left.node),
            None => return ,
        }
        // The cell that now holds A's payload moves to the right; d to the left.
        core::mem::swap(&mut self.left, &mut self.right);
        let a = self.right.as_mut().unwrap();
        // d and e change places.
        core::mem::swap(&mut self.left, &mut a.left);
        match self.left.as_mut() {
            Some(e) => e.set_parent(Side::Left),
            None => {},
        }
        // d and c change places.
        core::mem::swap(&mut a.left, &mut a.right);
        a.set_parent(Side::Right);
        a.update_parents();
        // A no longer weighs B's own range nor e.
        a.node.total_length = a.node.total_length - (self.node.total_length
            - a.left_total_length());
        // B weighs what A weighed.
        self.node.total_length = old_total;
    }

    /// Rotates to the left a node that the caller holds by value, and hands
    /// back the new root of the subtree: the former right child, with the
    /// back-reference that the node had. The caller puts it where the node was.
    pub fn rotate_left_owned(self) -> (r: Interval)
        requires
            self.can_rotate_left(),
        ensures
            r == self.rotated_left(),
            r.own_length() == self.right.unwrap().own_length(),
            r.left.unwrap().own_length() == self.own_length(),
            r@ == self@,
            r.size() == self.size(),
            r.node.total_length == self.node.total_length,
            r.parent == self.parent,
            self.wf() ==> r.wf(),
    {
        proof {
            self.lemma_rotated_left();
        }
        let mut a = self;
        let old_total = a.node.total_length;
        let mut b = match a.take_right() {
            Some(right) => right,
            None => return a,
        };
        let c = b.take_left();
        let parent = a.parent;
        // A becomes the parent of c.
        match c {
            Some(c) => a.set_right(c),
            None => {},
        }
        a.update_parents();
        // A no longer weighs B's own range nor e.
        a.node.total_length = a.node.total_length - (b.node.total_length - a.right_total_length());
        // B becomes the parent of A and weighs what A weighed.
        b.set_left(a);
        b.update_parents();
        b.node.total_length = old_total;
        b.parent = parent;
        b
    }

    /// Rotates to the right a node that the caller holds by value, and hands
    /// back the new root of the subtree: the former left child, with the
    /// back-reference that the node had. The caller puts it where the node was.
    pub fn rotate_right_owned(self) -> (r: Interval)
        requires
            self.can_rotate_right(),
        ensures
            r == self.rotated_right(),
            r.own_length() == self.left.unwrap().own_length(),
            r.right.unwrap().own_length() == self.own_length(),
            r@ == self@,
            r.size() == self.size(),
            r.node.total_length == self.node.total_length,
            r.parent == self.parent,
            self.wf() ==> r.wf(),
    {
        proof {
            self.lemma_rotated_right();
        }
        let mut a = self;
        let old_total = a.node.total_length;
        let mut b = match a.take_left() {
            Some(left) => left,
            None => return a,
        };
        let c = b.take_right();
        let parent = a.parent;
        // A becomes the parent of c.
        match c {
            Some(c) => a.set_left(c),
            None => {},
        }
        a.update_parents();
        // A no longer weighs B's own range nor e.
        a.node.total_length = a.node.total_length - (b.node.total_length - a.left_total_length());
        // B becomes the parent of A and weighs what A weighed.
        b.set_right(a);
        b.update_parents();
        b.node.total_length = old_total;
        b.parent = parent;
        b
    }
}

} // verus!
