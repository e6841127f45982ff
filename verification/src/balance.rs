use vstd::prelude::*;
use crate::interval::Interval;
use crate::node::Side;

verus! {

impl Interval {
    /// By how much the left subtree outweighs the right one.
    pub open spec fn imbalance(self) -> int {
        self.left_weight() - self.right_weight()
    }

    /// The imbalance that the node would have after a rotation to the right.
    pub open spec fn imbalance_rotated_right(self) -> int {
        let b = self.left.unwrap();
        b.left_weight() - (self.node.total_length - b.node.total_length + b.right_weight())
    }

    /// The imbalance that the node would have after a rotation to the left.
    pub open spec fn imbalance_rotated_left(self) -> int {
        let b = self.right.unwrap();
        (self.node.total_length - b.node.total_length + b.left_weight()) - b.right_weight()
    }

    /// The absolute value of a difference in weight.
    pub open spec fn magnitude(d: int) -> int {
        if d < 0 {
            -d
        } else {
            d
        }
    }

    /// The subtrees of this node differ in weight by no more than they would
    /// after a rotation of the node towards the lighter side.
    pub open spec fn locally_balanced(self) -> bool {
        &&& self.imbalance() > 0 ==> Self::magnitude(self.imbalance_rotated_right())
            >= self.imbalance()
        &&& self.imbalance() < 0 ==> Self::magnitude(self.imbalance_rotated_left())
            >= -self.imbalance()
    }

    /// Every node of the tree is locally balanced.
    pub open spec fn balanced(self) -> bool
        decreases self,
    {
        &&& self.locally_balanced()
        &&& match self.left {
            Some(l) => l.balanced(),
            None => true,
        }
        &&& match self.right {
            Some(r) => r.balanced(),
            None => true,
        }
    }

    /// Whether every node of an optional subtree is locally balanced.
    pub open spec fn opt_balanced(t: Option<Box<Interval>>) -> bool {
        match t {
            Some(b) => b.balanced(),
            None => true,
        }
    }

    /// Every node under this one is locally balanced.
    pub open spec fn children_balanced(self) -> bool {
        Self::opt_balanced(self.left) && Self::opt_balanced(self.right)
    }

    /// Whether `after`, a tree that a step of balancing made of this one, is
    /// nearer to balance: it is well formed, has the size of this tree, and
    /// its two subtrees are strictly closer in weight.
    pub open spec fn nearer_balance(self, after: Interval) -> bool {
        &&& after.wf()
        &&& after.size() == self.size()
        &&& Self::magnitude(after.imbalance()) < Self::magnitude(self.imbalance())
    }

    /// The tree after the root was balanced against its children: as long as
    /// a rotation towards the lighter side brings the weights of the two
    /// subtrees strictly closer, the root is rotated and the node that moved
    /// down is balanced in turn. A tree that is not well formed, or whose root
    /// is locally balanced, stays.
    ///
    /// Every step leaves a tree that is nearer to balance
    /// (`lemma_rebalanced_step`), which is why the steps come to an end.
    pub open spec fn rebalanced(self) -> Interval
        decreases self.size(), Self::magnitude(self.imbalance()),
    {
        if !self.wf() || self.locally_balanced() {
            self
        } else if self.imbalance() > 0 {
            let rotated = self.rotated_right();
            let moved = rotated.right.unwrap();
            proof {
                assert(self.left.unwrap().wf());
                self.lemma_rotated_right();
                rotated.lemma_unfold();
            }
            let after = Interval { right: Some(Box::new(moved.rebalanced())), ..rotated };
            if self.nearer_balance(after) {
                after.rebalanced()
            } else {
                after
            }
        } else {
            let rotated = self.rotated_left();
            let moved = rotated.left.unwrap();
            proof {
                assert(self.right.unwrap().wf());
                self.lemma_rotated_left();
                rotated.lemma_unfold();
            }
            let after = Interval { left: Some(Box::new(moved.rebalanced())), ..rotated };
            if self.nearer_balance(after) {
                after.rebalanced()
            } else {
                after
            }
        }
    }

    /// The tree after balancing: both subtrees first, then the root against
    /// them.
    pub open spec fn balanced_tree(self) -> Interval
        decreases self,
    {
        (Interval {
            left: Self::opt_balanced_tree(self.left),
            right: Self::opt_balanced_tree(self.right),
            ..self
        }).rebalanced()
    }

    /// An optional subtree after balancing.
    pub open spec fn opt_balanced_tree(t: Option<Box<Interval>>) -> Option<Box<Interval>>
        decreases t,
    {
        match t {
            Some(b) => Some(Box::new(b.balanced_tree())),
            None => None,
        }
    }

    /// The tree after a root was balanced against its children; any other
    /// node stays.
    pub open spec fn root_rebalanced(self) -> Interval {
        if self.parent is Object {
            self.rebalanced()
        } else {
            self
        }
    }

    /// The imbalance foreseen for a rotation is the one that the rotated tree has.
    pub proof fn lemma_imbalance_rotated(self)
        ensures
            self.can_rotate_right() ==> self.rotated_right().imbalance()
                == self.imbalance_rotated_right(),
            self.can_rotate_left() ==> self.rotated_left().imbalance()
                == self.imbalance_rotated_left(),
    {
        if self.can_rotate_right() {
            Self::lemma_linked(self.left.unwrap().left, Side::Left);
        }
        if self.can_rotate_left() {
            Self::lemma_linked(self.right.unwrap().right, Side::Right);
        }
    }

    /// Whether a tree is balanced does not depend on the back-reference of its root.
    pub proof fn lemma_linked_balanced(t: Option<Box<Interval>>, side: Side)
        ensures
            Self::opt_balanced(Self::linked(t, side)) == Self::opt_balanced(t),
    {
    }

    /// After a rotation, the subtrees of the node that moved down are balanced
    /// if all subtrees of the node were, and so is the subtree that moved up.
    pub proof fn lemma_rotated_children_balanced(self)
        requires
            self.children_balanced(),
        ensures
            self.can_rotate_right() ==> self.rotated_right().right.unwrap().children_balanced()
                && Self::opt_balanced(self.rotated_right().left),
            self.can_rotate_left() ==> self.rotated_left().left.unwrap().children_balanced()
                && Self::opt_balanced(self.rotated_left().right),
    {
        if self.can_rotate_right() {
            let b = self.left.unwrap();
            assert(b.balanced());
            Self::lemma_linked_balanced(b.left, Side::Left);
            Self::lemma_linked_balanced(b.right, Side::Left);
            Self::lemma_linked_balanced(self.right, Side::Right);
        }
        if self.can_rotate_left() {
            let b = self.right.unwrap();
            assert(b.balanced());
            Self::lemma_linked_balanced(b.left, Side::Right);
            Self::lemma_linked_balanced(b.right, Side::Right);
            Self::lemma_linked_balanced(self.left, Side::Left);
        }
    }

    /// Balancing the root of a well-formed tree against its children keeps
    /// the tree well formed and keeps its spans, its size, its weight and its
    /// back-reference; the root is locally balanced afterwards, and every node
    /// is if those of both subtrees were before.
    pub proof fn lemma_rebalanced(self)
        requires
            self.wf(),
        ensures
            self.rebalanced().wf(),
            self.rebalanced()@ == self@,
            self.rebalanced().size() == self.size(),
            self.rebalanced().node.total_length == self.node.total_length,
            self.rebalanced().parent == self.parent,
            self.rebalanced().locally_balanced(),
            self.children_balanced() ==> self.rebalanced().balanced(),
            self.locally_balanced() ==> self.rebalanced() == self,
        decreases self.size(), Self::magnitude(self.imbalance()),
    {
        if !self.locally_balanced() {
            self.lemma_imbalance_rotated();
            if self.children_balanced() {
                self.lemma_rotated_children_balanced();
            }
            if self.imbalance() > 0 {
                assert(self.left.unwrap().wf());
                self.lemma_rotated_right();
                let rotated = self.rotated_right();
                let moved = rotated.right.unwrap();
                rotated.lemma_unfold();
                moved.lemma_rebalanced();
                let after = Interval { right: Some(Box::new(moved.rebalanced())), ..rotated };
                after.lemma_unfold();
                assert(self.nearer_balance(after));
                after.lemma_rebalanced();
            } else {
                assert(self.right.unwrap().wf());
                self.lemma_rotated_left();
                let rotated = self.rotated_left();
                let moved = rotated.left.unwrap();
                rotated.lemma_unfold();
                moved.lemma_rebalanced();
                let after = Interval { left: Some(Box::new(moved.rebalanced())), ..rotated };
                after.lemma_unfold();
                assert(self.nearer_balance(after));
                after.lemma_rebalanced();
            }
        }
    }

    /// Balancing a well-formed tree keeps it well formed and keeps its spans,
    /// its size, its weight and its back-reference; every node is locally
    /// balanced afterwards. A balanced tree stays as it is.
    pub proof fn lemma_balanced_tree(self)
        requires
            self.wf(),
        ensures
            self.balanced_tree().wf(),
            self.balanced_tree()@ == self@,
            self.balanced_tree().size() == self.size(),
            self.balanced_tree().node.total_length == self.node.total_length,
            self.balanced_tree().parent == self.parent,
            self.balanced_tree().balanced(),
            self.balanced() ==> self.balanced_tree() == self,
        decreases self,
    {
        let below = Interval {
            left: Self::opt_balanced_tree(self.left),
            right: Self::opt_balanced_tree(self.right),
            ..self
        };
        match self.left {
            Some(l) => l.lemma_balanced_tree(),
            None => {},
        }
        match self.right {
            Some(r) => r.lemma_balanced_tree(),
            None => {},
        }
        self.lemma_unfold();
        below.lemma_unfold();
        assert(below.wf());
        below.lemma_rebalanced();
        if self.balanced() {
            assert(below == self);
        }
    }

    /// How far a rotation of this node, which weighs `total`, over its child
    /// `top` would leave the two subtrees apart in weight. `inner` is the
    /// weight of the subtree of `top` that would change sides, `outer` that of
    /// the one that would stay.
    fn rotated_gap(total: usize, top: usize, inner: usize, outer: usize) -> (gap: usize)
        requires
            top <= total,
            inner + outer <= top,
        ensures
            gap == Self::magnitude(outer - (total - top + inner)),
    {
        let moved = total - top + inner;
        if moved >= outer {
            moved - outer
        } else {
            outer - moved
        }
    }

    /// Whether no rotation of this node would bring the weights of its two
    /// subtrees strictly closer.
    pub fn is_locally_balanced(&self) -> (b: bool)
        requires
            self.wf(),
        ensures
            b == self.locally_balanced(),
    {
        let l = self.left_total_length();
        let r = self.right_total_length();
        if l > r {
            match &self.left {
                Some(left) => {
                    assert(left.wf());
                    Self::rotated_gap(
                        self.node.total_length,
                        left.node.total_length,
                        left.right_total_length(),
                        left.left_total_length(),
                    ) >= l - r
                },
                None => true,
            }
        } else if l < r {
            match &self.right {
                Some(right) => {
                    assert(right.wf());
                    Self::rotated_gap(
                        self.node.total_length,
                        right.node.total_length,
                        right.left_total_length(),
                        right.right_total_length(),
                    ) >= r - l
                },
                None => true,
            }
        } else {
            true
        }
    }

    /// Whether every node of the tree is locally balanced.
    pub fn is_balanced(&self) -> (b: bool)
        requires
            self.wf(),
        ensures
            b == self.balanced(),
        decreases self,
    {
        if !self.is_locally_balanced() {
            return false;
        }
        match &self.left {
            Some(left) => {
                if !left.is_balanced() {
                    return false;
                }
            },
            None => {},
        }
        match &self.right {
            Some(right) => {
                if !right.is_balanced() {
                    return false;
                }
            },
            None => {},
        }
        true
    }

    /// Balances the node against its children: as long as a rotation towards
    /// the lighter side brings the weights of the two subtrees strictly closer,
    /// the node is rotated and the node that moved down is balanced in turn.
    ///
    /// The spans, the size, the weight and the back-reference of the tree stay.
    /// If the subtrees were balanced throughout, the whole tree is afterwards.
    /// A node that is locally balanced already is left untouched.
    pub fn balance_self(&mut self)
        requires
            old(self).wf(),
        ensures
            final(self).wf(),
            final(self)@ == old(self)@,
            final(self).size() == old(self).size(),
            final(self).node.total_length == old(self).node.total_length,
            final(self).parent == old(self).parent,
            final(self).locally_balanced(),
            old(self).children_balanced() ==> final(self).balanced(),
            old(self).locally_balanced() ==> *final(self) == *old(self),
            *final(self) == old(self).rebalanced(),
        decreases old(self).size(),
    {
        loop
            invariant
                self.wf(),
                self.rebalanced() == old(self).rebalanced(),
                self@ == old(self)@,
                self.size() == old(self).size(),
                self.node.total_length == old(self).node.total_length,
                self.parent == old(self).parent,
                old(self).children_balanced() ==> self.children_balanced(),
                old(self).locally_balanced() ==> *self == *old(self),
            ensures
                self.locally_balanced(),
            decreases Self::magnitude(self.imbalance()),
        {
            let l = self.left_total_length();
            let r = self.right_total_length();
            if l > r {
                let left = self.left.as_ref().unwrap();
                assert(left.wf());
                let new_diff = Self::rotated_gap(
                    self.node.total_length,
                    left.node.total_length,
                    left.right_total_length(),
                    left.left_total_length(),
                );
                if new_diff >= l - r {
                    break ;
                }
                let ghost before = *self;
                proof {
                    self.lemma_imbalance_rotated();
                    if self.children_balanced() {
                        self.lemma_rotated_children_balanced();
                    }
                    self.rotated_right().lemma_unfold();
                }
                self.rotate_right();
                match self.right.as_mut() {
                    Some(right) => right.balance_self(),
                    None => {},
                }
                proof {
                    self.lemma_unfold();
                    assert(before.nearer_balance(*self));
                    assert(before.rebalanced() == self.rebalanced());
                }
            } else if l < r {
                let right = self.right.as_ref().unwrap();
                assert(right.wf());
                let new_diff = Self::rotated_gap(
                    self.node.total_length,
                    right.node.total_length,
                    right.left_total_length(),
                    right.right_total_length(),
                );
                if new_diff >= r - l {
                    break ;
                }
                let ghost before = *self;
                proof {
                    self.lemma_imbalance_rotated();
                    if self.children_balanced() {
                        self.lemma_rotated_children_balanced();
                    }
                    self.rotated_left().lemma_unfold();
                }
                self.rotate_left();
                match self.left.as_mut() {
                    Some(left) => left.balance_self(),
                    None => {},
                }
                proof {
                    self.lemma_unfold();
                    assert(before.nearer_balance(*self));
                    assert(before.rebalanced() == self.rebalanced());
                }
            } else {
                break ;
            }
        }
    }

    /// Balances the whole tree: both subtrees first, then the node against them.
    ///
    /// The spans, the size, the weight and the back-reference of the tree stay,
    /// and every node is locally balanced afterwards. A balanced tree is left
    /// untouched.
    pub fn balance(&mut self)
        requires
            old(self).wf(),
        ensures
            final(self).wf(),
            final(self)@ == old(self)@,
            final(self).size() == old(self).size(),
            final(self).node.total_length == old(self).node.total_length,
            final(self).parent == old(self).parent,
            final(self).balanced(),
            old(self).balanced() ==> *final(self) == *old(self),
            *final(self) == old(self).balanced_tree(),
        decreases old(self).size(),
    {
        proof {
            self.lemma_unfold();
        }
        match self.left.as_mut() {
            Some(left) => left.balance(),
            None => {},
        }
        match self.right.as_mut() {
            Some(right) => right.balance(),
            None => {},
        }
        proof {
            self.lemma_unfold();
        }
        self.balance_self();
    }

    /// Balances the node against its children if it is the root of a
    /// container's tree; any other node is left as it is. The cell under
    /// `self` stays the root, so the container has nothing to attach anew.
    pub fn balance_possible_root(&mut self)
        requires
            old(self).wf(),
        ensures
            final(self).wf(),
            final(self)@ == old(self)@,
            final(self).size() == old(self).size(),
            final(self).node.total_length == old(self).node.total_length,
            final(self).parent == old(self).parent,
            old(self).parent is Object ==> final(self).locally_balanced(),
            old(self).parent is Object && old(self).children_balanced() ==> final(self).balanced(),
            old(self).parent is Interval || old(self).locally_balanced() ==> *final(self) == *old(self),
            *final(self) == old(self).root_rebalanced(),
    {
        if self.has_object() {
            self.balance_self();
        }
    }
}

} // verus!
