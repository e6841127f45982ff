use vstd::prelude::*;
use crate::interval::Interval;
use crate::node::{Node, Side, Span};

verus! {

impl Interval {
    /// A rotation to the left undoes a rotation to the right: in a
    /// well-formed tree with a left child, rotating the root to the right
    /// and then to the left gives the tree back, with every weight, payload
    /// and subtree where it was.
    pub proof fn lemma_rotate_right_then_left(self)
        requires
            self.wf(),
            self.left is Some,
        ensures
            self.can_rotate_right(),
            self.rotated_right().can_rotate_left(),
            self.rotated_right().rotated_left() == self,
    {
        let b = self.left.unwrap();
        assert(b.wf());
        self.lemma_rotated_right();
        let r = self.rotated_right();
        Self::lemma_linked(b.left, Side::Left);
        Self::lemma_linked(b.right, Side::Left);
        Self::lemma_linked(b.right, Side::Right);
        Self::lemma_linked(self.right, Side::Right);
        Self::lemma_linked(Self::linked(b.left, Side::Left), Side::Left);
        Self::lemma_linked(Self::linked(b.right, Side::Left), Side::Right);
        Self::lemma_linked(Self::linked(self.right, Side::Right), Side::Right);
        let back = r.rotated_left();
        assert(back.node == self.node);
        assert(back.right == self.right);
        assert(back.left.unwrap().node == b.node);
        assert(back.left.unwrap().left == b.left);
        assert(back.left.unwrap().right == b.right);
        assert(*back.left.unwrap() == *b);
    }

    /// A rotation to the right undoes a rotation to the left: in a
    /// well-formed tree with a right child, rotating the root to the left
    /// and then to the right gives the tree back, with every weight, payload
    /// and subtree where it was.
    pub proof fn lemma_rotate_left_then_right(self)
        requires
            self.wf(),
            self.right is Some,
        ensures
            self.can_rotate_left(),
            self.rotated_left().can_rotate_right(),
            self.rotated_left().rotated_right() == self,
    {
        let b = self.right.unwrap();
        assert(b.wf());
        self.lemma_rotated_left();
        let r = self.rotated_left();
        Self::lemma_linked(b.left, Side::Right);
        Self::lemma_linked(b.left, Side::Left);
        Self::lemma_linked(b.right, Side::Right);
        Self::lemma_linked(self.left, Side::Left);
        Self::lemma_linked(Self::linked(b.right, Side::Right), Side::Right);
        Self::lemma_linked(Self::linked(b.left, Side::Right), Side::Left);
        Self::lemma_linked(Self::linked(self.left, Side::Left), Side::Left);
        let back = r.rotated_right();
        assert(back.node == self.node);
        assert(back.left == self.left);
        assert(back.right.unwrap().node == b.node);
        assert(back.right.unwrap().left == b.left);
        assert(back.right.unwrap().right == b.right);
        assert(*back.right.unwrap() == *b);
    }

    /// A split that calls for no rotation gives the spliced tree as it is.
    pub proof fn lemma_split_in_place(self, offset: int, piece: Node)
        requires
            self.wf(),
            0 < offset < self.own_length(),
            self.node.position + offset <= usize::MAX,
        ensures
            self.splits_left_in_place(offset) && Self::is_piece(
                piece,
                offset,
                self.left_weight() as int,
                self.node.position as int,
            ) ==> self.split_left_tree(offset, piece) == self.spliced_left(offset, piece),
            self.splits_right_in_place(offset) && Self::is_piece(
                piece,
                self.own_length() - offset,
                self.right_weight() as int,
                self.node.position + offset,
            ) ==> self.split_right_tree(piece) == self.spliced_right(piece),
    {
        self.lemma_spliced_balance(offset, piece);
        if self.splits_left_in_place(offset) && Self::is_piece(
            piece,
            offset,
            self.left_weight() as int,
            self.node.position as int,
        ) {
            self.lemma_spliced_left(offset, piece);
            let spliced = self.spliced_left(offset, piece);
            spliced.left.unwrap().lemma_rebalanced();
            spliced.lemma_rebalanced();
        }
        if self.splits_right_in_place(offset) && Self::is_piece(
            piece,
            self.own_length() - offset,
            self.right_weight() as int,
            self.node.position + offset,
        ) {
            self.lemma_spliced_right(offset, piece);
            let spliced = self.spliced_right(piece);
            spliced.right.unwrap().lemma_rebalanced();
            spliced.lemma_rebalanced();
        }
    }

    /// A split to the left is undone by the removal of the new piece, where
    /// the node had a left child and the split called for no rotation: once
    /// the new node that the split hung over that child is removed, the child
    /// is back in the left slot and the node is what it was, with its weight,
    /// its own length and its properties; of the split only the move of its
    /// cached position is left.
    pub proof fn lemma_split_left_then_delete(self, offset: int, piece: Node)
        requires
            self.wf(),
            self.left is Some,
            0 < offset < self.own_length(),
            self.node.position + offset <= usize::MAX,
            Self::is_piece(piece, offset, self.left_weight() as int, self.node.position as int),
            self.splits_left_in_place(offset),
        ensures
            ({
                let split = self.split_left_tree(offset, piece);
                let restored = Interval {
                    left: Some(Box::new(split.left.unwrap().deleted())),
                    ..split
                };
                &&& split.left is Some
                &&& restored == self.with_position((self.node.position + offset) as usize)
                &&& restored.node.total_length == self.node.total_length
                &&& restored.own_length() == self.own_length()
                &&& restored@ == self@.update(
                    Self::opt_size(self.left) as int,
                    restored.own_span(),
                )
            }),
    {
        self.lemma_split_in_place(offset, piece);
        let l = self.left.unwrap();
        let spliced = self.spliced_left(offset, piece);
        let m = spliced.left.unwrap();
        Self::lemma_linked(self.left, Side::Left);
        Self::lemma_linked(l.left, Side::Left);
        Self::lemma_linked(l.right, Side::Right);
        assert(l.wf());
        assert(m.deleted() == *l);
        let moved = (self.node.position + offset) as usize;
        let restored = Interval { left: Some(Box::new(m.deleted())), ..spliced };
        assert(restored == self.with_position(moved));
        self.lemma_with_position_at(Seq::empty(), moved);
        assert(self.with_position_at(Seq::empty(), moved) == self.with_position(moved));
        self.lemma_unfold();
        l.lemma_unfold();
        assert(self@[Self::opt_size(self.left) as int] == self.own_span());
        assert(restored.own_span() == Span { position: moved as nat, ..self.own_span() });
    }

    /// A split to the right is undone by the removal of the new piece, where
    /// the node had a right child and the split called for no rotation: once
    /// the new node that the split hung over that child is removed, the child
    /// is back in the right slot and the node is exactly what it was.
    pub proof fn lemma_split_right_then_delete(self, offset: int, piece: Node)
        requires
            self.wf(),
            self.right is Some,
            0 < offset < self.own_length(),
            self.node.position + offset <= usize::MAX,
            Self::is_piece(
                piece,
                self.own_length() - offset,
                self.right_weight() as int,
                self.node.position + offset,
            ),
            self.splits_right_in_place(offset),
        ensures
            ({
                let split = self.split_right_tree(piece);
                let restored = Interval {
                    right: Some(Box::new(split.right.unwrap().deleted())),
                    ..split
                };
                split.right is Some && restored == self
            }),
    {
        self.lemma_split_in_place(offset, piece);
        let r = self.right.unwrap();
        let spliced = self.spliced_right(piece);
        let m = spliced.right.unwrap();
        Self::lemma_linked(self.right, Side::Right);
        Self::lemma_linked(r.left, Side::Left);
        Self::lemma_linked(r.right, Side::Right);
        assert(r.wf());
        assert(m.deleted() == *r);
    }

    /// Balancing comes to rest: a tree that was balanced is left untouched
    /// when it is balanced again.
    pub proof fn lemma_balance_fixpoint(self)
        requires
            self.wf(),
        ensures
            self.balanced_tree().balanced(),
            self.balanced_tree().balanced_tree() == self.balanced_tree(),
    {
        self.lemma_balanced_tree();
        self.balanced_tree().lemma_balanced_tree();
    }

    /// The own range of a successor starts where that of the node ends, and
    /// the own range of a predecessor ends where that of the node starts.
    pub proof fn lemma_neighbours_adjoin(self, path: Seq<Side>)
        requires
            self.wf(),
            self.has_path(path),
        ensures
            match self.next_path(path) {
                Some(q) => self.span_start(q) == self.span_start(path) + self.node_at(
                    path,
                ).own_length(),
                None => self.span_start(path) + self.node_at(path).own_length()
                    == self.node.total_length,
            },
            match self.prev_path(path) {
                Some(q) => self.span_start(q) + self.node_at(q).own_length() == self.span_start(
                    path,
                ),
                None => self.span_start(path) == 0,
            },
    {
        self.lemma_path(path);
        self.lemma_next_path(path);
        self.lemma_prev_path(path);
        self.lemma_weight_is_span_length();
        match self.next_path(path) {
            Some(q) => {
                self.lemma_path(q);
            },
            None => {},
        }
        match self.prev_path(path) {
            Some(q) => {
                self.lemma_path(q);
            },
            None => {},
        }
    }
}

} // verus!
