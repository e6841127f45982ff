use vstd::prelude::*;
use crate::interval::Interval;
use crate::node::{Node, Parent, Side, Span};
use crate::properties::Property;

verus! {

// Removing a node.
impl Interval {
    /// This tree with `left` hung under its first node, every node on the way
    /// down weighing that much more.
    pub open spec fn absorbed(self, left: Interval) -> Interval
        decreases self,
    {
        Interval {
            left: match self.left {
                Some(l) => Some(Box::new(l.absorbed(left))),
                None => Some(Box::new(left.with_parent(Parent::Interval(Side::Left)))),
            },
            node: Node {
                total_length: (self.node.total_length + left.node.total_length) as usize,
                ..self.node
            },
            ..self
        }
    }

    /// This cell holding the root of `t` in its place: payload and children
    /// are those of `t`, the back-reference stays.
    pub open spec fn replaced_by(self, t: Interval) -> Interval {
        Interval {
            left: Self::linked(t.left, Side::Left),
            right: Self::linked(t.right, Side::Right),
            parent: self.parent,
            node: t.node,
        }
    }

    /// The tree after the removal of its root: the two subtrees merged into
    /// one, the right one on top. A root without children stays.
    pub open spec fn deleted(self) -> Interval {
        match (self.left, self.right) {
            (None, None) => self,
            (Some(l), None) => self.replaced_by(*l),
            (None, Some(r)) => self.replaced_by(*r),
            (Some(l), Some(r)) => self.replaced_by(r.absorbed(*l)),
        }
    }

    /// A tree that absorbed another holds the spans of the other before its
    /// own, and the nodes and the weight of both.
    pub proof fn lemma_absorbed(self, left: Interval)
        requires
            self.wf(),
            left.wf(),
            self.node.total_length + left.node.total_length <= usize::MAX,
        ensures
            self.absorbed(left)@ == left@ + self@,
            self.absorbed(left).size() == left.size() + self.size(),
            self.absorbed(left).wf(),
            self.absorbed(left).node.total_length == self.node.total_length
                + left.node.total_length,
            self.absorbed(left).parent == self.parent,
            self.absorbed(left).own_span() == self.own_span(),
        decreases self,
    {
        let t = self.absorbed(left);
        self.lemma_unfold();
        t.lemma_unfold();
        match self.left {
            Some(l) => {
                l.lemma_absorbed(left);
                assert(t@ =~= left@ + self@);
            },
            None => {
                left.lemma_with_parent(Parent::Interval(Side::Left));
                assert(t@ =~= left@ + self@);
            },
        }
    }

    /// A cell that takes the place of the root of a tree has the spans, the
    /// size and the weight of that tree, and is well formed if the tree is.
    pub proof fn lemma_replaced_by(self, t: Interval)
        ensures
            self.replaced_by(t)@ == t@,
            self.replaced_by(t).size() == t.size(),
            t.wf() ==> self.replaced_by(t).wf(),
            self.replaced_by(t).node.total_length == t.node.total_length,
            t.wf() ==> self.replaced_by(t) == t.with_parent(self.parent),
    {
        Self::lemma_linked(t.left, Side::Left);
        Self::lemma_linked(t.right, Side::Right);
        self.replaced_by(t).lemma_unfold();
        t.lemma_unfold();
    }

    /// Hangs `left` under the first node of this tree and adds its weight to
    /// every node on the way down.
    fn absorb(&mut self, left: Interval)
        requires
            old(self).wf(),
            old(self).node.total_length + left.node.total_length <= usize::MAX,
        ensures
            *final(self) == old(self).absorbed(left),
        decreases *old(self),
    {
        self.node.total_length = self.node.total_length + left.node.total_length;
        if self.left.is_some() {
            match self.left.as_mut() {
                Some(l) => l.absorb(left),
                None => {},
            }
        } else {
            self.set_left(left);
        }
    }

    /// Removes the node from its tree by merging its subtrees into one, which
    /// takes its place in this cell; the node's own range and properties are
    /// dropped. With one child, the child takes the place. With two, the left
    /// subtree is hung under the first node of the right one, and every node
    /// on the way down weighs that much more. A node without children stays
    /// as it is: only its parent could unhook it.
    pub fn delete(&mut self)
        requires
            old(self).wf(),
        ensures
            *final(self) == old(self).deleted(),
            final(self).parent == old(self).parent,
            old(self).left is None && old(self).right is None ==> *final(self) == *old(self),
            old(self).left is Some || old(self).right is Some ==> {
                &&& final(self).wf()
                &&& final(self)@ == Self::opt_spans(old(self).left) + Self::opt_spans(
                    old(self).right,
                )
                &&& final(self).size() == old(self).size() - 1
                &&& final(self).node.total_length == old(self).left_weight() + old(
                    self,
                ).right_weight()
            },
    {
        proof {
            self.lemma_unfold();
        }
        let merged = match (self.take_left(), self.take_right()) {
            (None, None) => {
                return ;
            },
            (Some(left), None) => {
                assert(Self::opt_spans(old(self).left) + Self::opt_spans(old(self).right)
                    =~= left@);
                left
            },
            (None, Some(right)) => {
                assert(Self::opt_spans(old(self).left) + Self::opt_spans(old(self).right)
                    =~= right@);
                right
            },
            (Some(left), Some(right)) => {
                proof {
                    right.lemma_absorbed(left);
                }
                let mut right = right;
                right.absorb(left);
                right
            },
        };
        proof {
            old(self).lemma_replaced_by(merged);
        }
        self.left = merged.left;
        self.right = merged.right;
        self.update_parents();
        self.node = merged.node;
    }
}

// Dividing a node.
impl Interval {
    /// Whether `piece` is the payload of a new piece of `length` positions
    /// that starts at `position` and weighs `below` more for what hangs under
    /// it: no flag is set and the property list is empty.
    pub open spec fn is_piece(piece: Node, length: int, below: int, position: int) -> bool {
        &&& piece.total_length == length + below
        &&& piece.position == position
        &&& !piece.write_protect
        &&& !piece.visible
        &&& !piece.front_sticky
        &&& !piece.rear_sticky
        &&& piece.plist@.len() == 0
    }

    /// The span of a new piece of `length` positions that starts at `position`.
    pub open spec fn piece_span(length: int, position: int) -> Span {
        Span {
            length,
            position: position as nat,
            write_protect: false,
            visible: false,
            front_sticky: false,
            rear_sticky: false,
            plist: Seq::empty(),
        }
    }

    /// The tree right after the first `offset` positions of this node's own
    /// range went to a new node with the payload `piece`, before any
    /// balancing: the new node hangs in the left slot, over what hung there.
    pub open spec fn spliced_left(self, offset: int, piece: Node) -> Interval {
        Interval {
            left: Some(
                Box::new(
                    Interval {
                        left: Self::linked(self.left, Side::Left),
                        right: None,
                        parent: Parent::Interval(Side::Left),
                        node: piece,
                    },
                ),
            ),
            node: Node { position: (self.node.position + offset) as usize, ..self.node },
            ..self
        }
    }

    /// The tree right after the positions of this node's own range from
    /// `offset` on went to a new node with the payload `piece`, before any
    /// balancing: the new node hangs in the right slot, over what hung there.
    pub open spec fn spliced_right(self, piece: Node) -> Interval {
        Interval {
            right: Some(
                Box::new(
                    Interval {
                        left: None,
                        right: Self::linked(self.right, Side::Right),
                        parent: Parent::Interval(Side::Right),
                        node: piece,
                    },
                ),
            ),
            ..self
        }
    }

    /// The spans of a node's tree with the node's own span divided at
    /// `offset`; `new_first` says which of the two parts is the new piece.
    pub open spec fn spans_split(self, offset: int, new_first: bool) -> Seq<Span> {
        let own = self.own_span();
        let first = if new_first {
            Self::piece_span(offset, self.node.position as int)
        } else {
            Span { length: offset, ..own }
        };
        let second = if new_first {
            Span { length: own.length - offset, position: own.position + offset as nat, ..own }
        } else {
            Self::piece_span(own.length - offset, self.node.position + offset)
        };
        Self::opt_spans(self.left) + seq![first, second] + Self::opt_spans(self.right)
    }

    /// The tree right after a split to the left is well formed, weighs what
    /// the node weighed, and has the spans of the node's tree with the node's
    /// own span divided.
    pub proof fn lemma_spliced_left(self, offset: int, piece: Node)
        requires
            self.wf(),
            0 < offset < self.own_length(),
            self.node.position + offset <= usize::MAX,
            Self::is_piece(piece, offset, self.left_weight() as int, self.node.position as int),
        ensures
            self.spliced_left(offset, piece).wf(),
            self.spliced_left(offset, piece)@ == self.spans_split(offset, true),
            self.spliced_left(offset, piece).size() == self.size() + 1,
            self.spliced_left(offset, piece).left.unwrap().wf(),
            self.spliced_left(offset, piece).left.unwrap()@ == Self::opt_spans(self.left)
                + seq![Self::piece_span(offset, self.node.position as int)],
            self.spliced_left(offset, piece).left.unwrap().size() == Self::opt_size(self.left) + 1,
    {
        let t = self.spliced_left(offset, piece);
        let m = t.left.unwrap();
        Self::lemma_linked(self.left, Side::Left);
        self.lemma_unfold();
        t.lemma_unfold();
        m.lemma_unfold();
        assert(piece.plist@ =~= Seq::<Property>::empty());
        assert(Self::opt_wf(self.left));
        assert(Self::opt_wf(m.left));
        assert(m.wf());
        assert(m.own_span() == Self::piece_span(offset, self.node.position as int));
        assert(m@ =~= Self::opt_spans(self.left) + seq![
            Self::piece_span(offset, self.node.position as int),
        ]);
        assert(t@ =~= self.spans_split(offset, true));
    }

    /// The tree right after a split to the right is well formed, weighs what
    /// the node weighed, and has the spans of the node's tree with the node's
    /// own span divided.
    pub proof fn lemma_spliced_right(self, offset: int, piece: Node)
        requires
            self.wf(),
            0 < offset < self.own_length(),
            self.node.position + offset <= usize::MAX,
            Self::is_piece(
                piece,
                self.own_length() - offset,
                self.right_weight() as int,
                self.node.position + offset,
            ),
        ensures
            self.spliced_right(piece).wf(),
            self.spliced_right(piece)@ == self.spans_split(offset, false),
            self.spliced_right(piece).size() == self.size() + 1,
            self.spliced_right(piece).right.unwrap().wf(),
            self.spliced_right(piece).right.unwrap()@ == seq![
                Self::piece_span(self.own_length() - offset, self.node.position + offset),
            ] + Self::opt_spans(self.right),
            self.spliced_right(piece).right.unwrap().size() == Self::opt_size(self.right) + 1,
    {
        let t = self.spliced_right(piece);
        let m = t.right.unwrap();
        Self::lemma_linked(self.right, Side::Right);
        self.lemma_unfold();
        t.lemma_unfold();
        m.lemma_unfold();
        assert(piece.plist@ =~= Seq::<Property>::empty());
        assert(Self::opt_wf(self.right));
        assert(Self::opt_wf(m.right));
        assert(m.wf());
        assert(m.own_span() == Self::piece_span(
            self.own_length() - offset,
            self.node.position + offset,
        ));
        assert(m@ =~= seq![
            Self::piece_span(self.own_length() - offset, self.node.position + offset),
        ] + Self::opt_spans(self.right));
        assert(t@ =~= self.spans_split(offset, false));
    }

    /// In a well-formed tree that has the spans and the weight of a node's
    /// tree with the node's own span divided, the owner of the offset at which
    /// the new piece starts is the new piece, at the index that the division
    /// gives it.
    pub proof fn lemma_piece_found(self, after: Interval, offset: int, new_first: bool)
        requires
            self.wf(),
            0 < offset < self.own_length(),
            after.wf(),
            after@ == self.spans_split(offset, new_first),
            after.node.total_length == self.node.total_length,
        ensures
            ({
                let rel = if new_first {
                    self.left_weight() as int
                } else {
                    self.left_weight() + offset
                };
                let k = if new_first {
                    Self::opt_size(self.left) as int
                } else {
                    Self::opt_size(self.left) as int + 1
                };
                let q = after.owner_path(rel);
                &&& after.has_path(q)
                &&& after.index_of(q) == k
                &&& after.node_at(q).own_span() == if new_first {
                    Self::piece_span(offset, self.node.position as int)
                } else {
                    Self::piece_span(self.own_length() - offset, self.node.position + offset)
                }
            }),
    {
        let rel = if new_first {
            self.left_weight() as int
        } else {
            self.left_weight() + offset
        };
        let k = if new_first {
            Self::opt_size(self.left) as int
        } else {
            Self::opt_size(self.left) as int + 1
        };
        let spans = self.spans_split(offset, new_first);
        let front = Self::opt_spans(self.left);
        let pair = seq![spans[front.len() as int], spans[front.len() as int + 1]];
        let back = pair + Self::opt_spans(self.right);
        self.lemma_unfold();
        match self.left {
            Some(l) => {
                l.lemma_weight_is_span_length();
                l.lemma_unfold();
            },
            None => {},
        }
        assert(spans =~= front + back);
        Self::lemma_prefix_length_left(front, back, front.len() as int);
        assert(Self::prefix_length(spans, front.len() as int) == self.left_weight());
        assert(Self::prefix_length(spans, front.len() as int + 1) == self.left_weight() + offset);
        let q = after.owner_path(rel);
        after.lemma_owner_path(rel);
        after.lemma_path(q);
        after.lemma_weight_is_span_length();
        Self::lemma_one_owner(after@, after.index_of(q), k, rel);
    }

    /// The tree after a split to the left at `offset`, where the new node got
    /// the payload `piece`: the spliced tree with the new subtree balanced at
    /// its top and then, if it is a root, the node itself.
    pub open spec fn split_left_tree(self, offset: int, piece: Node) -> Interval {
        let spliced = self.spliced_left(offset, piece);
        (Interval {
            left: Some(Box::new(spliced.left.unwrap().rebalanced())),
            ..spliced
        }).root_rebalanced()
    }

    /// The tree after a split to the right, where the new node got the
    /// payload `piece`: the spliced tree with the new subtree balanced at its
    /// top and then, if it is a root, the node itself.
    pub open spec fn split_right_tree(self, piece: Node) -> Interval {
        let spliced = self.spliced_right(piece);
        (Interval {
            right: Some(Box::new(spliced.right.unwrap().rebalanced())),
            ..spliced
        }).root_rebalanced()
    }

    /// Whether a split to the left at `offset` calls for no rotation: the new
    /// node is locally balanced over what hung in the left slot, and so is
    /// this node over the new one if it is a root.
    pub open spec fn splits_left_in_place(self, offset: int) -> bool {
        let shape = self.spliced_left(
            offset,
            Node { total_length: (offset + self.left_weight()) as usize, ..self.node },
        );
        shape.left.unwrap().locally_balanced() && (self.parent is Interval
            || shape.locally_balanced())
    }

    /// Whether a split to the right at `offset` calls for no rotation: the
    /// new node is locally balanced over what hung in the right slot, and so
    /// is this node over the new one if it is a root.
    pub open spec fn splits_right_in_place(self, offset: int) -> bool {
        let shape = self.spliced_right(
            Node {
                total_length: (self.own_length() - offset + self.right_weight()) as usize,
                ..self.node
            },
        );
        shape.right.unwrap().locally_balanced() && (self.parent is Interval
            || shape.locally_balanced())
    }

    /// Whether a spliced tree is balanced at its top and at the new node
    /// depends on the weight of the new node alone, not on the rest of its
    /// payload.
    pub proof fn lemma_spliced_balance(self, offset: int, piece: Node)
        ensures
            piece.total_length == offset + self.left_weight() ==> {
                let t = self.spliced_left(offset, piece);
                self.splits_left_in_place(offset) == (t.left.unwrap().locally_balanced() && (
                t.parent is Interval || t.locally_balanced()))
            },
            piece.total_length == self.own_length() - offset + self.right_weight() ==> {
                let t = self.spliced_right(piece);
                self.splits_right_in_place(offset) == (t.right.unwrap().locally_balanced() && (
                t.parent is Interval || t.locally_balanced()))
            },
    {
    }

    /// Hangs a new node for the first `offset` positions of this node's own
    /// range in the left slot, over what hung there, and balances the new
    /// subtree at its top. The result is the payload that the new node got.
    fn splice_left(&mut self, offset: usize) -> (payload: Ghost<Node>)
        requires
            old(self).wf(),
            0 < offset < old(self).own_length(),
            old(self).node.position + offset <= usize::MAX,
        ensures
            Self::is_piece(
                payload@,
                offset as int,
                old(self).left_weight() as int,
                old(self).node.position as int,
            ),
            final(self).wf(),
            final(self)@ == old(self).spans_split(offset as int, true),
            final(self).size() == old(self).size() + 1,
            final(self).node.total_length == old(self).node.total_length,
            final(self).parent == old(self).parent,
            old(self).spliced_left(offset as int, payload@).left.unwrap().locally_balanced()
                ==> *final(self) == old(self).spliced_left(offset as int, payload@),
            *final(self) == (Interval {
                left: Some(
                    Box::new(
                        old(self).spliced_left(offset as int, payload@).left.unwrap().rebalanced(),
                    ),
                ),
                ..old(self).spliced_left(offset as int, payload@)
            }),
    {
        let before = self.left_total_length();
        let mut piece = Interval::new(Parent::Interval(Side::Left));
        piece.node.position = self.node.position;
        piece.node.total_length = offset + before;
        let ghost payload = piece.node;
        let ghost spliced = old(self).spliced_left(offset as int, payload);
        proof {
            old(self).lemma_spliced_left(offset as int, payload);
        }
        self.node.position = self.node.position + offset;
        match self.take_left() {
            None => {},
            Some(left) => {
                // The new node goes between this node and its left child.
                piece.set_left(left);
                assert(piece == *spliced.left.unwrap());
                piece.balance_self();
            },
        }
        proof {
            piece.lemma_with_parent(Parent::Interval(Side::Left));
        }
        self.set_left(piece);
        proof {
            self.lemma_unfold();
            spliced.lemma_unfold();
        }
        Ghost(payload)
    }

    /// Hangs a new node for the positions of this node's own range from
    /// `offset` on in the right slot, over what hung there, and balances the
    /// new subtree at its top. The result is the payload that the new node got.
    fn splice_right(&mut self, offset: usize) -> (payload: Ghost<Node>)
        requires
            old(self).wf(),
            0 < offset < old(self).own_length(),
            old(self).node.position + offset <= usize::MAX,
        ensures
            Self::is_piece(
                payload@,
                old(self).own_length() - offset,
                old(self).right_weight() as int,
                old(self).node.position + offset,
            ),
            final(self).wf(),
            final(self)@ == old(self).spans_split(offset as int, false),
            final(self).size() == old(self).size() + 1,
            final(self).node.total_length == old(self).node.total_length,
            final(self).parent == old(self).parent,
            old(self).spliced_right(payload@).right.unwrap().locally_balanced() ==> *final(self)
                == old(self).spliced_right(payload@),
            *final(self) == (Interval {
                right: Some(
                    Box::new(old(self).spliced_right(payload@).right.unwrap().rebalanced()),
                ),
                ..old(self).spliced_right(payload@)
            }),
    {
        let mut piece = Interval::new(Parent::Interval(Side::Right));
        piece.node.position = self.node.position + offset;
        piece.node.total_length = self.length() - offset + self.right_total_length();
        let ghost payload = piece.node;
        let ghost spliced = old(self).spliced_right(payload);
        proof {
            old(self).lemma_spliced_right(offset as int, payload);
        }
        match self.take_right() {
            None => {},
            Some(right) => {
                // The new node goes between this node and its right child.
                piece.set_right(right);
                assert(piece == *spliced.right.unwrap());
                piece.balance_self();
            },
        }
        proof {
            piece.lemma_with_parent(Parent::Interval(Side::Right));
        }
        self.set_right(piece);
        proof {
            self.lemma_unfold();
            spliced.lemma_unfold();
        }
        Ghost(payload)
    }

    /// Divides the node's own range at `offset`. The first `offset` positions
    /// go to a new node with no property set, which is hung in the left slot
    /// over what hung there; the node itself keeps the rest, and its cached
    /// position moves on by `offset`. The new subtree is balanced at its top,
    /// and so is this node if it is a root.
    ///
    /// The result is the path from this cell to the new piece. Where no
    /// rotation was called for, that is the left child, and the tree is the
    /// spliced one exactly.
    pub fn split_left(&mut self, offset: usize) -> (path: Vec<Side>)
        requires
            old(self).wf(),
            0 < offset < old(self).own_length(),
            old(self).node.position + offset <= usize::MAX,
        ensures
            final(self).wf(),
            final(self)@ == old(self).spans_split(offset as int, true),
            final(self).size() == old(self).size() + 1,
            final(self).node.total_length == old(self).node.total_length,
            final(self).parent == old(self).parent,
            old(self).parent is Object ==> final(self).locally_balanced(),
            final(self).has_path(path@),
            path@ == final(self).owner_path(old(self).left_weight() as int),
            final(self).index_of(path@) == Self::opt_size(old(self).left),
            final(self).node_at(path@).own_span() == Self::piece_span(
                offset as int,
                old(self).node.position as int,
            ),
            old(self).splits_left_in_place(offset as int) ==> path@ == seq![Side::Left]
                && *final(self) == old(self).spliced_left(
                offset as int,
                final(self).node_at(path@).node,
            ),
            exists|piece: Node| #[trigger]
                Self::is_piece(
                    piece,
                    offset as int,
                    old(self).left_weight() as int,
                    old(self).node.position as int,
                ) && *final(self) == old(self).split_left_tree(offset as int, piece),
    {
        let before = self.left_total_length();
        let Ghost(payload) = self.splice_left(offset);
        let ghost spliced = old(self).spliced_left(offset as int, payload);
        let ghost unrooted = *self;
        self.balance_possible_root();
        let path = self.locate(before);
        proof {
            old(self).lemma_piece_found(*self, offset as int, true);
            old(self).lemma_spliced_balance(offset as int, payload);
            if old(self).splits_left_in_place(offset as int) {
                assert(unrooted == spliced);
                assert(*self == spliced);
                assert(spliced.left.unwrap().owner_path(old(self).left_weight() as int)
                    =~= Seq::<Side>::empty());
                assert(path@ =~= seq![Side::Left]);
                assert(path@.drop_first() =~= Seq::<Side>::empty());
                assert(spliced.left.unwrap().node_at(path@.drop_first())
                    == *spliced.left.unwrap());
                assert(self.node_at(path@) == *spliced.left.unwrap());
            }
        }
        path
    }

    /// Divides the node's own range at `offset`. The positions from `offset`
    /// on go to a new node with no property set, which is hung in the right
    /// slot over what hung there and caches the position `offset` behind that
    /// of this node; the node itself keeps the first `offset` positions. The
    /// new subtree is balanced at its top, and so is this node if it is a root.
    ///
    /// The result is the path from this cell to the new piece. Where no
    /// rotation was called for, that is the right child, and the tree is the
    /// spliced one exactly.
    pub fn split_right(&mut self, offset: usize) -> (path: Vec<Side>)
        requires
            old(self).wf(),
            0 < offset < old(self).own_length(),
            old(self).node.position + offset <= usize::MAX,
        ensures
            final(self).wf(),
            final(self)@ == old(self).spans_split(offset as int, false),
            final(self).size() == old(self).size() + 1,
            final(self).node.total_length == old(self).node.total_length,
            final(self).parent == old(self).parent,
            old(self).parent is Object ==> final(self).locally_balanced(),
            final(self).has_path(path@),
            path@ == final(self).owner_path(old(self).left_weight() + offset),
            final(self).index_of(path@) == Self::opt_size(old(self).left) + 1,
            final(self).node_at(path@).own_span() == Self::piece_span(
                old(self).own_length() - offset,
                old(self).node.position + offset,
            ),
            old(self).splits_right_in_place(offset as int) ==> path@ == seq![Side::Right]
                && *final(self) == old(self).spliced_right(final(self).node_at(path@).node),
            exists|piece: Node| #[trigger]
                Self::is_piece(
                    piece,
                    old(self).own_length() - offset,
                    old(self).right_weight() as int,
                    old(self).node.position + offset,
                ) && *final(self) == old(self).split_right_tree(piece),
    {
        let before = self.left_total_length() + offset;
        let Ghost(payload) = self.splice_right(offset);
        let ghost spliced = old(self).spliced_right(payload);
        let ghost unrooted = *self;
        self.balance_possible_root();
        let path = self.locate(before);
        proof {
            old(self).lemma_piece_found(*self, offset as int, false);
            old(self).lemma_spliced_balance(offset as int, payload);
            if old(self).splits_right_in_place(offset as int) {
                assert(unrooted == spliced);
                assert(*self == spliced);
                assert(spliced.right.unwrap().owner_path(0) =~= Seq::<Side>::empty());
                assert(path@ =~= seq![Side::Right]);
                assert(path@.drop_first() =~= Seq::<Side>::empty());
                assert(spliced.right.unwrap().node_at(path@.drop_first())
                    == *spliced.right.unwrap());
                assert(self.node_at(path@) == *spliced.right.unwrap());
            }
        }
        path
    }
}

// Merging a node into the one before it.
impl Interval {
    /// This tree with its last node `amount` positions longer: every node on
    /// the way down the right slots weighs that much more.
    pub open spec fn extended(self, amount: int) -> Interval
        decreases self,
    {
        Interval {
            right: match self.right {
                Some(r) => Some(Box::new(r.extended(amount))),
                None => None,
            },
            node: Node { total_length: (self.node.total_length + amount) as usize, ..self.node },
            ..self
        }
    }

    /// The spans of a tree with the last one `amount` positions longer.
    pub open spec fn spans_extended(spans: Seq<Span>, amount: int) -> Seq<Span> {
        spans.update(
            spans.len() - 1,
            Span { length: spans.last().length + amount, ..spans.last() },
        )
    }

    /// The tree after the root was merged into the node before it: the last
    /// node of the left subtree takes over the root's own range, and the two
    /// subtrees are merged as in a removal of the root. A root without a left
    /// subtree stays.
    pub open spec fn merged_left(self) -> Interval {
        match self.left {
            Some(l) => match self.right {
                Some(r) => self.replaced_by(r.absorbed(l.extended(self.own_length()))),
                None => self.replaced_by(l.extended(self.own_length())),
            },
            None => self,
        }
    }

    /// A tree whose last node was made longer has the same spans but for the
    /// length of the last, the same size, and weighs that much more.
    pub proof fn lemma_extended(self, amount: int)
        requires
            self.wf(),
            amount >= 0,
            self.node.total_length + amount <= usize::MAX,
        ensures
            self.extended(amount).wf(),
            self.extended(amount)@ == Self::spans_extended(self@, amount),
            self.extended(amount).size() == self.size(),
            self.extended(amount).node.total_length == self.node.total_length + amount,
            self.extended(amount).parent == self.parent,
        decreases self,
    {
        let t = self.extended(amount);
        self.lemma_unfold();
        t.lemma_unfold();
        match self.right {
            Some(r) => {
                r.lemma_extended(amount);
                r.lemma_unfold();
                assert(t@ =~= Self::spans_extended(self@, amount));
            },
            None => {
                assert(t@ =~= Self::spans_extended(self@, amount));
            },
        }
    }

    /// Makes the last node of this tree `amount` positions longer: every node
    /// on the way down the right slots weighs that much more.
    fn extend_last(&mut self, amount: usize)
        requires
            old(self).wf(),
            old(self).node.total_length + amount <= usize::MAX,
        ensures
            *final(self) == old(self).extended(amount as int),
        decreases *old(self),
    {
        self.node.total_length = self.node.total_length + amount;
        match self.right.as_mut() {
            Some(r) => r.extend_last(amount),
            None => {},
        }
    }

    /// Merges the node into the node before it in the order of the spans,
    /// where that node stands below this one: the last node of the left
    /// subtree takes over this node's own range, and this node is removed as
    /// by `delete`, so that its properties are lost and the weight of the tree
    /// stays. A node without a left subtree has nothing below it to merge
    /// into and stays as it is.
    pub fn merge_left(&mut self)
        requires
            old(self).wf(),
        ensures
            *final(self) == old(self).merged_left(),
            final(self).wf(),
            final(self).parent == old(self).parent,
            final(self).node.total_length == old(self).node.total_length,
            old(self).left is None ==> *final(self) == *old(self),
            old(self).left is Some ==> {
                &&& final(self).size() == old(self).size() - 1
                &&& final(self)@ == Self::spans_extended(
                    old(self).left.unwrap()@,
                    old(self).own_length(),
                ) + Self::opt_spans(old(self).right)
            },
    {
        if self.left.is_none() {
            return ;
        }
        let own = self.length();
        proof {
            self.lemma_unfold();
            old(self).left.unwrap().lemma_extended(own as int);
        }
        let merged = match (self.take_left(), self.take_right()) {
            (Some(left), None) => {
                let mut left = left;
                left.extend_last(own);
                assert(left@ + Self::opt_spans(old(self).right) =~= left@);
                left
            },
            (Some(left), Some(right)) => {
                let mut left = left;
                left.extend_last(own);
                proof {
                    right.lemma_absorbed(left);
                }
                let mut right = right;
                right.absorb(left);
                right
            },
            (None, _) => {
                return ;
            },
        };
        proof {
            old(self).lemma_replaced_by(merged);
        }
        self.left = merged.left;
        self.right = merged.right;
        self.update_parents();
        self.node = merged.node;
    }
}

} // verus!
