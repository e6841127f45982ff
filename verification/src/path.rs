use vstd::prelude::*;
use crate::interval::Interval;
use crate::node::{Node, Parent, Side, Span};

verus! {

// Nodes are named from an ancestor by the steps that lead down to them.
impl Interval {
    /// The child in the slot `side`.
    pub open spec fn child(self, side: Side) -> Option<Box<Interval>> {
        match side {
            Side::Left => self.left,
            Side::Right => self.right,
        }
    }

    /// Whether `path` leads from this node down to a node.
    pub open spec fn has_path(self, path: Seq<Side>) -> bool
        decreases path.len(),
    {
        if path.len() == 0 {
            true
        } else {
            match self.child(path[0]) {
                Some(c) => c.has_path(path.drop_first()),
                None => false,
            }
        }
    }

    /// The node to which `path` leads.
    pub open spec fn node_at(self, path: Seq<Side>) -> Interval
        decreases path.len(),
    {
        if path.len() == 0 {
            self
        } else {
            match self.child(path[0]) {
                Some(c) => c.node_at(path.drop_first()),
                None => self,
            }
        }
    }

    /// This node with another cached position.
    pub open spec fn with_position(self, position: usize) -> Interval {
        Interval { node: Node { position, ..self.node }, ..self }
    }

    /// The tree in which the node at `path` has the cached position
    /// `position` and nothing else differs.
    pub open spec fn with_position_at(self, path: Seq<Side>, position: usize) -> Interval
        decreases path.len(),
    {
        if path.len() == 0 {
            self.with_position(position)
        } else {
            match (path[0], self.left, self.right) {
                (Side::Left, Some(l), _) => Interval {
                    left: Some(Box::new(l.with_position_at(path.drop_first(), position))),
                    ..self
                },
                (Side::Right, _, Some(r)) => Interval {
                    right: Some(Box::new(r.with_position_at(path.drop_first(), position))),
                    ..self
                },
                _ => self,
            }
        }
    }

    /// The number of spans of this tree that come before the node at `path`.
    pub open spec fn index_of(self, path: Seq<Side>) -> int
        decreases path.len(),
    {
        if path.len() == 0 {
            Self::opt_size(self.left) as int
        } else {
            match (path[0], self.left, self.right) {
                (Side::Left, Some(l), _) => l.index_of(path.drop_first()),
                (Side::Right, _, Some(r)) => Self::opt_size(self.left) + 1 + r.index_of(
                    path.drop_first(),
                ),
                _ => Self::opt_size(self.left) as int,
            }
        }
    }

    /// The offset in this tree's sequence at which the own range of the node
    /// at `path` starts: the lengths of all spans before it.
    pub open spec fn span_start(self, path: Seq<Side>) -> int
        decreases path.len(),
    {
        if path.len() == 0 {
            self.left_weight() as int
        } else {
            match (path[0], self.left, self.right) {
                (Side::Left, Some(l), _) => l.span_start(path.drop_first()),
                (Side::Right, _, Some(r)) => self.node.total_length - self.right_weight()
                    + r.span_start(path.drop_first()),
                _ => self.left_weight() as int,
            }
        }
    }

    /// The cached position of the node at `path` is the position at which its
    /// own range starts.
    pub open spec fn fresh_at(self, path: Seq<Side>) -> bool {
        self.node_at(path).node.position == self.start() + self.span_start(path)
    }

    /// The path to the node whose own range holds the offset `rel` of this
    /// tree's sequence. The offset just behind the sequence belongs to the
    /// last node.
    pub open spec fn owner_path(self, rel: int) -> Seq<Side>
        decreases self,
    {
        if rel < self.left_weight() && self.left is Some {
            seq![Side::Left] + self.left.unwrap().owner_path(rel)
        } else if self.right is Some && rel >= self.node.total_length - self.right_weight() {
            seq![Side::Right] + self.right.unwrap().owner_path(
                rel - (self.node.total_length - self.right_weight()),
            )
        } else {
            Seq::empty()
        }
    }

    /// The path down the left slots to the first node of the tree.
    pub open spec fn first_path(self) -> Seq<Side>
        decreases self,
    {
        match self.left {
            Some(l) => seq![Side::Left] + l.first_path(),
            None => Seq::empty(),
        }
    }

    /// The path down the right slots to the last node of the tree.
    pub open spec fn last_path(self) -> Seq<Side>
        decreases self,
    {
        match self.right {
            Some(r) => seq![Side::Right] + r.last_path(),
            None => Seq::empty(),
        }
    }
}

// Neighbours in the order of the spans.
impl Interval {
    /// The path to the node that follows the node at `path` in the order of
    /// the spans of this tree, if there is one: the first node of its right
    /// subtree, or else the nearest ancestor that holds it in its left subtree.
    pub open spec fn next_path(self, path: Seq<Side>) -> Option<Seq<Side>>
        decreases path.len(),
    {
        if path.len() == 0 {
            match self.right {
                Some(r) => Some(seq![Side::Right] + r.first_path()),
                None => None,
            }
        } else {
            match self.child(path[0]) {
                Some(c) => match c.next_path(path.drop_first()) {
                    Some(q) => Some(seq![path[0]] + q),
                    None => if path[0] == Side::Left {
                        Some(Seq::empty())
                    } else {
                        None
                    },
                },
                None => None,
            }
        }
    }

    /// The path to the node that precedes the node at `path` in the order of
    /// the spans of this tree, if there is one: the last node of its left
    /// subtree, or else the nearest ancestor that holds it in its right subtree.
    pub open spec fn prev_path(self, path: Seq<Side>) -> Option<Seq<Side>>
        decreases path.len(),
    {
        if path.len() == 0 {
            match self.left {
                Some(l) => Some(seq![Side::Left] + l.last_path()),
                None => None,
            }
        } else {
            match self.child(path[0]) {
                Some(c) => match c.prev_path(path.drop_first()) {
                    Some(q) => Some(seq![path[0]] + q),
                    None => if path[0] == Side::Right {
                        Some(Seq::empty())
                    } else {
                        None
                    },
                },
                None => None,
            }
        }
    }
}

// Cached positions along a path.
impl Interval {
    /// Where the sequence of this subtree starts, going by the cached
    /// position of its root.
    pub open spec fn cached_start(self) -> int {
        self.node.position - self.left_weight()
    }

    /// Where the sequence of the subtree in the slot `side` starts, if that of
    /// this subtree starts at `base`.
    pub open spec fn child_start(self, side: Side, base: int) -> int {
        match side {
            Side::Left => base,
            Side::Right => base + self.node.total_length - self.right_weight(),
        }
    }

    /// The cached positions of the nodes on `path` below this node agree with
    /// the cached position of this node.
    pub open spec fn fresh_below(self, path: Seq<Side>) -> bool
        decreases path.len(),
    {
        path.len() == 0 || match self.child(path[0]) {
            Some(c) => c.cached_start() == self.child_start(path[0], self.cached_start())
                && c.fresh_below(path.drop_first()),
            None => false,
        }
    }

    /// The cached positions of this node and of every node on `path` are the
    /// positions at which their own ranges start.
    pub open spec fn fresh_along(self, path: Seq<Side>) -> bool {
        self.cached_start() == self.start() && self.fresh_below(path)
    }

    /// The tree in which the cached positions of the nodes on `path` below
    /// this node are set to agree with the cached position of this node.
    pub open spec fn refreshed_below(self, path: Seq<Side>) -> Interval
        decreases path.len(),
    {
        if path.len() == 0 {
            self
        } else {
            match (path[0], self.left, self.right) {
                (Side::Left, Some(l), _) => Interval {
                    left: Some(
                        Box::new(
                            l.with_position(
                                (self.child_start(Side::Left, self.cached_start())
                                    + l.left_weight()) as usize,
                            ).refreshed_below(path.drop_first()),
                        ),
                    ),
                    ..self
                },
                (Side::Right, _, Some(r)) => Interval {
                    right: Some(
                        Box::new(
                            r.with_position(
                                (self.child_start(Side::Right, self.cached_start())
                                    + r.left_weight()) as usize,
                            ).refreshed_below(path.drop_first()),
                        ),
                    ),
                    ..self
                },
                _ => self,
            }
        }
    }

    /// The tree with every cached position set to 0. Two trees differ in
    /// nothing but cached positions if they are equal once cleared.
    pub open spec fn cleared(self) -> Interval
        decreases self,
    {
        Interval {
            left: Self::opt_cleared(self.left),
            right: Self::opt_cleared(self.right),
            parent: self.parent,
            node: Node { position: 0, ..self.node },
        }
    }

    /// An optional subtree with every cached position set to 0.
    pub open spec fn opt_cleared(t: Option<Box<Interval>>) -> Option<Box<Interval>>
        decreases t,
    {
        match t {
            Some(b) => Some(Box::new(b.cleared())),
            None => None,
        }
    }
}

// Facts about paths.
impl Interval {
    /// Under a well-formed tree, the sum of the lengths of its spans is its
    /// weight, and every span has a length above zero.
    pub proof fn lemma_weight_is_span_length(self)
        requires
            self.wf(),
        ensures
            Self::total_span_length(self@) == self.node.total_length,
            forall|i: int| 0 <= i < self@.len() ==> (#[trigger] self@[i]).length > 0,
        decreases self,
    {
        self.lemma_unfold();
        let l = Self::opt_spans(self.left);
        let r = Self::opt_spans(self.right);
        match self.left {
            Some(b) => b.lemma_weight_is_span_length(),
            None => {},
        }
        match self.right {
            Some(b) => b.lemma_weight_is_span_length(),
            None => {},
        }
        assert(Self::total_span_length(l) == self.left_weight());
        assert(Self::total_span_length(r) == self.right_weight());
        Self::lemma_prefix_length_concat(l + seq![self.own_span()], r, r.len() as int);
        Self::lemma_prefix_length_concat(l, seq![self.own_span()], 1);
        assert((l + seq![self.own_span()]).len() == l.len() + 1);
        assert(Self::prefix_length(seq![self.own_span()], 1) == self.own_span().length) by {
            assert(Self::prefix_length(seq![self.own_span()], 0) == 0);
        }
        assert((l + seq![self.own_span()] + r).len() == l.len() + 1 + r.len());
    }

    /// The lengths of the first spans of a joined sequence are those of the
    /// first sequence and of the first spans of the second.
    pub proof fn lemma_prefix_length_concat(a: Seq<Span>, b: Seq<Span>, n: int)
        requires
            0 <= n <= b.len(),
        ensures
            Self::prefix_length(a + b, a.len() + n) == Self::prefix_length(a, a.len() as int)
                + Self::prefix_length(b, n),
            forall|k: int| 0 <= k <= a.len() ==> Self::prefix_length(a + b, k) == Self::prefix_length(a, k),
        decreases n,
    {
        assert forall|k: int| 0 <= k <= a.len() implies Self::prefix_length(a + b, k)
            == Self::prefix_length(a, k) by {
            Self::lemma_prefix_length_left(a, b, k);
        }
        if n > 0 {
            Self::lemma_prefix_length_concat(a, b, n - 1);
            assert((a + b)[a.len() + n - 1] == b[n - 1]);
        }
    }

    /// The lengths of the first spans of a joined sequence do not depend on
    /// what was joined behind them.
    pub proof fn lemma_prefix_length_left(a: Seq<Span>, b: Seq<Span>, k: int)
        requires
            0 <= k <= a.len(),
        ensures
            Self::prefix_length(a + b, k) == Self::prefix_length(a, k),
        decreases k,
    {
        if k > 0 {
            Self::lemma_prefix_length_left(a, b, k - 1);
            assert((a + b)[k - 1] == a[k - 1]);
        }
    }

    /// The node at a path of a well-formed tree is well formed, and its span
    /// stands in the tree's sequence of spans at the node's index, behind spans
    /// whose lengths add up to the start of its range.
    pub proof fn lemma_path(self, path: Seq<Side>)
        requires
            self.wf(),
            self.has_path(path),
        ensures
            self.node_at(path).wf(),
            0 <= self.index_of(path) < self.size() == self@.len(),
            self@[self.index_of(path)] == self.node_at(path).own_span(),
            Self::prefix_length(self@, self.index_of(path)) == self.span_start(path),
            0 <= self.span_start(path),
            self.span_start(path) + self.node_at(path).own_length() <= self.node.total_length,
            path.len() > 0 ==> self.node_at(path).parent == Parent::Interval(path.last()),
        decreases path.len(),
    {
        self.lemma_unfold();
        let l = Self::opt_spans(self.left);
        let r = Self::opt_spans(self.right);
        let own = seq![self.own_span()];
        match self.left {
            Some(b) => {
                b.lemma_unfold();
                b.lemma_weight_is_span_length();
            },
            None => {},
        }
        match self.right {
            Some(b) => {
                b.lemma_unfold();
            },
            None => {},
        }
        if path.len() == 0 {
            Self::lemma_prefix_length_left(l, own + r, l.len() as int);
            assert(l + own + r =~= l + (own + r));
        } else {
            let rest = path.drop_first();
            if rest.len() > 0 {
                assert(rest.last() == path.last());
            }
            match path[0] {
                Side::Left => {
                    let b = self.left.unwrap();
                    b.lemma_path(rest);
                    Self::lemma_prefix_length_left(l, own + r, b.index_of(rest));
                    assert(l + own + r =~= l + (own + r));
                },
                Side::Right => {
                    let b = self.right.unwrap();
                    b.lemma_path(rest);
                    Self::lemma_prefix_length_concat(l + own, r, b.index_of(rest));
                    Self::lemma_prefix_length_concat(l, own, 1);
                    assert(Self::prefix_length(own, 1) == self.own_span().length) by {
                        assert(Self::prefix_length(own, 0) == 0);
                    }
                },
            }
        }
    }

    /// Changing a span in the front part of a joined sequence is changing it
    /// in the whole.
    pub proof fn lemma_update_front(a: Seq<Span>, b: Seq<Span>, i: int, x: Span)
        requires
            0 <= i < a.len(),
        ensures
            a.update(i, x) + b == (a + b).update(i, x),
            (a + b)[i] == a[i],
    {
        assert(a.update(i, x) + b =~= (a + b).update(i, x));
    }

    /// Changing a span in the back part of a joined sequence is changing it
    /// in the whole.
    pub proof fn lemma_update_back(a: Seq<Span>, b: Seq<Span>, i: int, x: Span)
        requires
            0 <= i < b.len(),
        ensures
            a + b.update(i, x) == (a + b).update(a.len() + i, x),
            (a + b)[a.len() + i] == b[i],
    {
        assert(a + b.update(i, x) =~= (a + b).update(a.len() + i, x));
    }

    /// Setting the cached position of the node at a path changes nothing of
    /// the shape of the tree: not its size, nor any weight, nor whether it is
    /// well formed or balanced.
    pub proof fn lemma_with_position_at_shape(self, path: Seq<Side>, position: usize)
        requires
            self.has_path(path),
        ensures
            self.with_position_at(path, position).size() == self.size(),
            self.with_position_at(path, position).wf() == self.wf(),
            self.with_position_at(path, position).balanced() == self.balanced(),
            self.with_position_at(path, position).locally_balanced() == self.locally_balanced(),
            self.with_position_at(path, position).node.total_length == self.node.total_length,
            self.with_position_at(path, position).parent == self.parent,
            self.with_position_at(path, position).left is Some == self.left is Some,
            self.with_position_at(path, position).right is Some == self.right is Some,
            self.with_position_at(path, position).left_weight() == self.left_weight(),
            self.with_position_at(path, position).right_weight() == self.right_weight(),
            self.with_position_at(path, position).node_at(path) == self.node_at(path).with_position(
                position,
            ),
            path.len() > 0 ==> self.with_position_at(path, position).own_span() == self.own_span(),
        decreases path.len(),
    {
        if path.len() > 0 {
            let c = self.child(path[0]).unwrap();
            c.lemma_with_position_at_shape(path.drop_first(), position);
        }
    }

    /// Two nodes that differ in their own span alone have the same spans but
    /// for that one.
    pub proof fn lemma_spans_own_changed(self, other: Interval)
        requires
            other.left == self.left,
            other.right == self.right,
        ensures
            0 <= Self::opt_size(self.left) < self@.len(),
            self@[Self::opt_size(self.left) as int] == self.own_span(),
            other@ == self@.update(Self::opt_size(self.left) as int, other.own_span()),
    {
        let l = Self::opt_spans(self.left);
        let r = Self::opt_spans(self.right);
        let own = seq![self.own_span()];
        let x = other.own_span();
        self.lemma_unfold();
        other.lemma_unfold();
        match self.left {
            Some(b) => b.lemma_unfold(),
            None => {},
        }
        assert(seq![x] =~= own.update(0, x));
        Self::lemma_update_back(l, own, 0, x);
        Self::lemma_update_front(l + own, r, l.len() as int, x);
    }

    /// Two nodes that differ in one span of their left subtrees alone have the
    /// same spans but for that one.
    pub proof fn lemma_spans_left_changed(self, other: Interval, i: int, x: Span)
        requires
            self.left is Some,
            other.left is Some,
            other.right == self.right,
            other.own_span() == self.own_span(),
            0 <= i < self.left.unwrap()@.len(),
            other.left.unwrap()@ == self.left.unwrap()@.update(i, x),
        ensures
            i < self@.len(),
            self@[i] == self.left.unwrap()@[i],
            other@ == self@.update(i, x),
    {
        let l = Self::opt_spans(self.left);
        let r = Self::opt_spans(self.right);
        let own = seq![self.own_span()];
        self.lemma_unfold();
        other.lemma_unfold();
        Self::lemma_update_front(l, own, i, x);
        Self::lemma_update_front(l + own, r, i, x);
    }

    /// Two nodes that differ in one span of their right subtrees alone have
    /// the same spans but for that one.
    pub proof fn lemma_spans_right_changed(self, other: Interval, i: int, x: Span)
        requires
            self.right is Some,
            other.right is Some,
            other.left == self.left,
            other.own_span() == self.own_span(),
            0 <= i < self.right.unwrap()@.len(),
            other.right.unwrap()@ == self.right.unwrap()@.update(i, x),
        ensures
            Self::opt_size(self.left) + 1 + i < self@.len(),
            self@[Self::opt_size(self.left) + 1 + i] == self.right.unwrap()@[i],
            other@ == self@.update(Self::opt_size(self.left) + 1 + i, x),
    {
        let l = Self::opt_spans(self.left);
        let r = Self::opt_spans(self.right);
        let own = seq![self.own_span()];
        self.lemma_unfold();
        other.lemma_unfold();
        match self.left {
            Some(b) => b.lemma_unfold(),
            None => {},
        }
        Self::lemma_update_back(l + own, r, i, x);
    }

    /// Setting the cached position of the node at a path changes that
    /// position in the node's span and no other span.
    pub proof fn lemma_with_position_at_spans(self, path: Seq<Side>, position: usize)
        requires
            self.has_path(path),
        ensures
            0 <= self.index_of(path) < self@.len(),
            self.with_position_at(path, position)@ == self@.update(
                self.index_of(path),
                Span { position: position as nat, ..self@[self.index_of(path)] },
            ),
        decreases path.len(),
    {
        let t = self.with_position_at(path, position);
        self.lemma_with_position_at_shape(path, position);
        if path.len() == 0 {
            self.lemma_spans_own_changed(t);
        } else {
            let rest = path.drop_first();
            let b = self.child(path[0]).unwrap();
            b.lemma_with_position_at_spans(rest, position);
            let i = b.index_of(rest);
            let x = Span { position: position as nat, ..b@[i] };
            match path[0] {
                Side::Left => {
                    self.lemma_spans_left_changed(t, i, x);
                },
                Side::Right => {
                    self.lemma_spans_right_changed(t, i, x);
                },
            }
        }
    }

    /// Setting the cached position of the node at a path changes that
    /// position in the node's span and nothing else: not the shape of the
    /// tree, nor any weight, nor any other span.
    pub proof fn lemma_with_position_at(self, path: Seq<Side>, position: usize)
        requires
            self.has_path(path),
        ensures
            self.with_position_at(path, position)@ == self@.update(
                self.index_of(path),
                Span { position: position as nat, ..self@[self.index_of(path)] },
            ),
            0 <= self.index_of(path) < self@.len(),
            self.with_position_at(path, position).size() == self.size(),
            self.with_position_at(path, position).wf() == self.wf(),
            self.with_position_at(path, position).balanced() == self.balanced(),
            self.with_position_at(path, position).locally_balanced() == self.locally_balanced(),
            self.with_position_at(path, position).node.total_length == self.node.total_length,
            self.with_position_at(path, position).parent == self.parent,
            self.with_position_at(path, position).left is Some == self.left is Some,
            self.with_position_at(path, position).right is Some == self.right is Some,
            self.with_position_at(path, position).left_weight() == self.left_weight(),
            self.with_position_at(path, position).right_weight() == self.right_weight(),
            self.with_position_at(path, position).node_at(path) == self.node_at(path).with_position(
                position,
            ),
    {
        self.lemma_with_position_at_shape(path, position);
        self.lemma_with_position_at_spans(path, position);
    }

    /// The paths of a tree, the indices and the starts of its nodes do not
    /// depend on any cached position.
    pub proof fn lemma_with_position_at_paths(self, path: Seq<Side>, position: usize, other: Seq<Side>)
        requires
            self.has_path(path),
        ensures
            self.with_position_at(path, position).has_path(other) == self.has_path(other),
            self.with_position_at(path, position).index_of(other) == self.index_of(other),
            self.with_position_at(path, position).span_start(other) == self.span_start(other),
            self.with_position_at(path, position).node_at(other).own_length() == self.node_at(
                other,
            ).own_length(),
            self.has_path(other) && other != path ==> self.with_position_at(
                path,
                position,
            ).node_at(other).node == self.node_at(other).node,
        decreases path.len(),
    {
        let t = self.with_position_at(path, position);
        if path.len() > 0 {
            let rest = path.drop_first();
            self.child(path[0]).unwrap().lemma_with_position_at(rest, position);
            self.child(path[0]).unwrap().lemma_unfold();
            t.child(path[0]).unwrap().lemma_unfold();
            if other.len() > 0 {
                if other[0] == path[0] {
                    self.child(path[0]).unwrap().lemma_with_position_at_paths(
                        rest,
                        position,
                        other.drop_first(),
                    );
                    if other.drop_first() == rest {
                        Self::lemma_same_path(other, path);
                    }
                }
            }
        } else {
            if other.len() == 0 {
                assert(other =~= path);
            }
        }
    }

    /// Two paths with the same first step and the same further steps are one.
    pub proof fn lemma_same_path(p: Seq<Side>, q: Seq<Side>)
        requires
            p.len() > 0,
            q.len() > 0,
            p[0] == q[0],
            p.drop_first() == q.drop_first(),
        ensures
            p == q,
    {
        assert(p.len() == q.len()) by {
            assert(p.drop_first().len() == p.len() - 1);
            assert(q.drop_first().len() == q.len() - 1);
        }
        assert forall|i: int| 0 <= i < p.len() implies p[i] == q[i] by {
            if i > 0 {
                assert(p[i] == p.drop_first()[i - 1]);
                assert(q[i] == q.drop_first()[i - 1]);
            }
        }
        assert(p =~= q);
    }

    /// The owner of an offset is a node of the tree, and the offset lies in
    /// its own range; the offset just behind the sequence lies just behind the
    /// range of its owner, the last node.
    pub proof fn lemma_owner_path(self, rel: int)
        requires
            self.wf(),
            0 <= rel <= self.node.total_length,
        ensures
            self.has_path(self.owner_path(rel)),
            self.span_start(self.owner_path(rel)) <= rel,
            rel < self.node.total_length ==> rel < self.span_start(self.owner_path(rel))
                + self.node_at(self.owner_path(rel)).own_length(),
            rel == self.node.total_length ==> rel == self.span_start(self.owner_path(rel))
                + self.node_at(self.owner_path(rel)).own_length() && self.index_of(
                self.owner_path(rel),
            ) == self.size() - 1,
        decreases self,
    {
        let q = self.owner_path(rel);
        if rel < self.left_weight() && self.left is Some {
            let b = self.left.unwrap();
            b.lemma_owner_path(rel);
            assert(q.drop_first() =~= b.owner_path(rel));
        } else if self.right is Some && rel >= self.node.total_length - self.right_weight() {
            let b = self.right.unwrap();
            let skip = self.node.total_length - self.right_weight();
            b.lemma_owner_path(rel - skip);
            assert(q.drop_first() =~= b.owner_path(rel - skip));
        } else {
        }
    }

    /// The owner of an offset does not depend on any cached position.
    pub proof fn lemma_with_position_at_owner(self, path: Seq<Side>, position: usize, rel: int)
        requires
            self.has_path(path),
        ensures
            self.with_position_at(path, position).owner_path(rel) == self.owner_path(rel),
        decreases self,
    {
        let t = self.with_position_at(path, position);
        self.lemma_with_position_at(path, position);
        if rel < self.left_weight() && self.left is Some {
            let b = self.left.unwrap();
            if path.len() > 0 && path[0] == Side::Left {
                b.lemma_with_position_at(path.drop_first(), position);
                b.lemma_with_position_at_owner(path.drop_first(), position, rel);
            }
        } else if self.right is Some && rel >= self.node.total_length - self.right_weight() {
            let b = self.right.unwrap();
            let skip = self.node.total_length - self.right_weight();
            if path.len() > 0 && path[0] == Side::Right {
                b.lemma_with_position_at(path.drop_first(), position);
                b.lemma_with_position_at_owner(path.drop_first(), position, rel - skip);
            }
        }
    }

    /// The first node of a tree has index 0, the last one the highest index.
    pub proof fn lemma_first_last_path(self)
        ensures
            self.has_path(self.first_path()),
            self.index_of(self.first_path()) == 0,
            self.node_at(self.first_path()).left is None,
            self.has_path(self.last_path()),
            self.index_of(self.last_path()) == self.size() - 1,
            self.node_at(self.last_path()).right is None,
        decreases self,
    {
        self.lemma_unfold();
        match self.left {
            Some(l) => {
                l.lemma_first_last_path();
                assert(self.first_path().drop_first() =~= l.first_path());
            },
            None => {},
        }
        match self.right {
            Some(r) => {
                r.lemma_first_last_path();
                assert(self.last_path().drop_first() =~= r.last_path());
            },
            None => {},
        }
    }

    /// The successor of a node is a node of the tree and stands one index
    /// behind it; only the last node has none.
    pub proof fn lemma_next_path(self, path: Seq<Side>)
        requires
            self.has_path(path),
        ensures
            match self.next_path(path) {
                Some(q) => self.has_path(q) && self.index_of(q) == self.index_of(path) + 1,
                None => self.index_of(path) == self.size() - 1,
            },
        decreases path.len(),
    {
        self.lemma_unfold();
        if path.len() == 0 {
            match self.right {
                Some(r) => {
                    r.lemma_first_last_path();
                    let q = seq![Side::Right] + r.first_path();
                    assert(q.drop_first() =~= r.first_path());
                },
                None => {},
            }
        } else {
            let c = self.child(path[0]).unwrap();
            c.lemma_next_path(path.drop_first());
            c.lemma_unfold();
            match c.next_path(path.drop_first()) {
                Some(q) => {
                    assert((seq![path[0]] + q).drop_first() =~= q);
                },
                None => {},
            }
        }
    }

    /// The predecessor of a node is a node of the tree and stands one index
    /// before it; only the first node has none.
    pub proof fn lemma_prev_path(self, path: Seq<Side>)
        requires
            self.has_path(path),
        ensures
            match self.prev_path(path) {
                Some(q) => self.has_path(q) && self.index_of(q) == self.index_of(path) - 1,
                None => self.index_of(path) == 0,
            },
        decreases path.len(),
    {
        self.lemma_unfold();
        if path.len() == 0 {
            match self.left {
                Some(l) => {
                    l.lemma_first_last_path();
                    let q = seq![Side::Left] + l.last_path();
                    assert(q.drop_first() =~= l.last_path());
                },
                None => {},
            }
        } else {
            let c = self.child(path[0]).unwrap();
            c.lemma_prev_path(path.drop_first());
            c.lemma_unfold();
            match c.prev_path(path.drop_first()) {
                Some(q) => {
                    assert((seq![path[0]] + q).drop_first() =~= q);
                },
                None => {},
            }
        }
    }

    /// Setting the cached positions along a path keeps everything but cached
    /// positions below this node, and makes those on the path agree with the
    /// cached position of this node.
    pub proof fn lemma_refreshed_below(self, path: Seq<Side>)
        requires
            self.has_path(path),
        ensures
            self.refreshed_below(path).cleared() == self.cleared(),
            self.refreshed_below(path).wf() == self.wf(),
            self.refreshed_below(path).size() == self.size(),
            self.refreshed_below(path).has_path(path),
            self.wf() && 0 <= self.cached_start() && self.cached_start()
                + self.node.total_length <= usize::MAX ==> self.refreshed_below(path).fresh_below(
                path,
            ),
            self.refreshed_below(path).node == self.node,
            self.refreshed_below(path).parent == self.parent,
            self.refreshed_below(path).left_weight() == self.left_weight(),
            self.refreshed_below(path).right_weight() == self.right_weight(),
            self.refreshed_below(path).span_start(path) == self.span_start(path),
            self.refreshed_below(path).node_at(path).own_length() == self.node_at(
                path,
            ).own_length(),
            self.fresh_below(path) ==> self.refreshed_below(path) == self,
        decreases path.len(),
    {
        if path.len() > 0 {
            let rest = path.drop_first();
            let c = self.child(path[0]).unwrap();
            let v = (self.child_start(path[0], self.cached_start()) + c.left_weight()) as usize;
            let d = c.with_position(v);
            c.lemma_with_position_paths(v, rest);
            d.lemma_refreshed_below(rest);
            if self.fresh_below(path) {
                assert(d == *c);
            }
        }
    }

    /// The cached position of a node has no part in where paths lead from it,
    /// nor in any weight below it.
    pub proof fn lemma_with_position_paths(self, position: usize, path: Seq<Side>)
        ensures
            self.with_position(position).has_path(path) == self.has_path(path),
            self.with_position(position).span_start(path) == self.span_start(path),
            self.with_position(position).index_of(path) == self.index_of(path),
            self.with_position(position).node_at(path).own_length() == self.node_at(
                path,
            ).own_length(),
            self.with_position(position).cleared() == self.cleared(),
            self.with_position(position).wf() == self.wf(),
            self.with_position(position).size() == self.size(),
    {
    }

    /// Where the cached positions along a path agree with that of this node,
    /// the node at the path caches the start of its own range, counted from
    /// the start that this node caches for its own subtree.
    pub proof fn lemma_fresh_below(self, path: Seq<Side>)
        requires
            self.has_path(path),
            self.fresh_below(path),
        ensures
            self.node_at(path).node.position == self.cached_start() + self.span_start(path),
        decreases path.len(),
    {
        if path.len() > 0 {
            self.child(path[0]).unwrap().lemma_fresh_below(path.drop_first());
        }
    }

    /// The cached position of a node has no part in the well-formedness or
    /// the size of its tree, nor in who owns an offset.
    pub proof fn lemma_with_position(self, position: usize, rel: int)
        ensures
            self.with_position(position).wf() == self.wf(),
            self.with_position(position).size() == self.size(),
            self.with_position(position).owner_path(rel) == self.owner_path(rel),
    {
        self.lemma_with_position_at(Seq::empty(), position);
        self.lemma_with_position_at_owner(Seq::empty(), position, rel);
    }

    /// The sum of the lengths of the first spans grows with their number,
    /// where no span has a negative length.
    pub proof fn lemma_prefix_length_grows(spans: Seq<Span>, a: int, b: int)
        requires
            0 <= a <= b <= spans.len(),
            forall|i: int| 0 <= i < spans.len() ==> (#[trigger] spans[i]).length >= 0,
        ensures
            Self::prefix_length(spans, a) <= Self::prefix_length(spans, b),
        decreases b - a,
    {
        if a < b {
            Self::lemma_prefix_length_grows(spans, a, b - 1);
        }
    }

    /// Spans of a length above zero do not overlap: an offset lies in the
    /// range of one span at most.
    pub proof fn lemma_one_owner(spans: Seq<Span>, i: int, j: int, rel: int)
        requires
            0 <= i < spans.len(),
            0 <= j < spans.len(),
            forall|k: int| 0 <= k < spans.len() ==> (#[trigger] spans[k]).length > 0,
            Self::prefix_length(spans, i) <= rel < Self::prefix_length(spans, i) + spans[i].length,
            Self::prefix_length(spans, j) <= rel < Self::prefix_length(spans, j) + spans[j].length,
        ensures
            i == j,
    {
        if i < j {
            Self::lemma_prefix_length_grows(spans, i + 1, j);
        }
        if j < i {
            Self::lemma_prefix_length_grows(spans, j + 1, i);
        }
    }

    /// One step of a walk down by cached positions. Where the offset `rel`
    /// of this subtree's sequence lies in the subtree in the slot `side`, the
    /// owner is found from the child, once the child caches the position that
    /// agrees with that of this node; and the tree refreshed along the path to
    /// the owner is this node over the child refreshed along the rest.
    pub proof fn lemma_descend_step(self, side: Side, rel: int)
        requires
            self.wf(),
            0 <= self.cached_start(),
            self.cached_start() + self.node.total_length <= usize::MAX,
            0 <= rel < self.node.total_length,
            match side {
                Side::Left => rel < self.left_weight(),
                Side::Right => rel >= self.node.total_length - self.right_weight(),
            },
        ensures
            self.child(side) is Some,
            ({
                let c = self.child(side).unwrap();
                let base = self.child_start(side, self.cached_start());
                let d = c.with_position((base + c.left_weight()) as usize);
                let below = rel - (base - self.cached_start());
                let q = d.owner_path(below);
                &&& d.wf()
                &&& d.size() < self.size()
                &&& d.cached_start() == base
                &&& 0 <= below < d.node.total_length
                &&& base + d.node.total_length <= usize::MAX
                &&& self.owner_path(rel) == seq![side] + q
                &&& self.refreshed_below(seq![side] + q) == match side {
                    Side::Left => Interval {
                        left: Some(Box::new(d.refreshed_below(q))),
                        ..self
                    },
                    Side::Right => Interval {
                        right: Some(Box::new(d.refreshed_below(q))),
                        ..self
                    },
                }
            }),
    {
        self.lemma_unfold();
        let c = self.child(side).unwrap();
        let base = self.child_start(side, self.cached_start());
        let cached = (base + c.left_weight()) as usize;
        let d = c.with_position(cached);
        let below = rel - (base - self.cached_start());
        assert(c.wf());
        c.lemma_with_position(cached, below);
        let q = d.owner_path(below);
        assert((seq![side] + q).drop_first() =~= q);
        assert(self.owner_path(rel) =~= seq![side] + c.owner_path(below));
    }
}

} // verus!
