use vstd::prelude::*;
use crate::interval::Interval;
use crate::node::{Side, Span};

verus! {

impl Interval {
    /// The tree in which the subtree at `path` is `sub` and nothing else
    /// differs.
    pub open spec fn with_node_at(self, path: Seq<Side>, sub: Interval) -> Interval
        decreases path.len(),
    {
        if path.len() == 0 {
            sub
        } else {
            match (path[0], self.left, self.right) {
                (Side::Left, Some(l), _) => Interval {
                    left: Some(Box::new(l.with_node_at(path.drop_first(), sub))),
                    ..self
                },
                (Side::Right, _, Some(r)) => Interval {
                    right: Some(Box::new(r.with_node_at(path.drop_first(), sub))),
                    ..self
                },
                _ => self,
            }
        }
    }

    /// The number of spans of this tree that come before the subtree at `path`.
    pub open spec fn first_index(self, path: Seq<Side>) -> int {
        self.index_of(path) - Self::opt_size(self.node_at(path).left)
    }

    /// Exchanging a run of spans in the front part of a joined sequence is
    /// exchanging it in the whole.
    pub proof fn lemma_exchange_front(a: Seq<Span>, b: Seq<Span>, i: int, n: int, s: Seq<Span>)
        requires
            0 <= i,
            0 <= n,
            i + n <= a.len(),
        ensures
            (a.take(i) + s + a.skip(i + n)) + b == (a + b).take(i) + s + (a + b).skip(i + n),
    {
        assert((a.take(i) + s + a.skip(i + n)) + b =~= (a + b).take(i) + s + (a + b).skip(i + n));
    }

    /// Exchanging a run of spans in the back part of a joined sequence is
    /// exchanging it in the whole.
    pub proof fn lemma_exchange_back(a: Seq<Span>, b: Seq<Span>, i: int, n: int, s: Seq<Span>)
        requires
            0 <= i,
            0 <= n,
            i + n <= b.len(),
        ensures
            a + (b.take(i) + s + b.skip(i + n)) == (a + b).take(a.len() + i) + s + (a + b).skip(
                a.len() + i + n,
            ),
    {
        assert(a + (b.take(i) + s + b.skip(i + n)) =~= (a + b).take(a.len() + i) + s + (a
            + b).skip(a.len() + i + n));
    }

    /// A subtree may be exchanged for another of the same weight under the
    /// same back-reference: the tree stays well formed and keeps its weight
    /// and its back-reference, and the new subtree stands at the path.
    pub proof fn lemma_with_node_at_shape(self, path: Seq<Side>, sub: Interval)
        requires
            self.wf(),
            self.has_path(path),
            sub.wf(),
            sub.node.total_length == self.node_at(path).node.total_length,
            sub.parent == self.node_at(path).parent,
        ensures
            self.with_node_at(path, sub).wf(),
            self.with_node_at(path, sub).node.total_length == self.node.total_length,
            self.with_node_at(path, sub).parent == self.parent,
            self.with_node_at(path, sub).has_path(path),
            self.with_node_at(path, sub).node_at(path) == sub,
        decreases path.len(),
    {
        if path.len() > 0 {
            let c = self.child(path[0]).unwrap();
            c.lemma_with_node_at_shape(path.drop_first(), sub);
        }
    }

    /// Two nodes that differ in a run of spans of their left subtrees alone
    /// have the same spans but for that run.
    pub proof fn lemma_spans_left_exchanged(self, other: Interval, i: int, n: int, s: Seq<Span>)
        requires
            self.left is Some,
            other.left is Some,
            other.right == self.right,
            other.own_span() == self.own_span(),
            0 <= i,
            0 <= n,
            i + n <= self.left.unwrap()@.len(),
            other.left.unwrap()@ == self.left.unwrap()@.take(i) + s + self.left.unwrap()@.skip(
                i + n,
            ),
        ensures
            i + n <= self@.len(),
            other@ == self@.take(i) + s + self@.skip(i + n),
    {
        let l = Self::opt_spans(self.left);
        let r = Self::opt_spans(self.right);
        let own = seq![self.own_span()];
        self.lemma_unfold();
        other.lemma_unfold();
        Self::lemma_exchange_front(l, own + r, i, n, s);
        assert(l + own + r =~= l + (own + r));
        let k = l.take(i) + s + l.skip(i + n);
        assert(k + own + r =~= k + (own + r));
    }

    /// Two nodes that differ in a run of spans of their right subtrees alone
    /// have the same spans but for that run.
    pub proof fn lemma_spans_right_exchanged(self, other: Interval, i: int, n: int, s: Seq<Span>)
        requires
            self.right is Some,
            other.right is Some,
            other.left == self.left,
            other.own_span() == self.own_span(),
            0 <= i,
            0 <= n,
            i + n <= self.right.unwrap()@.len(),
            other.right.unwrap()@ == self.right.unwrap()@.take(i) + s + self.right.unwrap()@.skip(
                i + n,
            ),
        ensures
            Self::opt_size(self.left) + 1 + i + n <= self@.len(),
            other@ == self@.take(Self::opt_size(self.left) + 1 + i) + s + self@.skip(
                Self::opt_size(self.left) + 1 + i + n,
            ),
    {
        let l = Self::opt_spans(self.left);
        let r = Self::opt_spans(self.right);
        let own = seq![self.own_span()];
        self.lemma_unfold();
        other.lemma_unfold();
        match self.left {
            Some(b) => b.lemma_unfold(),
            None => {},
        }
        Self::lemma_exchange_back(l + own, r, i, n, s);
        let k = r.take(i) + s + r.skip(i + n);
        assert(l + own + k =~= (l + own) + k);
    }

    /// A tree in which a subtree was exchanged for one of the same weight has
    /// the spans of the new subtree where those of the old one stood, and all
    /// others as they were.
    pub proof fn lemma_with_node_at(self, path: Seq<Side>, sub: Interval)
        requires
            self.has_path(path),
            sub.node.total_length == self.node_at(path).node.total_length,
        ensures
            0 <= self.first_index(path),
            self.first_index(path) + self.node_at(path).size() <= self@.len(),
            self.with_node_at(path, sub)@ == self@.take(self.first_index(path)) + sub@
                + self@.skip(self.first_index(path) + self.node_at(path).size()),
            self.with_node_at(path, sub).size() == self.size() - self.node_at(path).size()
                + sub.size(),
            self.with_node_at(path, sub).node.total_length == self.node.total_length,
        decreases path.len(),
    {
        let t = self.with_node_at(path, sub);
        if path.len() == 0 {
            self.lemma_unfold();
            sub.lemma_unfold();
            assert(t@ =~= self@.take(0) + sub@ + self@.skip(self.size() as int));
        } else {
            let rest = path.drop_first();
            let c = self.child(path[0]).unwrap();
            c.lemma_with_node_at(rest, sub);
            c.lemma_unfold();
            assert(t.own_span() == self.own_span());
            let i = c.first_index(rest);
            let n = c.node_at(rest).size() as int;
            match path[0] {
                Side::Left => {
                    self.lemma_spans_left_exchanged(t, i, n, sub@);
                },
                Side::Right => {
                    self.lemma_spans_right_exchanged(t, i, n, sub@);
                },
            }
        }
    }

    /// The node to which the steps of `path` from `depth` up to `upto` lead
    /// from this node, for changing it in place.
    fn walk_mut(&mut self, path: &Vec<Side>, depth: usize, upto: usize) -> (r: Option<
        &mut Interval,
    >)
        requires
            depth <= upto <= path.len(),
        ensures
            ({
                let p = path@.subrange(depth as int, upto as int);
                match r {
                    Some(n) => old(self).has_path(p) && *n == old(self).node_at(p) && *final(self)
                        == old(self).with_node_at(p, *final(n)),
                    None => !old(self).has_path(p) && *final(self) == *old(self),
                }
            }),
        decreases upto - depth,
    {
        let ghost p = path@.subrange(depth as int, upto as int);
        if depth == upto {
            assert(p =~= Seq::<Side>::empty());
            Some(self)
        } else {
            assert(p[0] == path@[depth as int]);
            assert(p.drop_first() =~= path@.subrange(depth + 1, upto as int));
            match path[depth] {
                Side::Left => match self.left.as_mut() {
                    Some(left) => left.walk_mut(path, depth + 1, upto),
                    None => None,
                },
                Side::Right => match self.right.as_mut() {
                    Some(right) => right.walk_mut(path, depth + 1, upto),
                    None => None,
                },
            }
        }
    }

    /// The node to which the first `upto` steps of `path` lead from this node.
    fn walk(&self, path: &Vec<Side>, upto: usize) -> (r: Option<&Interval>)
        requires
            upto <= path.len(),
        ensures
            match r {
                Some(n) => self.has_path(path@.take(upto as int)) && *n == self.node_at(
                    path@.take(upto as int),
                ),
                None => !self.has_path(path@.take(upto as int)),
            },
    {
        let mut tree: &Interval = self;
        let mut depth: usize = 0;
        let ghost whole = path@.take(upto as int);
        assert(path@.subrange(0, upto as int) =~= whole);
        while depth < upto
            invariant
                depth <= upto <= path.len(),
                whole == path@.take(upto as int),
                self.has_path(whole) == tree.has_path(path@.subrange(depth as int, upto as int)),
                self.node_at(whole) == tree.node_at(path@.subrange(depth as int, upto as int)),
            decreases upto - depth,
        {
            let ghost p = path@.subrange(depth as int, upto as int);
            assert(p[0] == path@[depth as int]);
            assert(p.drop_first() =~= path@.subrange(depth + 1, upto as int));
            let below = match path[depth] {
                Side::Left => tree.left(),
                Side::Right => tree.right(),
            };
            match below {
                Some(c) => {
                    tree = c;
                },
                None => {
                    assert(!tree.has_path(p));
                    return None;
                },
            }
            depth = depth + 1;
        }
        assert(path@.subrange(depth as int, upto as int) =~= Seq::<Side>::empty());
        Some(tree)
    }

    /// The node at `path` under this node, if `path` leads to one.
    pub fn descendant(&self, path: &Vec<Side>) -> (r: Option<&Interval>)
        ensures
            match r {
                Some(n) => self.has_path(path@) && *n == self.node_at(path@),
                None => !self.has_path(path@),
            },
    {
        assert(path@.take(path@.len() as int) =~= path@);
        self.walk(path, path.len())
    }

    /// A subtree of a well-formed tree may be exchanged for one that fits in
    /// its place: the tree stays well formed, keeps its weight and its
    /// back-reference, and has the spans of the new subtree where those of the
    /// old one stood.
    pub proof fn lemma_exchanged(self, path: Seq<Side>, sub: Interval)
        requires
            self.has_path(path),
        ensures
            self.wf() && Self::fits_in_place_of(sub, self.node_at(path)) ==> {
                let after = self.with_node_at(path, sub);
                let first = self.first_index(path);
                &&& after.wf()
                &&& after.node.total_length == self.node.total_length
                &&& after.parent == self.parent
                &&& after@ == self@.take(first) + sub@ + self@.skip(
                    first + self.node_at(path).size(),
                )
            },
    {
        if self.wf() && Self::fits_in_place_of(sub, self.node_at(path)) {
            self.lemma_with_node_at_shape(path, sub);
            self.lemma_with_node_at(path, sub);
        }
    }

    /// Whether `after` may stand where the node `before` stood without harm
    /// to the tree around it: it is well formed, weighs the same and has the
    /// same back-reference.
    pub open spec fn fits_in_place_of(after: Interval, before: Interval) -> bool {
        &&& after.wf()
        &&& after.node.total_length == before.node.total_length
        &&& after.parent == before.parent
    }

    /// The node at `path` under this node, if `path` leads to one, for
    /// changing it in place. Whatever the caller leaves behind the reference
    /// stands at `path` afterwards. If that is a well-formed tree of the same
    /// weight under the same back-reference, the whole tree stays well formed,
    /// and its spans are the old ones with those of the subtree exchanged.
    pub fn descendant_mut(&mut self, path: &Vec<Side>) -> (r: Option<&mut Interval>)
        ensures
            match r {
                Some(n) => {
                    let first = old(self).first_index(path@);
                    &&& old(self).has_path(path@)
                    &&& *n == old(self).node_at(path@)
                    &&& *final(self) == old(self).with_node_at(path@, *final(n))
                    &&& old(self).wf() && Self::fits_in_place_of(*final(n), *n) ==> {
                        &&& final(self).wf()
                        &&& final(self).node.total_length == old(self).node.total_length
                        &&& final(self).parent == old(self).parent
                        &&& final(self)@ == old(self)@.take(first) + final(n)@ + old(self)@.skip(
                            first + n.size(),
                        )
                    }
                },
                None => !old(self).has_path(path@) && *final(self) == *old(self),
            },
    {
        assert(path@.subrange(0, path@.len() as int) =~= path@);
        match self.walk_mut(path, 0, path.len()) {
            Some(n) => {
                proof {
                    old(self).lemma_exchanged(path@, *final(n));
                }
                Some(n)
            },
            None => None,
        }
    }

    /// The parent of the node at `path` under this node. A node knows its
    /// parent only through the ancestor that owns both, so the parent is
    /// looked up from there; the node at the empty path, this node itself,
    /// has none that could be reached.
    pub fn parent(&self, path: &Vec<Side>) -> (r: Option<&Interval>)
        ensures
            match r {
                Some(n) => path@.len() > 0 && self.has_path(path@.drop_last()) && *n
                    == self.node_at(path@.drop_last()),
                None => path@.len() == 0 || !self.has_path(path@.drop_last()),
            },
    {
        if path.len() == 0 {
            return None;
        }
        assert(path@.take(path@.len() - 1) =~= path@.drop_last());
        self.walk(path, path.len() - 1)
    }

    /// The parent of the node at `path` under this node, for changing it in
    /// place. Whatever the caller leaves behind the reference stands one step
    /// above `path` afterwards.
    pub fn parent_mut(&mut self, path: &Vec<Side>) -> (r: Option<&mut Interval>)
        ensures
            match r {
                Some(n) => path@.len() > 0 && old(self).has_path(path@.drop_last()) && *n == old(self).node_at(path@.drop_last()) && *final(self) == old(self).with_node_at(
                    path@.drop_last(),
                    *final(n),
                ),
                None => (path@.len() == 0 || !old(self).has_path(path@.drop_last())) && *final(self) == *old(self),
            },
    {
        if path.len() == 0 {
            return None;
        }
        assert(path@.subrange(0, path@.len() - 1) =~= path@.drop_last());
        self.walk_mut(path, 0, path.len() - 1)
    }
}

} // verus!
