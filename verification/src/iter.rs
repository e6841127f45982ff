use vstd::prelude::*;
use crate::interval::Interval;
use crate::node::Node;

verus! {

impl Interval {
    /// The nodes of the tree, each before the nodes under it and the left
    /// subtree before the right one.
    pub open spec fn preorder(self) -> Seq<Interval>
        decreases self,
    {
        seq![self] + Self::opt_preorder(self.left) + Self::opt_preorder(self.right)
    }

    /// The nodes of an optional subtree, in the order of `preorder`.
    pub open spec fn opt_preorder(t: Option<Box<Interval>>) -> Seq<Interval>
        decreases t,
    {
        match t {
            Some(b) => b.preorder(),
            None => Seq::empty(),
        }
    }

    /// The payloads of the nodes of the tree, in the order of `preorder`.
    pub open spec fn payloads(self) -> Seq<Node>
        decreases self,
    {
        seq![self.node] + Self::opt_payloads(self.left) + Self::opt_payloads(self.right)
    }

    /// The payloads of an optional subtree, in the order of `preorder`.
    pub open spec fn opt_payloads(t: Option<Box<Interval>>) -> Seq<Node>
        decreases t,
    {
        match t {
            Some(b) => b.payloads(),
            None => Seq::empty(),
        }
    }

    /// A walk over the nodes of the tree, each before the nodes under it.
    pub fn iter(&self) -> (it: Iter<'_>)
        ensures
            it.remaining() == self.preorder(),
    {
        let mut stack: Vec<&Interval> = Vec::new();
        stack.push(self);
        assert(stack@.drop_last() =~= Seq::<&Interval>::empty());
        assert(Iter::pending(stack@.drop_last()) =~= Seq::<Interval>::empty());
        assert(Iter::pending(stack@) =~= self.preorder());
        Iter { stack }
    }

    /// A walk that hands out the payloads of the nodes of the tree and takes
    /// the tree apart as it goes, each node before the nodes under it.
    pub fn into_iter(self) -> (it: IntoIter)
        ensures
            it.remaining() == self.payloads(),
    {
        let mut stack: Vec<Interval> = Vec::new();
        stack.push(self);
        assert(stack@.drop_last() =~= Seq::<Interval>::empty());
        assert(IntoIter::pending(stack@.drop_last()) =~= Seq::<Node>::empty());
        assert(IntoIter::pending(stack@) =~= self.payloads());
        IntoIter { stack }
    }
}

/// A walk over the nodes of a tree by shared reference.
pub struct Iter<'a> {
    /// The subtrees still to be walked; the top of the stack comes first.
    pub stack: Vec<&'a Interval>,
}

impl<'a> Iter<'a> {
    /// The nodes that a stack of subtrees still holds, in the order in which
    /// they come.
    pub open spec fn pending(stack: Seq<&Interval>) -> Seq<Interval>
        decreases stack.len(),
    {
        if stack.len() == 0 {
            Seq::empty()
        } else {
            stack.last().preorder() + Self::pending(stack.drop_last())
        }
    }

    /// The nodes still to come, in order.
    pub open spec fn remaining(self) -> Seq<Interval> {
        Self::pending(self.stack@)
    }

    /// The next node, if any is left.
    pub fn next(&mut self) -> (r: Option<&'a Interval>)
        ensures
            match r {
                Some(t) => old(self).remaining().len() > 0 && *t == old(self).remaining()[0]
                    && final(self).remaining() == old(self).remaining().drop_first(),
                None => old(self).remaining().len() == 0 && final(self).remaining().len() == 0,
            },
    {
        let ghost before = self.stack@;
        match self.stack.pop() {
            Some(tree) => {
                let ghost rest = self.stack@;
                assert(rest =~= before.drop_last());
                match &tree.right {
                    Some(r) => {
                        self.stack.push(&**r);
                        assert(self.stack@.drop_last() =~= rest);
                    },
                    None => {},
                }
                let ghost mid = self.stack@;
                assert(Self::pending(mid) =~= Interval::opt_preorder(tree.right) + Self::pending(
                    rest,
                ));
                match &tree.left {
                    Some(l) => {
                        self.stack.push(&**l);
                        assert(self.stack@.drop_last() =~= mid);
                    },
                    None => {},
                }
                assert(Self::pending(self.stack@) =~= Interval::opt_preorder(tree.left)
                    + Interval::opt_preorder(tree.right) + Self::pending(rest));
                assert(Self::pending(before) =~= seq![*tree] + Self::pending(self.stack@));
                assert(Self::pending(self.stack@) =~= Self::pending(before).drop_first());
                Some(tree)
            },
            None => None,
        }
    }
}

/// A walk that hands out the payloads of the nodes of a tree.
pub struct IntoIter {
    /// The subtrees still to be walked; the top of the stack comes first.
    pub stack: Vec<Interval>,
}

impl IntoIter {
    /// The payloads that a stack of subtrees still holds, in the order in
    /// which they come.
    pub open spec fn pending(stack: Seq<Interval>) -> Seq<Node>
        decreases stack.len(),
    {
        if stack.len() == 0 {
            Seq::empty()
        } else {
            stack.last().payloads() + Self::pending(stack.drop_last())
        }
    }

    /// The payloads still to come, in order.
    pub open spec fn remaining(self) -> Seq<Node> {
        Self::pending(self.stack@)
    }

    /// The next payload, if any is left.
    pub fn next(&mut self) -> (r: Option<Node>)
        ensures
            match r {
                Some(n) => old(self).remaining().len() > 0 && n == old(self).remaining()[0]
                    && final(self).remaining() == old(self).remaining().drop_first(),
                None => old(self).remaining().len() == 0 && final(self).remaining().len() == 0,
            },
    {
        let ghost before = self.stack@;
        match self.stack.pop() {
            Some(tree) => {
                let ghost whole = tree;
                let mut tree = tree;
                let ghost rest = self.stack@;
                assert(rest =~= before.drop_last());
                match tree.take_right() {
                    Some(r) => {
                        self.stack.push(r);
                        assert(self.stack@.drop_last() =~= rest);
                    },
                    None => {},
                }
                let ghost mid = self.stack@;
                assert(Self::pending(mid) =~= Interval::opt_payloads(whole.right) + Self::pending(
                    rest,
                ));
                match tree.take_left() {
                    Some(l) => {
                        self.stack.push(l);
                        assert(self.stack@.drop_last() =~= mid);
                    },
                    None => {},
                }
                assert(Self::pending(self.stack@) =~= Interval::opt_payloads(whole.left)
                    + Interval::opt_payloads(whole.right) + Self::pending(rest));
                assert(Self::pending(before) =~= seq![whole.node] + Self::pending(self.stack@));
                assert(Self::pending(self.stack@) =~= Self::pending(before).drop_first());
                Some(tree.node)
            },
            None => None,
        }
    }
}

/// A walk over the payloads of the nodes of a tree by mutable reference.
pub struct IterMut<'a> {
    /// The subtrees still to be walked; the top of the stack comes first.
    pub stack: Vec<&'a mut Interval>,
}

impl<'a> IterMut<'a> {
    /// The payloads that a stack of subtrees still holds, in the order in
    /// which they come.
    pub open spec fn pending(stack: Seq<&mut Interval>) -> Seq<Node>
        decreases stack.len(),
    {
        if stack.len() == 0 {
            Seq::empty()
        } else {
            stack.last().payloads() + Self::pending(stack.drop_last())
        }
    }

    /// The payloads still to come, in order.
    pub open spec fn remaining(self) -> Seq<Node> {
        Self::pending(self.stack@)
    }

    /// The next payload, if any is left. The node that it belongs to leaves
    /// the stack, and its children enter it, the left one on top. What that
    /// node will be in the end is made of what is left behind the reference
    /// handed out and behind those to its children.
    pub fn next(&mut self) -> (r: Option<&'a mut Node>)
        ensures
            match r {
                Some(n) => {
                    let top = old(self).stack@.last();
                    let rest = old(self).stack@.drop_last();
                    let under = if top.right is Some {
                        1int
                    } else {
                        0int
                    };
                    &&& old(self).remaining().len() > 0
                    &&& *n == old(self).remaining()[0]
                    &&& final(self).remaining() == old(self).remaining().drop_first()
                    &&& old(self).stack@.len() > 0
                    &&& *n == top.node
                    &&& final(top).node == *final(n)
                    &&& final(top).parent == top.parent
                    &&& final(self).stack@.len() == rest.len() + under + if top.left is Some {
                        1int
                    } else {
                        0int
                    }
                    &&& final(self).stack@.take(rest.len() as int) == rest
                    &&& match top.right {
                        Some(x) => *final(self).stack@[rest.len() as int] == *x && final(top).right
                            == Some(Box::new(*final(final(self).stack@[rest.len() as int]))),
                        None => final(top).right is None,
                    }
                    &&& match top.left {
                        Some(x) => *final(self).stack@[rest.len() + under] == *x && final(top).left
                            == Some(Box::new(*final(final(self).stack@[rest.len() + under]))),
                        None => final(top).left is None,
                    }
                },
                None => old(self).remaining().len() == 0 && final(self).remaining().len() == 0
                    && old(self).stack@.len() == 0,
            },
    {
        let ghost before = self.stack@;
        match self.stack.pop() {
            Some(tree) => {
                let ghost whole = *tree;
                let ghost rest = self.stack@;
                assert(rest =~= before.drop_last());
                let Interval { left, right, node, .. } = tree;
                match right {
                    Some(r) => {
                        let sub: &mut Interval = &mut **r;
                        self.stack.push(sub);
                        assert(self.stack@.drop_last() =~= rest);
                    },
                    None => {},
                }
                let ghost mid = self.stack@;
                assert(Self::pending(mid) =~= Interval::opt_payloads(whole.right) + Self::pending(
                    rest,
                ));
                match left {
                    Some(l) => {
                        let sub: &mut Interval = &mut **l;
                        self.stack.push(sub);
                        assert(self.stack@.drop_last() =~= mid);
                    },
                    None => {},
                }
                assert(Self::pending(self.stack@) =~= Interval::opt_payloads(whole.left)
                    + Interval::opt_payloads(whole.right) + Self::pending(rest));
                assert(Self::pending(before) =~= seq![whole.node] + Self::pending(self.stack@));
                assert(Self::pending(self.stack@) =~= Self::pending(before).drop_first());
                assert(self.stack@.take(rest.len() as int) =~= rest);
                Some(node)
            },
            None => None,
        }
    }
}

impl Interval {
    /// A walk over the payloads of the nodes of the tree, for changing them
    /// in place, each node before the nodes under it.
    pub fn iter_mut(&mut self) -> (it: IterMut<'_>)
        ensures
            it.remaining() == old(self).payloads(),
            it.stack@.len() == 1,
            *it.stack@[0] == *old(self),
            *final(it.stack@[0]) == *final(self),
    {
        let ghost whole = *self;
        let mut stack: Vec<&mut Interval> = Vec::new();
        stack.push(self);
        assert(stack@.drop_last() =~= Seq::<&mut Interval>::empty());
        assert(IterMut::pending(stack@.drop_last()) =~= Seq::<Node>::empty());
        assert(IterMut::pending(stack@) =~= whole.payloads());
        IterMut { stack }
    }
}

} // verus!
