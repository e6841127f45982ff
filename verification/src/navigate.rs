use vstd::prelude::*;
use crate::error::IntervalError;
use crate::interval::Interval;
use crate::node::{Side, Span};

verus! {

/// How a walk along a path ended at one node.
enum Walk {
    /// The node looked for was found; this is its path.
    Found(Vec<Side>),
    /// It is not under this node. The value is the position to cache in it.
    Up(usize),
}

/// The first `n` steps of `path`.
fn copy_prefix(path: &Vec<Side>, n: usize) -> (r: Vec<Side>)
    requires
        n <= path.len(),
    ensures
        r@ == path@.take(n as int),
{
    let mut r: Vec<Side> = Vec::new();
    let mut i: usize = 0;
    while i < n
        invariant
            i <= n <= path.len(),
            r@ == path@.take(i as int),
        decreases n - i,
    {
        r.push(path[i]);
        i = i + 1;
        assert(r@ =~= path@.take(i as int));
    }
    r
}

impl Interval {
    /// Walks down from this node to the owner of the offset `rel` of this
    /// subtree's sequence, appends the steps taken to `path` and caches the
    /// owner's position. `position` is the absolute position that `rel` stands
    /// for, so `position - rel` is where this subtree's sequence starts.
    fn seek(&mut self, rel: usize, position: usize, path: &mut Vec<Side>)
        requires
            old(self).wf(),
            rel <= old(self).node.total_length,
            rel <= position,
        ensures
            final(path)@ == old(path)@ + old(self).owner_path(rel as int),
            *final(self) == old(self).with_position_at(
                old(self).owner_path(rel as int),
                (position - rel + old(self).span_start(old(self).owner_path(rel as int))) as usize,
            ),
        decreases *old(self),
    {
        let ghost q = self.owner_path(rel as int);
        proof {
            self.lemma_owner_path(rel as int);
        }
        if rel < self.left_total_length() {
            path.push(Side::Left);
            match self.left.as_mut() {
                Some(left) => {
                    assert(q.drop_first() =~= left.owner_path(rel as int));
                    left.seek(rel, position, path);
                },
                None => {},
            }
            assert(final(path)@ =~= old(path)@ + q);
        } else if self.has_right() && rel >= self.node.total_length - self.right_total_length() {
            let skip = self.node.total_length - self.right_total_length();
            path.push(Side::Right);
            match self.right.as_mut() {
                Some(right) => {
                    assert(q.drop_first() =~= right.owner_path(rel - skip));
                    right.seek(rel - skip, position, path);
                },
                None => {},
            }
            assert(final(path)@ =~= old(path)@ + q);
        } else {
            self.node.position = position - rel + self.left_total_length();
            assert(final(path)@ =~= old(path)@ + q);
        }
    }

    /// Finds the node whose own range holds `position` and caches its position.
    ///
    /// `position` is absolute: it counts from the first position of the
    /// container for a root, from 0 for any other node. The position just
    /// behind the sequence belongs to the last node. Any other position
    /// outside the sequence is refused, and the tree is left as it is.
    ///
    /// A root is first balanced against its children. The result is the path
    /// from this node to the owner; of all spans only the owner's changes, in
    /// its cached position.
    pub fn find(&mut self, position: usize) -> (r: Result<Vec<Side>, IntervalError>)
        requires
            old(self).wf(),
        ensures
            final(self).wf(),
            final(self).size() == old(self).size(),
            final(self).node.total_length == old(self).node.total_length,
            final(self).parent == old(self).parent,
            match r {
                Ok(path) => {
                    let n = final(self).node_at(path@);
                    let k = final(self).index_of(path@);
                    let start = old(self).start();
                    let end = old(self).start() + old(self).node.total_length;
                    &&& start <= position <= end
                    &&& final(self).has_path(path@)
                    &&& path@ == old(self).root_rebalanced().owner_path(position - start)
                    &&& *final(self) == old(self).root_rebalanced().with_position_at(
                        path@,
                        n.node.position,
                    )
                    &&& final(self).fresh_at(path@)
                    &&& n.node.position <= position
                    &&& position < end ==> position < n.node.position + n.own_length()
                    &&& position == end ==> position == n.node.position + n.own_length() && k
                        == final(self).size() - 1
                    &&& 0 <= k < old(self)@.len()
                    &&& n.node.position == start + Self::prefix_length(old(self)@, k)
                    &&& n.own_length() == old(self)@[k].length
                    &&& final(self)@ == old(self)@.update(
                        k,
                        Span { position: n.node.position as nat, ..old(self)@[k] },
                    )
                    &&& old(self).parent is Object ==> final(self).locally_balanced()
                },
                Err(e) => {
                    &&& e == IntervalError::PositionOutOfRange
                    &&& !(old(self).start() <= position <= old(self).start() + old(self).node.total_length)
                    &&& *final(self) == *old(self)
                },
            },
    {
        let begin = self.start_pos();
        if position < begin || position - begin > self.node.total_length {
            return Err(IntervalError::PositionOutOfRange);
        }
        self.balance_possible_root();
        let ghost t = *self;
        let rel = position - begin;
        let ghost q = t.owner_path(rel as int);
        let ghost v = (position - rel + t.span_start(q)) as usize;
        proof {
            t.lemma_owner_path(rel as int);
            t.lemma_path(q);
            t.lemma_with_position_at(q, v);
            t.lemma_with_position_at_paths(q, v, q);
            t.lemma_with_position_at_owner(q, v, rel as int);
        }
        let mut path: Vec<Side> = Vec::new();
        self.seek(rel, position, &mut path);
        assert(path@ =~= q);
        Ok(path)
    }

    /// Walks down the left slots to the first node of this subtree, appends
    /// the steps to `path` and caches `position` in that node.
    fn seek_first(&mut self, position: usize, path: &mut Vec<Side>)
        ensures
            final(path)@ == old(path)@ + old(self).first_path(),
            *final(self) == old(self).with_position_at(old(self).first_path(), position),
        decreases *old(self),
    {
        let ghost q = self.first_path();
        match self.left.as_mut() {
            Some(left) => {
                path.push(Side::Left);
                assert(q.drop_first() =~= left.first_path());
                left.seek_first(position, path);
            },
            None => {
                self.node.position = position;
            },
        }
        assert(final(path)@ =~= old(path)@ + q);
    }

    /// Walks down the right slots to the last node of this subtree, appends
    /// the steps to `path` and caches in that node the position that lies its
    /// own length before `position`.
    fn seek_last(&mut self, position: usize, path: &mut Vec<Side>)
        requires
            old(self).wf(),
            old(self).node_at(old(self).last_path()).own_length() <= position,
        ensures
            final(path)@ == old(path)@ + old(self).last_path(),
            *final(self) == old(self).with_position_at(
                old(self).last_path(),
                (position - old(self).node_at(old(self).last_path()).own_length()) as usize,
            ),
        decreases *old(self),
    {
        let ghost q = self.last_path();
        if self.right.is_some() {
            match self.right.as_mut() {
                Some(right) => {
                    path.push(Side::Right);
                    assert(q.drop_first() =~= right.last_path());
                    right.seek_last(position, path);
                },
                None => {},
            }
        } else {
            self.node.position = position - self.length();
        }
        assert(final(path)@ =~= old(path)@ + q);
    }

    /// One node's part in the walk to a successor. `path` leads from the root
    /// of the walk to the node whose successor is looked for, and this node is
    /// `depth` steps down that path.
    fn next_from(&mut self, path: &Vec<Side>, depth: usize) -> (w: Walk)
        requires
            old(self).wf(),
            depth <= path.len(),
            old(self).has_path(path@.skip(depth as int)),
            old(self).node_at(path@.skip(depth as int)).node.position + old(self).node_at(
                path@.skip(depth as int),
            ).own_length() <= usize::MAX,
        ensures
            ({
                let p = path@.skip(depth as int);
                let n = old(self).node_at(p);
                let position = (n.node.position + n.own_length()) as usize;
                match old(self).next_path(p) {
                    Some(q) => w matches Walk::Found(v) && v@ == path@.take(depth as int) + q
                        && *final(self) == old(self).with_position_at(q, position),
                    None => w == Walk::Up(position) && *final(self) == *old(self),
                }
            }),
        decreases path.len() - depth,
    {
        let ghost p = path@.skip(depth as int);
        if depth == path.len() {
            assert(p =~= Seq::<Side>::empty());
            let position = self.node.position + self.length();
            if self.right.is_some() {
                let mut found = copy_prefix(path, depth);
                found.push(Side::Right);
                match self.right.as_mut() {
                    Some(right) => {
                        let ghost first = right.first_path();
                        right.seek_first(position, &mut found);
                        assert(found@ =~= path@.take(depth as int) + (seq![Side::Right] + first));
                        assert((seq![Side::Right] + first).drop_first() =~= first);
                    },
                    None => {},
                }
                Walk::Found(found)
            } else {
                Walk::Up(position)
            }
        } else {
            let side = path[depth];
            assert(p[0] == side);
            assert(p.drop_first() =~= path@.skip(depth + 1));
            let below = match side {
                Side::Left => match self.left.as_mut() {
                    Some(left) => left.next_from(path, depth + 1),
                    None => Walk::Up(0),
                },
                Side::Right => match self.right.as_mut() {
                    Some(right) => right.next_from(path, depth + 1),
                    None => Walk::Up(0),
                },
            };
            match below {
                Walk::Found(v) => {
                    proof {
                        let q = old(self).child(side).unwrap().next_path(p.drop_first()).unwrap();
                        assert(v@ =~= path@.take(depth as int) + (seq![side] + q));
                        assert((seq![side] + q).drop_first() =~= q);
                    }
                    Walk::Found(v)
                },
                Walk::Up(position) => match side {
                    Side::Left => {
                        self.node.position = position;
                        let found = copy_prefix(path, depth);
                        assert(found@ =~= path@.take(depth as int) + Seq::<Side>::empty());
                        Walk::Found(found)
                    },
                    Side::Right => Walk::Up(position),
                },
            }
        }
    }

    /// One node's part in the walk to a predecessor. `path` leads from the
    /// root of the walk to the node whose predecessor is looked for, and this
    /// node is `depth` steps down that path.
    fn prev_from(&mut self, path: &Vec<Side>, depth: usize) -> (w: Walk)
        requires
            old(self).wf(),
            depth <= path.len(),
            old(self).has_path(path@.skip(depth as int)),
            match old(self).prev_path(path@.skip(depth as int)) {
                Some(q) => old(self).node_at(q).own_length() <= old(self).node_at(
                    path@.skip(depth as int),
                ).node.position,
                None => true,
            },
        ensures
            ({
                let p = path@.skip(depth as int);
                let n = old(self).node_at(p);
                match old(self).prev_path(p) {
                    Some(q) => w matches Walk::Found(v) && v@ == path@.take(depth as int) + q
                        && *final(self) == old(self).with_position_at(
                        q,
                        (n.node.position - old(self).node_at(q).own_length()) as usize,
                    ),
                    None => w == Walk::Up(n.node.position) && *final(self) == *old(self),
                }
            }),
        decreases path.len() - depth,
    {
        let ghost p = path@.skip(depth as int);
        if depth == path.len() {
            assert(p =~= Seq::<Side>::empty());
            let position = self.node.position;
            if self.left.is_some() {
                let mut found = copy_prefix(path, depth);
                found.push(Side::Left);
                match self.left.as_mut() {
                    Some(left) => {
                        let ghost last = left.last_path();
                        assert((seq![Side::Left] + last).drop_first() =~= last);
                        left.seek_last(position, &mut found);
                        assert(found@ =~= path@.take(depth as int) + (seq![Side::Left] + last));
                    },
                    None => {},
                }
                Walk::Found(found)
            } else {
                Walk::Up(position)
            }
        } else {
            let side = path[depth];
            assert(p[0] == side);
            assert(p.drop_first() =~= path@.skip(depth + 1));
            proof {
                match old(self).child(side).unwrap().prev_path(p.drop_first()) {
                    Some(q) => {
                        assert((seq![side] + q).drop_first() =~= q);
                    },
                    None => {},
                }
            }
            let below = match side {
                Side::Left => match self.left.as_mut() {
                    Some(left) => left.prev_from(path, depth + 1),
                    None => Walk::Up(0),
                },
                Side::Right => match self.right.as_mut() {
                    Some(right) => right.prev_from(path, depth + 1),
                    None => Walk::Up(0),
                },
            };
            match below {
                Walk::Found(v) => {
                    proof {
                        let q = old(self).child(side).unwrap().prev_path(p.drop_first()).unwrap();
                        assert(v@ =~= path@.take(depth as int) + (seq![side] + q));
                    }
                    Walk::Found(v)
                },
                Walk::Up(position) => match side {
                    Side::Right => {
                        self.node.position = position - self.length();
                        let found = copy_prefix(path, depth);
                        assert(found@ =~= path@.take(depth as int) + Seq::<Side>::empty());
                        Walk::Found(found)
                    },
                    Side::Left => Walk::Up(position),
                },
            }
        }
    }

    /// Finds the node that follows the node at `path` in the order of the
    /// spans and caches its position: the position of the node at `path` plus
    /// the length of that node's own range.
    ///
    /// The successor is the first node of the right subtree or, without one,
    /// the nearest ancestor below this node that holds the node in its left
    /// subtree. The last node of this tree has none; then nothing changes.
    pub fn next(&mut self, path: &Vec<Side>) -> (r: Option<Vec<Side>>)
        requires
            old(self).wf(),
            old(self).has_path(path@),
            old(self).node_at(path@).node.position + old(self).node_at(path@).own_length()
                <= usize::MAX,
        ensures
            ({
                let n = old(self).node_at(path@);
                let k = old(self).index_of(path@);
                let position = (n.node.position + n.own_length()) as usize;
                match r {
                    Some(q) => {
                        &&& old(self).next_path(path@) == Some(q@)
                        &&& *final(self) == old(self).with_position_at(q@, position)
                        &&& final(self).has_path(q@)
                        &&& final(self).index_of(q@) == k + 1
                        &&& final(self).node_at(q@).node.position == position
                        &&& old(self).fresh_at(path@) ==> final(self).fresh_at(q@)
                        &&& final(self)@ == old(self)@.update(
                            k + 1,
                            Span { position: position as nat, ..old(self)@[k + 1] },
                        )
                    },
                    None => {
                        &&& old(self).next_path(path@) is None
                        &&& k == old(self).size() - 1
                        &&& *final(self) == *old(self)
                    },
                }
            }),
            final(self).wf(),
    {
        proof {
            assert(path@.skip(0) =~= path@);
            old(self).lemma_next_path(path@);
            old(self).lemma_neighbours_adjoin(path@);
            old(self).lemma_path(path@);
            match old(self).next_path(path@) {
                Some(q) => {
                    let n = old(self).node_at(path@);
                    let position = (n.node.position + n.own_length()) as usize;
                    old(self).lemma_with_position_at(q, position);
                    old(self).lemma_with_position_at_paths(q, position, q);
                },
                None => {},
            }
        }
        match self.next_from(path, 0) {
            Walk::Found(q) => {
                assert(path@.take(0) =~= Seq::<Side>::empty());
                assert(q@ =~= old(self).next_path(path@).unwrap());
                Some(q)
            },
            Walk::Up(_) => None,
        }
    }

    /// Finds the node that precedes the node at `path` in the order of the
    /// spans and caches its position: the position of the node at `path` less
    /// the length of the predecessor's own range.
    ///
    /// The predecessor is the last node of the left subtree or, without one,
    /// the nearest ancestor below this node that holds the node in its right
    /// subtree. The first node of this tree has none; then nothing changes.
    pub fn prev(&mut self, path: &Vec<Side>) -> (r: Option<Vec<Side>>)
        requires
            old(self).wf(),
            old(self).has_path(path@),
            match old(self).prev_path(path@) {
                Some(q) => old(self).node_at(q).own_length() <= old(self).node_at(
                    path@,
                ).node.position,
                None => true,
            },
        ensures
            ({
                let n = old(self).node_at(path@);
                let k = old(self).index_of(path@);
                match r {
                    Some(q) => {
                        let position = (n.node.position - old(self).node_at(q@).own_length()) as usize;
                        &&& old(self).prev_path(path@) == Some(q@)
                        &&& *final(self) == old(self).with_position_at(q@, position)
                        &&& final(self).has_path(q@)
                        &&& final(self).index_of(q@) == k - 1
                        &&& final(self).node_at(q@).node.position == position
                        &&& old(self).fresh_at(path@) ==> final(self).fresh_at(q@)
                        &&& final(self)@ == old(self)@.update(
                            k - 1,
                            Span { position: position as nat, ..old(self)@[k - 1] },
                        )
                    },
                    None => {
                        &&& old(self).prev_path(path@) is None
                        &&& k == 0
                        &&& *final(self) == *old(self)
                    },
                }
            }),
            final(self).wf(),
    {
        proof {
            assert(path@.skip(0) =~= path@);
            old(self).lemma_prev_path(path@);
            old(self).lemma_neighbours_adjoin(path@);
            old(self).lemma_path(path@);
            match old(self).prev_path(path@) {
                Some(q) => {
                    old(self).lemma_path(q);
                    let n = old(self).node_at(path@);
                    let position = (n.node.position - old(self).node_at(q).own_length()) as usize;
                    old(self).lemma_with_position_at(q, position);
                    old(self).lemma_with_position_at_paths(q, position, q);
                },
                None => {},
            }
        }
        match self.prev_from(path, 0) {
            Walk::Found(q) => {
                assert(path@.take(0) =~= Seq::<Side>::empty());
                assert(q@ =~= old(self).prev_path(path@).unwrap());
                Some(q)
            },
            Walk::Up(_) => None,
        }
    }

    /// Walks down from this node, whose cached position is trusted, to the
    /// owner of `position`, which lies in this subtree. Each node entered gets
    /// its position cached from that of the node above it, and the steps are
    /// appended to `path`.
    fn descend(&mut self, position: usize, path: &mut Vec<Side>)
        requires
            old(self).wf(),
            0 <= old(self).cached_start() <= position,
            position < old(self).cached_start() + old(self).node.total_length <= usize::MAX,
        ensures
            final(path)@ == old(path)@ + old(self).owner_path(position - old(self).cached_start()),
            *final(self) == old(self).refreshed_below(
                old(self).owner_path(position - old(self).cached_start()),
            ),
        decreases old(self).size(),
    {
        let ghost rel = position - self.cached_start();
        let here = self.node.position;
        if position < here {
            // The owner is in the left subtree.
            proof {
                self.lemma_descend_step(Side::Left, rel);
            }
            match self.left.as_mut() {
                Some(left) => {
                    left.node.position = here - left.node.total_length + left.left_total_length();
                    path.push(Side::Left);
                    left.descend(position, path);
                },
                None => {},
            }
            assert(final(path)@ =~= old(path)@ + old(self).owner_path(rel));
        } else {
            let last = here + self.length();
            if position >= last {
                // The owner is in the right subtree.
                proof {
                    self.lemma_descend_step(Side::Right, rel);
                }
                match self.right.as_mut() {
                    Some(right) => {
                        right.node.position = last + right.left_total_length();
                        path.push(Side::Right);
                        right.descend(position, path);
                    },
                    None => {},
                }
                assert(final(path)@ =~= old(path)@ + old(self).owner_path(rel));
            } else {
                assert(old(self).owner_path(rel) =~= Seq::<Side>::empty());
                assert(final(path)@ =~= old(path)@ + old(self).owner_path(rel));
            }
        }
    }

    /// One node's part in the walk from a node with a trusted position to the
    /// owner of `position`. `path` leads from the root of the walk to the node
    /// at which the walk starts, and this node is `depth` steps down that path.
    fn update_from(&mut self, path: &Vec<Side>, depth: usize, position: usize) -> (w: Walk)
        requires
            old(self).wf(),
            depth <= path.len(),
            old(self).has_path(path@.skip(depth as int)),
            old(self).fresh_below(path@.skip(depth as int)),
            0 <= old(self).cached_start(),
            old(self).cached_start() + old(self).node.total_length <= usize::MAX,
        ensures
            ({
                let base = old(self).cached_start();
                let q = old(self).owner_path(position - base);
                if base <= position < base + old(self).node.total_length {
                    w matches Walk::Found(v) && v@ == path@.take(depth as int) + q && *final(self)
                        == old(self).refreshed_below(q)
                } else {
                    w == Walk::Up(position) && *final(self) == *old(self)
                }
            }),
        decreases path.len() - depth,
    {
        let ghost p = path@.skip(depth as int);
        let ghost base = self.cached_start();
        let ghost q = self.owner_path(position - base);
        if depth < path.len() {
            let side = path[depth];
            assert(p[0] == side);
            assert(p.drop_first() =~= path@.skip(depth + 1));
            let ghost c = *self.child(side).unwrap();
            assert(c.wf());
            let below = match side {
                Side::Left => match self.left.as_mut() {
                    Some(left) => left.update_from(path, depth + 1, position),
                    None => Walk::Up(position),
                },
                Side::Right => match self.right.as_mut() {
                    Some(right) => right.update_from(path, depth + 1, position),
                    None => Walk::Up(position),
                },
            };
            match below {
                Walk::Found(v) => {
                    proof {
                        let qc = c.owner_path(position - c.cached_start());
                        assert(q =~= seq![side] + qc);
                        assert(q.drop_first() =~= qc);
                        assert(v@ =~= path@.take(depth as int) + q);
                        assert(c.with_position(c.node.position) == c);
                    }
                    return Walk::Found(v);
                },
                Walk::Up(_) => {},
            }
        }
        let begin = self.node.position - self.left_total_length();
        if position < begin || position - begin >= self.node.total_length {
            return Walk::Up(position);
        }
        let mut found = copy_prefix(path, depth);
        self.descend(position, &mut found);
        Walk::Found(found)
    }

    /// Finds the owner of `position` by a walk that starts at the node at
    /// `path`, whose cached position and those of its ancestors up to this
    /// node are trusted: up while `position` lies outside the subtree of the
    /// node reached, then down to the owner. On the way down each node gets its
    /// position cached from that of the node above it.
    ///
    /// A position outside the sequence is refused; unlike `find`, that holds
    /// of the position just behind the sequence too. The tree is then left as
    /// it is.
    pub fn update(&mut self, path: &Vec<Side>, position: usize) -> (r: Result<
        Vec<Side>,
        IntervalError,
    >)
        requires
            old(self).wf(),
            old(self).has_path(path@),
            old(self).fresh_along(path@),
            old(self).start() + old(self).node.total_length <= usize::MAX,
        ensures
            final(self).wf(),
            final(self).cleared() == old(self).cleared(),
            match r {
                Ok(q) => {
                    let n = final(self).node_at(q@);
                    let start = old(self).start();
                    &&& start <= position < start + old(self).node.total_length
                    &&& q@ == old(self).owner_path(position - start)
                    &&& *final(self) == old(self).refreshed_below(q@)
                    &&& final(self).has_path(q@)
                    &&& final(self).fresh_along(q@)
                    &&& n.node.position <= position < n.node.position + n.own_length()
                },
                Err(e) => {
                    &&& e == IntervalError::PositionOutOfRange
                    &&& !(old(self).start() <= position < old(self).start() + old(
                        self,
                    ).node.total_length)
                    &&& *final(self) == *old(self)
                },
            },
    {
        proof {
            assert(path@.skip(0) =~= path@);
            assert(path@.take(0) =~= Seq::<Side>::empty());
            let rel = position - old(self).start();
            if 0 <= rel < old(self).node.total_length {
                let q = old(self).owner_path(rel);
                old(self).lemma_owner_path(rel);
                old(self).lemma_refreshed_below(q);
                old(self).refreshed_below(q).lemma_fresh_below(q);
            }
        }
        match self.update_from(path, 0, position) {
            Walk::Found(q) => {
                assert(q@ =~= old(self).owner_path(position - old(self).start()));
                Ok(q)
            },
            Walk::Up(_) => Err(IntervalError::PositionOutOfRange),
        }
    }

    /// The path to the node whose own range holds the offset `rel` of this
    /// tree's sequence, found by a search over the weights. Nothing is cached.
    pub fn locate(&self, rel: usize) -> (path: Vec<Side>)
        requires
            self.wf(),
            rel <= self.node.total_length,
        ensures
            path@ == self.owner_path(rel as int),
    {
        let mut path: Vec<Side> = Vec::new();
        let mut tree: &Interval = self;
        let mut rel: usize = rel;
        let ghost whole = self.owner_path(rel as int);
        loop
            invariant
                tree.wf(),
                rel <= tree.node.total_length,
                path@ + tree.owner_path(rel as int) == whole,
            ensures
                path@ == whole,
            decreases tree.size(),
        {
            let ghost rest = tree.owner_path(rel as int);
            proof {
                tree.lemma_unfold();
            }
            if rel < tree.left_total_length() {
                match &tree.left {
                    Some(left) => {
                        assert(path@.push(Side::Left) + left.owner_path(rel as int) =~= path@
                            + rest);
                        path.push(Side::Left);
                        tree = &**left;
                    },
                    None => {},
                }
            } else if tree.has_right() && rel >= tree.node.total_length
                - tree.right_total_length() {
                let skip = tree.node.total_length - tree.right_total_length();
                match &tree.right {
                    Some(right) => {
                        assert(path@.push(Side::Right) + right.owner_path(rel - skip) =~= path@
                            + rest);
                        path.push(Side::Right);
                        rel = rel - skip;
                        tree = &**right;
                    },
                    None => {},
                }
            } else {
                assert(path@ + rest =~= path@);
                break ;
            }
        }
        path
    }
}

} // verus!
