use interval_tree::{
    Container, ContainerKind, Interval, IntervalError, Node, Parent, Property, PropertyList, Side,
};

fn text(length: usize) -> Container {
    Container::new(ContainerKind::Text, length)
}

/// A node of the given weight under the given children.
fn node(total: usize, left: Option<Interval>, right: Option<Interval>) -> Interval {
    let mut n = Interval::new(Parent::Object(text(total)));
    n.node.total_length = total;
    if let Some(l) = left {
        n.set_left(l);
    }
    if let Some(r) = right {
        n.set_right(r);
    }
    n
}

/// The own lengths of the nodes of a tree, left to right.
fn lengths(tree: &Interval) -> Vec<usize> {
    let mut out = Vec::new();
    if let Some(l) = tree.left() {
        out.extend(lengths(l));
    }
    out.push(tree.length());
    if let Some(r) = tree.right() {
        out.extend(lengths(r));
    }
    out
}

fn show(tree: &Interval) -> String {
    format!("{:?}", tree)
}

#[test]
fn new_node_is_empty() {
    let n = Interval::new(Parent::Interval(Side::Left));
    assert!(!n.has_left());
    assert!(!n.has_right());
    assert!(!n.has_child());
    assert!(!n.has_children());
    assert!(n.has_parent());
    assert!(!n.has_object());
    assert!(n.is_left_child());
    assert_eq!(n.object(), None);
    assert_eq!(n.node.total_length, 0);
    assert_eq!(n.node.position, 0);
    assert!(n.is_default());
    assert_eq!(n.start_pos(), 0);
}

#[test]
fn create_root_spans_the_container() {
    let c = Container::new(ContainerKind::Buffer, 12);
    let root = Interval::create_root(c);
    assert_eq!(root.node.total_length, 12);
    assert_eq!(root.length(), 12);
    assert_eq!(root.node.position, 1);
    assert!(root.has_object());
    assert!(!root.has_parent());
    assert_eq!(root.object(), Some(c));
    assert_eq!(root.start_pos(), 1);
    assert!(root.is_default());
    assert!(root.validate().is_ok());
}

#[test]
fn container_begin_offsets() {
    assert_eq!(Container::new(ContainerKind::Buffer, 3).begin_offset(), 1);
    assert_eq!(Container::new(ContainerKind::Text, 3).begin_offset(), 0);
    assert_eq!(Container::new(ContainerKind::Other, 3).begin_offset(), 0);
    assert_eq!(Container::new(ContainerKind::Text, 3).length(), 3);
    assert!(Container::new(ContainerKind::Buffer, 3).is_buffer());
    assert!(!Container::new(ContainerKind::Text, 3).is_buffer());
}

#[test]
fn children_and_weights() {
    let mut n = node(10, Some(node(3, None, None)), Some(node(5, None, None)));
    assert!(n.has_child());
    assert!(n.has_children());
    assert_eq!(n.left_total_length(), 3);
    assert_eq!(n.right_total_length(), 5);
    assert_eq!(n.length(), 2);
    n.node.position = 4;
    assert_eq!(n.last_pos(), 6);
    assert!(n.left().unwrap().is_left_child());
    assert!(n.right().unwrap().is_right_child());
    n.left_mut().unwrap().node.visible = true;
    assert!(n.left().unwrap().node.visible);
    n.right_mut().unwrap().node.total_length = 6;
    assert_eq!(n.length(), 1);
    let taken = n.take_left().unwrap();
    assert!(taken.is_left_child());
    assert!(!n.has_left());
    assert!(n.has_child());
    assert!(!n.has_children());
    assert!(n.take_left().is_none());
}

#[test]
fn set_parent_and_object() {
    let mut n = node(4, None, None);
    n.set_parent(Side::Right);
    assert!(n.is_right_child());
    assert!(n.has_parent());
    n.set_object(text(4));
    assert!(n.has_object());
    assert_eq!(n.object(), Some(text(4)));
    let mut top = node(9, None, None);
    let mut l = node(2, None, None);
    l.set_parent(Side::Right);
    top.left = Some(Box::new(l));
    assert_eq!(top.validate(), Err(IntervalError::ViolatedInvariant));
    top.update_parents();
    assert!(top.validate().is_ok());
}

#[test]
fn validate_refuses_broken_weights() {
    // A child that weighs as much as its parent leaves the parent no range.
    let t = node(5, Some(node(5, None, None)), None);
    assert_eq!(t.validate(), Err(IntervalError::ViolatedInvariant));
    let t = node(0, None, None);
    assert_eq!(t.validate(), Err(IntervalError::ViolatedInvariant));
    let t = node(9, Some(node(4, None, None)), Some(node(5, None, None)));
    assert_eq!(t.validate(), Err(IntervalError::ViolatedInvariant));
    let t = node(10, Some(node(4, None, None)), Some(node(5, Some(node(5, None, None)), None)));
    assert_eq!(t.validate(), Err(IntervalError::ViolatedInvariant));
    let t = node(10, Some(node(4, None, None)), Some(node(5, None, None)));
    assert_eq!(t.validate(), Ok(()));
}

#[test]
fn rotate_right_keeps_the_weight() {
    let mut root = node(10, Some(node(5, None, None)), None);
    assert_eq!(root.length(), 5);
    root.rotate_right();
    assert!(root.has_right());
    assert!(root.right().unwrap().is_right_child());
    assert_eq!(root.node.total_length, 10);
    assert_eq!(root.right().unwrap().node.total_length, 5);
    assert_eq!(lengths(&root), vec![5, 5]);
}

#[test]
fn rotations_move_the_subtrees() {
    //        A(20)
    //       /     \
    //    d(3)     B(12)
    //            /     \
    //         c(4)     e(6)
    let b = node(12, Some(node(4, None, None)), Some(node(6, None, None)));
    let mut a = node(20, Some(node(3, None, None)), Some(b));
    a.node.visible = true;
    assert_eq!(lengths(&a), vec![3, 5, 4, 2, 6]);
    a.rotate_left();
    assert!(a.validate().is_ok());
    assert_eq!(a.node.total_length, 20);
    // B is on top now and A, with its flag, below it on the left.
    assert!(!a.node.visible);
    let inner = a.left().unwrap();
    assert!(inner.node.visible);
    assert!(inner.is_left_child());
    assert_eq!(inner.node.total_length, 12);
    assert_eq!(inner.left().unwrap().node.total_length, 3);
    assert_eq!(inner.right().unwrap().node.total_length, 4);
    assert!(inner.right().unwrap().is_right_child());
    assert_eq!(a.right().unwrap().node.total_length, 6);
    assert_eq!(lengths(&a), vec![3, 5, 4, 2, 6]);
}

#[test]
fn rotate_left_undoes_rotate_right() {
    let b = node(12, Some(node(4, None, None)), Some(node(6, None, None)));
    let mut a = node(20, Some(b), Some(node(3, None, None)));
    let before = show(&a);
    a.rotate_right();
    assert_ne!(show(&a), before);
    a.rotate_left();
    assert_eq!(show(&a), before);
    a.rotate_right();
    let turned = show(&a);
    a.rotate_left();
    a.rotate_right();
    assert_eq!(show(&a), turned);
}

#[test]
fn owned_rotations_match_the_ones_in_place() {
    let make = || {
        let b = node(12, Some(node(4, None, None)), Some(node(6, None, None)));
        node(20, Some(b), Some(node(3, None, None)))
    };
    let mut in_place = make();
    in_place.rotate_right();
    let owned = make().rotate_right_owned();
    assert_eq!(show(&owned), show(&in_place));
    assert!(owned.has_object());
    in_place.rotate_left();
    let owned = owned.rotate_left_owned();
    assert_eq!(show(&owned), show(&in_place));
    assert_eq!(show(&owned), show(&make()));
}

#[test]
fn balance_self_rotates_towards_the_lighter_side() {
    // Left weighs 9, right nothing; after a rotation the gap is 1.
    let mut root = node(10, Some(node(9, None, None)), None);
    assert!(!root.is_locally_balanced());
    root.balance_self();
    assert!(root.is_locally_balanced());
    assert_eq!(root.node.total_length, 10);
    assert_eq!(lengths(&root), vec![9, 1]);
    assert!(!root.has_left());
    assert_eq!(root.right().unwrap().node.total_length, 1);
}

#[test]
fn balance_self_leaves_a_balanced_node() {
    // Left weighs 3, right nothing; a rotation would make the gap 7.
    let mut root = node(10, Some(node(3, None, None)), None);
    assert!(root.is_locally_balanced());
    let before = show(&root);
    root.balance_self();
    assert_eq!(show(&root), before);
}

/// A chain of `n` nodes of length 2 each, every one the right child of the
/// one before.
fn chain(n: usize) -> Interval {
    let mut t = node(2, None, None);
    for i in 1..n {
        t = node(2 * (i + 1), None, Some(t));
    }
    t
}

#[test]
fn balance_reaches_a_fixpoint() {
    let mut t = chain(9);
    assert!(t.validate().is_ok());
    assert!(!t.is_balanced());
    let spans = lengths(&t);
    t.balance();
    assert!(t.validate().is_ok());
    assert!(t.is_balanced());
    assert_eq!(lengths(&t), spans);
    assert_eq!(t.node.total_length, 18);
    let once = show(&t);
    t.balance();
    assert_eq!(show(&t), once);
}

#[test]
fn balance_possible_root_only_balances_roots() {
    let mut inner = node(10, Some(node(9, None, None)), None);
    inner.set_parent(Side::Left);
    let before = show(&inner);
    inner.balance_possible_root();
    assert_eq!(show(&inner), before);
    let mut root = node(10, Some(node(9, None, None)), None);
    root.balance_possible_root();
    assert!(root.is_locally_balanced());
    assert!(root.has_object());
    assert_eq!(lengths(&root), vec![9, 1]);
}

#[test]
fn delete_without_children_changes_nothing() {
    let mut t = node(4, None, None);
    let before = show(&t);
    t.delete();
    assert_eq!(show(&t), before);
}

#[test]
fn delete_with_one_child_puts_the_child_in_place() {
    let mut t = node(10, Some(node(6, Some(node(2, None, None)), None)), None);
    t.node.visible = true;
    t.delete();
    assert!(t.has_object());
    assert!(!t.node.visible);
    assert_eq!(t.node.total_length, 6);
    assert_eq!(lengths(&t), vec![2, 4]);
    assert!(t.validate().is_ok());
    let mut t = node(10, None, Some(node(6, None, None)));
    t.delete();
    assert_eq!(t.node.total_length, 6);
    assert_eq!(lengths(&t), vec![6]);
}

#[test]
fn delete_with_two_children_merges_them() {
    let right = node(9, Some(node(4, Some(node(1, None, None)), None)), None);
    let left = node(5, None, Some(node(2, None, None)));
    let mut t = node(20, Some(left), Some(right));
    assert_eq!(lengths(&t), vec![3, 2, 6, 1, 3, 5]);
    t.delete();
    assert!(t.validate().is_ok());
    assert_eq!(t.node.total_length, 14);
    assert_eq!(lengths(&t), vec![3, 2, 1, 3, 5]);
    // The right subtree is on top, every node down its left side 5 heavier.
    assert_eq!(t.left().unwrap().node.total_length, 9);
    assert_eq!(t.left().unwrap().left().unwrap().node.total_length, 6);
    assert_eq!(t.left().unwrap().left().unwrap().left().unwrap().node.total_length, 5);
}

#[test]
fn split_left_divides_the_own_range() {
    let mut root = Interval::create_root(text(10));
    root.node.visible = true;
    let path = root.split_left(3);
    assert!(root.validate().is_ok());
    assert_eq!(root.node.total_length, 10);
    assert_eq!(lengths(&root), vec![3, 7]);
    let piece = root.descendant(&path).unwrap();
    assert_eq!(piece.length(), 3);
    assert_eq!(piece.node.position, 0);
    assert!(piece.is_default());
    assert!(!piece.node.visible);
    assert_eq!(path, vec![Side::Left]);
    assert!(root.node.visible);
    assert_eq!(root.node.position, 3);
}

#[test]
fn split_right_divides_the_own_range() {
    let mut root = Interval::create_root(text(10));
    root.node.visible = true;
    let path = root.split_right(3);
    assert!(root.validate().is_ok());
    assert_eq!(root.node.total_length, 10);
    assert_eq!(lengths(&root), vec![3, 7]);
    let piece = root.descendant(&path).unwrap();
    assert_eq!(piece.length(), 7);
    assert_eq!(piece.node.position, 3);
    assert!(piece.is_default());
    assert!(!piece.node.visible);
    // The root was rotated: the new piece outweighs the rest.
    assert!(root.is_locally_balanced());
}

#[test]
fn split_rotated_root_still_finds_the_piece() {
    let mut root = Interval::create_root(text(10));
    root.node.front_sticky = true;
    // The new piece takes 9 of 10 positions, so the root is rotated.
    let path = root.split_left(9);
    assert!(root.validate().is_ok());
    assert!(root.is_locally_balanced());
    assert_eq!(lengths(&root), vec![9, 1]);
    let piece = root.descendant(&path).unwrap();
    assert_eq!(piece.length(), 9);
    assert!(!piece.node.front_sticky);
    assert_eq!(path, Vec::<Side>::new());
    assert!(root.right().unwrap().node.front_sticky);
}

#[test]
fn split_over_a_child_keeps_the_order() {
    let mut t = node(20, Some(node(6, None, None)), Some(node(4, None, None)));
    t.set_parent(Side::Left);
    t.node.position = 6;
    let path = t.split_left(3);
    assert!(t.validate().is_ok());
    assert_eq!(lengths(&t), vec![6, 3, 7, 4]);
    assert_eq!(t.descendant(&path).unwrap().length(), 3);
    assert_eq!(t.descendant(&path).unwrap().node.position, 6);
    assert_eq!(t.node.position, 9);
    let path = t.split_right(5);
    assert!(t.validate().is_ok());
    assert_eq!(lengths(&t), vec![6, 3, 5, 2, 4]);
    assert_eq!(t.descendant(&path).unwrap().length(), 2);
    assert_eq!(t.descendant(&path).unwrap().node.position, 14);
}

#[test]
fn split_left_then_delete_restores_the_node() {
    // The new piece outweighs the left child, so the new node over it needs
    // no rotation.
    let left = node(2, None, None);
    let mut t = node(20, Some(left), Some(node(4, None, None)));
    t.set_parent(Side::Right);
    t.node.rear_sticky = true;
    t.node.plist = PropertyList { entries: vec![Property { key: 7, value: 9 }] };
    t.node.position = 6;
    let before = show(&t);
    let path = t.split_left(3);
    assert_eq!(path, vec![Side::Left]);
    assert_eq!(lengths(&t), vec![2, 3, 11, 4]);
    t.descendant_mut(&path).unwrap().delete();
    assert_eq!(t.node.total_length, 20);
    assert_eq!(lengths(&t), vec![2, 14, 4]);
    assert!(t.node.rear_sticky);
    assert_eq!(t.node.plist.entries, vec![Property { key: 7, value: 9 }]);
    // Only the cached position still tells of the split.
    assert_eq!(t.node.position, 9);
    t.node.position = 6;
    assert_eq!(show(&t), before);
}

#[test]
fn split_right_then_delete_restores_the_node() {
    let right = node(2, None, None);
    let mut t = node(20, Some(node(4, None, None)), Some(right));
    t.set_parent(Side::Right);
    t.node.position = 4;
    let before = show(&t);
    let path = t.split_right(3);
    assert_eq!(path, vec![Side::Right]);
    assert_eq!(lengths(&t), vec![4, 3, 11, 2]);
    t.descendant_mut(&path).unwrap().delete();
    assert_eq!(show(&t), before);
}

#[test]
fn split_left_then_delete_keeps_the_weight_after_a_rotation() {
    // The new node is rotated under the left child and ends up without
    // children, so that a removal leaves it where it is. The weight of the
    // node that was split stays all the same.
    let left = node(6, Some(node(5, None, None)), None);
    let mut t = node(20, Some(left), Some(node(4, None, None)));
    t.set_parent(Side::Right);
    let path = t.split_left(3);
    assert_eq!(path, vec![Side::Left, Side::Right]);
    assert_eq!(lengths(&t), vec![5, 1, 3, 7, 4]);
    t.descendant_mut(&path).unwrap().delete();
    assert_eq!(t.node.total_length, 20);
    assert_eq!(lengths(&t), vec![5, 1, 3, 7, 4]);
}

#[test]
fn merge_left_extends_the_node_before() {
    let left = node(6, Some(node(2, None, None)), Some(node(3, None, None)));
    let mut t = node(20, Some(left), Some(node(4, None, None)));
    t.node.visible = true;
    assert_eq!(lengths(&t), vec![2, 1, 3, 10, 4]);
    t.merge_left();
    assert!(t.validate().is_ok());
    assert_eq!(t.node.total_length, 20);
    assert_eq!(lengths(&t), vec![2, 1, 13, 4]);
    assert!(!t.node.visible);
}

#[test]
fn merge_left_without_a_left_subtree_changes_nothing() {
    let mut t = node(20, None, Some(node(4, None, None)));
    let before = show(&t);
    t.merge_left();
    assert_eq!(show(&t), before);
}

#[test]
fn copy_properties_copies_flags_and_list() {
    let mut source = node(3, None, None);
    source.node.write_protect = true;
    source.node.rear_sticky = true;
    source.node.plist = PropertyList { entries: vec![Property { key: 1, value: 2 }] };
    let mut target = node(8, Some(node(2, None, None)), None);
    target.node.position = 5;
    target.node.visible = true;
    target.copy_properties(&source);
    assert!(target.node.write_protect);
    assert!(!target.node.visible);
    assert!(!target.node.front_sticky);
    assert!(target.node.rear_sticky);
    assert_eq!(target.node.plist.entries, vec![Property { key: 1, value: 2 }]);
    assert!(!target.is_default());
    assert_eq!(target.node.total_length, 8);
    assert_eq!(target.node.position, 5);
    assert!(target.has_left());
}

#[test]
fn copy_properties_between_defaults_does_nothing() {
    let mut source = node(3, None, None);
    source.node.write_protect = true;
    let mut target = node(8, None, None);
    target.node.visible = true;
    target.copy_properties(&source);
    assert!(!target.node.write_protect);
    assert!(target.node.visible);
    // Copying from a default node clears a list that was set.
    target.node.plist = PropertyList { entries: vec![Property { key: 1, value: 2 }] };
    target.copy_properties(&source);
    assert!(target.is_default());
    assert!(target.node.write_protect);
    assert!(!target.node.visible);
}

#[test]
fn reset_clears_the_node() {
    let mut t = node(20, Some(node(6, None, None)), Some(node(4, None, None)));
    t.node.position = 8;
    t.node.visible = true;
    t.node.plist = PropertyList { entries: vec![Property { key: 1, value: 2 }] };
    t.reset();
    assert!(!t.has_child());
    assert_eq!(t.node.total_length, 0);
    assert_eq!(t.node.position, 0);
    assert!(t.is_default());
    assert!(t.node.visible);
    assert!(t.has_object());
}

#[test]
fn deep_copy_shares_nothing() {
    let source = PropertyList { entries: vec![Property { key: 1, value: 2 }, Property { key: 3, value: 4 }] };
    let mut copy = source.deep_copy();
    assert_eq!(copy.entries, source.entries);
    copy.entries.push(Property { key: 5, value: 6 });
    assert_eq!(source.entries.len(), 2);
    assert!(PropertyList::new().is_empty());
    assert!(!source.is_empty());
}

#[test]
fn node_new_is_default() {
    let n = Node::new();
    assert_eq!(n.total_length, 0);
    assert_eq!(n.position, 0);
    assert!(!n.write_protect && !n.visible && !n.front_sticky && !n.rear_sticky);
    assert!(n.plist.is_empty());
}

#[test]
fn iter_walks_each_node_before_its_children() {
    let b = node(12, Some(node(4, None, None)), Some(node(6, None, None)));
    let a = node(20, Some(node(3, None, None)), Some(b));
    let mut it = a.iter();
    let mut seen = Vec::new();
    while let Some(n) = it.next() {
        seen.push(n.node.total_length);
    }
    assert_eq!(seen, vec![20, 3, 12, 4, 6]);
    assert!(it.next().is_none());
}

#[test]
fn iter_mut_hands_out_every_payload() {
    let b = node(12, Some(node(4, None, None)), Some(node(6, None, None)));
    let mut a = node(20, Some(node(3, None, None)), Some(b));
    let mut seen = Vec::new();
    {
        let mut it = a.iter_mut();
        while let Some(n) = it.next() {
            seen.push(n.total_length);
            n.visible = true;
        }
    }
    assert_eq!(seen, vec![20, 3, 12, 4, 6]);
    let mut it = a.iter();
    while let Some(n) = it.next() {
        assert!(n.node.visible);
    }
}

#[test]
fn into_iter_hands_out_every_payload() {
    let b = node(12, Some(node(4, None, None)), Some(node(6, None, None)));
    let a = node(20, Some(node(3, None, None)), Some(b));
    let mut it = a.into_iter();
    let mut seen = Vec::new();
    while let Some(n) = it.next() {
        seen.push(n.total_length);
    }
    assert_eq!(seen, vec![20, 3, 12, 4, 6]);
}
