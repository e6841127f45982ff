use interval_tree::{Container, ContainerKind, Interval, IntervalError, Side};

/// The own lengths of the nodes of a tree, left to right.
fn lengths(tree: &Interval, out: &mut Vec<usize>) {
    if let Some(l) = tree.left() {
        lengths(l, out);
    }
    out.push(tree.length());
    if let Some(r) = tree.right() {
        lengths(r, out);
    }
}

/// A tree over a text of 20 positions, divided into spans of 3, 4, 6, 2 and 5.
fn five_spans(kind: ContainerKind) -> Interval {
    let mut root = Interval::create_root(Container::new(kind, 20));
    // 20 -> 3 | 17
    root.split_left(3);
    // the node that owns relative offset 3 holds the 17
    let path = root.locate(3);
    root.descendant_mut(&path).unwrap().split_left(4);
    let path = root.locate(7);
    root.descendant_mut(&path).unwrap().split_left(6);
    let path = root.locate(13);
    root.descendant_mut(&path).unwrap().split_left(2);
    root.balance();
    root
}

#[test]
fn built_tree_is_well_formed() {
    let root = five_spans(ContainerKind::Text);
    assert!(root.validate().is_ok());
    let mut got = Vec::new();
    lengths(&root, &mut got);
    assert_eq!(got, vec![3, 4, 6, 2, 5]);
    assert_eq!(root.node.total_length, 20);
}

#[test]
fn weights_add_up_after_edits() {
    let mut root = five_spans(ContainerKind::Text);
    root.rotate_left();
    let mut got = Vec::new();
    lengths(&root, &mut got);
    assert_eq!(got.iter().sum::<usize>(), root.node.total_length);
    root.balance();
    let path = root.locate(10);
    root.descendant_mut(&path).unwrap().split_right(1);
    assert!(root.validate().is_ok());
    let mut got = Vec::new();
    lengths(&root, &mut got);
    assert_eq!(got, vec![3, 4, 1, 5, 2, 5]);
    assert_eq!(got.iter().sum::<usize>(), root.node.total_length);
}

#[test]
fn find_covers_every_position() {
    let starts = [0usize, 3, 7, 13, 15];
    let lens = [3usize, 4, 6, 2, 5];
    for p in 0..=20usize {
        let mut root = five_spans(ContainerKind::Text);
        let path = root.find(p).unwrap();
        let node = root.descendant(&path).unwrap();
        let k = if p == 20 { 4 } else { (0..5).find(|&i| starts[i] <= p && p < starts[i] + lens[i]).unwrap() };
        assert_eq!(node.node.position, starts[k]);
        assert_eq!(node.length(), lens[k]);
        if p < 20 {
            assert!(node.node.position <= p && p < node.node.position + node.length());
        } else {
            assert_eq!(p, node.node.position + node.length());
        }
    }
}

#[test]
fn find_counts_from_the_start_of_a_buffer() {
    let mut root = five_spans(ContainerKind::Buffer);
    let path = root.find(1).unwrap();
    let node = root.descendant(&path).unwrap();
    assert_eq!(node.node.position, 1);
    assert_eq!(node.length(), 3);
    let path = root.find(4).unwrap();
    let node = root.descendant(&path).unwrap();
    assert_eq!(node.node.position, 4);
    assert_eq!(node.length(), 4);
    let path = root.find(21).unwrap();
    let node = root.descendant(&path).unwrap();
    assert_eq!(node.node.position, 16);
    assert_eq!(node.length(), 5);
}

#[test]
fn find_refuses_positions_outside() {
    let mut root = five_spans(ContainerKind::Text);
    assert_eq!(root.find(21), Err(IntervalError::PositionOutOfRange));
    let mut root = five_spans(ContainerKind::Buffer);
    assert_eq!(root.find(0), Err(IntervalError::PositionOutOfRange));
    assert_eq!(root.find(22), Err(IntervalError::PositionOutOfRange));
    assert!(root.find(21).is_ok());
}

#[test]
fn next_walks_the_spans_in_order() {
    let mut root = five_spans(ContainerKind::Text);
    let mut path = root.find(0).unwrap();
    let mut seen = Vec::new();
    loop {
        let (position, length) = {
            let node = root.descendant(&path).unwrap();
            (node.node.position, node.length())
        };
        seen.push((position, length));
        match root.next(&path) {
            Some(q) => {
                // The successor starts where this node ends.
                assert_eq!(root.descendant(&q).unwrap().node.position, position + length);
                path = q;
            }
            None => break,
        }
    }
    assert_eq!(seen, vec![(0, 3), (3, 4), (7, 6), (13, 2), (15, 5)]);
}

#[test]
fn next_of_find_starts_where_the_found_node_ends() {
    for p in 0..15usize {
        let mut root = five_spans(ContainerKind::Text);
        let path = root.find(p).unwrap();
        let (position, length) = {
            let node = root.descendant(&path).unwrap();
            (node.node.position, node.length())
        };
        let q = root.next(&path).unwrap();
        assert_eq!(root.descendant(&q).unwrap().node.position, position + length);
    }
}

#[test]
fn prev_walks_the_spans_backwards() {
    let mut root = five_spans(ContainerKind::Text);
    let mut path = root.find(20).unwrap();
    let mut seen = Vec::new();
    loop {
        let (position, length) = {
            let node = root.descendant(&path).unwrap();
            (node.node.position, node.length())
        };
        seen.push((position, length));
        match root.prev(&path) {
            Some(q) => path = q,
            None => break,
        }
    }
    assert_eq!(seen, vec![(15, 5), (13, 2), (7, 6), (3, 4), (0, 3)]);
}

#[test]
fn next_and_prev_end_at_the_ends() {
    let mut root = five_spans(ContainerKind::Text);
    let last = root.find(19).unwrap();
    assert_eq!(root.next(&last), None);
    let first = root.find(0).unwrap();
    assert_eq!(root.prev(&first), None);
}

/// Caches the true position in every node on the way to the owner of `p`.
fn fresh_path(root: &mut Interval, p: usize) -> Vec<Side> {
    let start = root.start_pos();
    root.node.position = start + root.left_total_length();
    root.update(&Vec::new(), p).unwrap()
}

#[test]
fn update_moves_to_a_nearby_owner() {
    let starts = [0usize, 3, 7, 13, 15];
    let lens = [3usize, 4, 6, 2, 5];
    for from in 0..20usize {
        for to in 0..20usize {
            let mut root = five_spans(ContainerKind::Text);
            let path = fresh_path(&mut root, from);
            let q = root.update(&path, to).unwrap();
            assert_eq!(q, root.locate(to));
            let node = root.descendant(&q).unwrap();
            let k = (0..5).find(|&i| starts[i] <= to && to < starts[i] + lens[i]).unwrap();
            assert_eq!(node.node.position, starts[k]);
            assert_eq!(node.length(), lens[k]);
        }
    }
}

#[test]
fn update_refuses_positions_outside() {
    let mut root = five_spans(ContainerKind::Buffer);
    let path = fresh_path(&mut root, 5);
    assert_eq!(root.update(&path, 0), Err(IntervalError::PositionOutOfRange));
    // Unlike find, update does not take the position just behind the sequence.
    assert_eq!(root.update(&path, 21), Err(IntervalError::PositionOutOfRange));
    assert!(root.update(&path, 20).is_ok());
    assert!(root.update(&path, 1).is_ok());
}

#[test]
fn locate_matches_find() {
    for p in 0..=20usize {
        let mut root = five_spans(ContainerKind::Text);
        let located = root.locate(p);
        assert_eq!(root.find(p).unwrap(), located);
    }
}

#[test]
fn descendant_and_parent_follow_paths() {
    let root = five_spans(ContainerKind::Text);
    assert!(root.descendant(&Vec::new()).is_some());
    assert!(root.parent(&Vec::new()).is_none());
    let path = root.locate(0);
    assert!(!path.is_empty());
    let node = root.descendant(&path).unwrap();
    let parent = root.parent(&path).unwrap();
    match path[path.len() - 1] {
        Side::Left => {
            assert!(node.is_left_child());
            assert_eq!(parent.left().unwrap().length(), node.length());
        }
        Side::Right => {
            assert!(node.is_right_child());
            assert_eq!(parent.right().unwrap().length(), node.length());
        }
    }
    // A path that leaves the tree leads nowhere.
    let mut off = root.locate(0);
    off.push(Side::Left);
    off.push(Side::Left);
    assert!(root.descendant(&off).is_none());
}

#[test]
fn descendant_mut_changes_the_node_in_place() {
    let mut root = five_spans(ContainerKind::Text);
    let path = root.locate(8);
    root.descendant_mut(&path).unwrap().node.visible = true;
    assert!(root.descendant(&path).unwrap().node.visible);
    let path = root.locate(0);
    assert!(!root.descendant(&path).unwrap().node.visible);
    let path = root.locate(1);
    if !path.is_empty() {
        root.parent_mut(&path).unwrap().node.write_protect = true;
        assert!(root.parent(&path).unwrap().node.write_protect);
    }
}
