use interval_tree::{Container, ContainerKind, Interval, Parent};

fn test_interval() -> Interval {
    Interval::new(Parent::Object(Container::new(ContainerKind::Other, 0)))
}

#[test]
fn is_default() {
    let interval = test_interval();
    assert!(interval.is_default());
}

#[test]
fn is_child() {
    // Test with right child
    let mut parent = test_interval();
    let child = test_interval();
    parent.set_right(child);
    assert!(parent.right().unwrap().is_right_child());
    assert!(!parent.right().unwrap().is_left_child());

    // Test with right child reassigned as left
    let child = parent.take_right().unwrap();
    parent.set_left(child);
    assert!(!parent.left().unwrap().is_right_child());
    assert!(parent.left().unwrap().is_left_child());
}

#[test]
fn length() {
    // Test with no children
    let mut interval = test_interval();
    interval.node.total_length = 10;
    assert_eq!(interval.length(), 10);

    // Test with one child
    let mut child = test_interval();
    child.node.total_length = 3;
    interval.set_left(child);
    assert_eq!(interval.length(), 7);

    // Test with two children
    let mut child = test_interval();
    child.node.total_length = 5;
    interval.set_right(child);
    assert_eq!(interval.length(), 2)
}

#[test]
fn rotate_owned() {
    let mut interval = test_interval();
    interval.node.total_length = 10;
    let mut child = test_interval();
    child.node.total_length = 5;
    interval.set_left(child);

    // Test rotating right.
    let interval = interval.rotate_right_owned();
    assert!(interval.has_right());
    assert!(interval.right().unwrap().is_right_child());

    // Test rotating left.
    let interval = interval.rotate_left_owned();
    assert!(interval.has_left());
    assert!(interval.left().unwrap().is_left_child());
}

#[test]
fn rotate_borrowed() {
    let mut interval = test_interval();
    interval.node.total_length = 10;
    let mut child = test_interval();
    child.node.total_length = 5;
    interval.set_left(child);

    // Test rotating right
    interval.rotate_right();
    assert!(interval.has_right());
    assert!(interval.right().unwrap().is_right_child());

    // Test rotating left
    interval.rotate_left();
    assert!(interval.has_left());
    assert!(interval.left().unwrap().is_left_child());
}
