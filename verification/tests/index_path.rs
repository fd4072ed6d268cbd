use jwalk::index_path::IndexPath;

#[test]
fn index_path_push_pop_and_increment() {
    let mut path = IndexPath::new(vec![0]);
    path.push(3);
    assert_eq!(path.len(), 2);
    path.increment_last();
    assert_eq!(path.pop(), Some(4));
    assert_eq!(path.pop(), Some(0));
    assert_eq!(path.pop(), None);
    assert!(path.is_empty());
}

#[test]
fn index_path_adding_leaves_the_parent_unchanged() {
    let parent = IndexPath::new(vec![0, 2]);
    let child = parent.adding(5);
    assert_eq!(parent.len(), 2);
    assert_eq!(child.len(), 3);
    assert!(parent.precedes(&child));
    assert!(!child.precedes(&parent));
    assert!(child == IndexPath::new(vec![0, 2, 5]));
}

#[test]
fn index_paths_are_ordered_lexicographically() {
    let a = IndexPath::new(vec![0, 1, 9]);
    let b = IndexPath::new(vec![0, 2]);
    assert!(a.precedes(&b));
    assert!(!b.precedes(&a));
    assert!(!a.precedes(&a));
    assert!(IndexPath::new(vec![]).precedes(&a));
}
