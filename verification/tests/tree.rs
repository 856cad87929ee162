use interval_tree::{Color, IntervalTree, Node, TextRange};

fn merge<T: Clone>(a: T, _b: T) -> T {
    a
}

fn build_tree<T: Clone>(val: T) -> IntervalTree<T> {
    let mut tree = IntervalTree::new();
    tree.insert(TextRange::new(0, 1), val.clone(), merge);
    tree.insert(TextRange::new(1, 2), val.clone(), merge);
    tree.insert(TextRange::new(2, 3), val.clone(), merge);
    tree.insert(TextRange::new(3, 4), val.clone(), merge);
    tree.insert(TextRange::new(4, 5), val.clone(), merge);
    tree.insert(TextRange::new(5, 6), val.clone(), merge);
    tree.insert(TextRange::new(6, 7), val.clone(), merge);
    tree.insert(TextRange::new(7, 8), val.clone(), merge);
    tree.insert(TextRange::new(8, 9), val.clone(), merge);
    tree.insert(TextRange::new(9, 10), val.clone(), merge);
    tree
}

#[test]
fn rotate_left() {
    let val = 1;
    let mut node1 = Node::new_boxed(TextRange::new(0, 3), val);
    node1.color = Color::Black;
    let mut node2 = Node::new_boxed(TextRange::new(3, 6), val);
    let mut node3 = Node::new_boxed(TextRange::new(6, 9), val);
    node3.color = Color::Black;
    let mut node4 = Node::new_boxed(TextRange::new(9, 12), val);
    node4.color = Color::Black;
    let mut node5 = Node::new_boxed(TextRange::new(12, 15), val);
    node5.color = Color::Black;

    node2.left = Some(node3);
    node2.right = Some(node4);
    node2.color = Color::Red;
    node1.right = Some(node2);
    node1.left = Some(node5);
    Node::rotate_left(&mut node1);
    assert_eq!(node1.key.start, 3);
    let n2 = node1.left.unwrap();
    assert_eq!(n2.key.start, 0);
    let n3 = n2.right.unwrap();
    assert_eq!(n3.key.start, 6);
    let n4 = node1.right.unwrap();
    assert_eq!(n4.key.start, 9);
    let n5 = n2.left.unwrap();
    assert_eq!(n5.key.start, 12);

    assert_eq!(node1.color, Color::Black);
    assert_eq!(n2.color, Color::Red);
    assert_eq!(n2.n, 3);
}

#[test]
fn insert() {
    let val = 1;
    let tree = build_tree(val);
    let root = tree.root.as_ref().unwrap();
    assert_eq!(root.key.start, 3);
    let n1 = root.left.as_ref().unwrap();
    assert_eq!(n1.key.start, 1);
    let n2 = root.right.as_ref().unwrap();
    assert_eq!(n2.key.start, 7);
    let n3 = n2.right.as_ref().unwrap();
    assert_eq!(n3.key.start, 9);
    let n4 = n3.left.as_ref().unwrap();
    assert_eq!(n4.key.start, 8);
    assert!(n3.right.is_none());
}

#[test]
fn test_find_intersects() {
    let mut tree = IntervalTree::new();
    tree.insert(TextRange::new(0, 5), 1, merge);
    tree.insert(TextRange::new(5, 10), 2, merge);
    tree.insert(TextRange::new(10, 15), 3, merge);
    tree.insert(TextRange::new(15, 20), 4, merge);

    // Test exact match
    let results = tree.find_intersects(TextRange::new(5, 10));
    assert_eq!(results.len(), 1);
    assert_eq!(results[0].key, TextRange::new(5, 10));
    assert_eq!(results[0].val, 2);

    // Test partial overlap at start
    let results = tree.find_intersects(TextRange::new(3, 7));
    assert_eq!(results.len(), 2);
    assert_eq!(results[0].key, TextRange::new(0, 5));
    assert_eq!(results[1].key, TextRange::new(5, 10));

    // Test partial overlap at end
    let results = tree.find_intersects(TextRange::new(12, 18));
    assert_eq!(results.len(), 2);
    assert_eq!(results[0].key, TextRange::new(10, 15));
    assert_eq!(results[1].key, TextRange::new(15, 20));

    // Test range that spans multiple intervals
    let results = tree.find_intersects(TextRange::new(8, 17));
    assert_eq!(results.len(), 3);
    assert_eq!(results[0].key, TextRange::new(5, 10));
    assert_eq!(results[1].key, TextRange::new(10, 15));
    assert_eq!(results[2].key, TextRange::new(15, 20));

    // Test range that is completely contained within an interval
    let results = tree.find_intersects(TextRange::new(6, 8));
    assert_eq!(results.len(), 1);
    assert_eq!(results[0].key, TextRange::new(5, 10));

    // Test range that doesn't intersect any intervals
    let results = tree.find_intersects(TextRange::new(25, 30));
    assert!(results.is_empty());

    // Test empty range
    let results = tree.find_intersects(TextRange::new(3, 3));
    assert!(results.is_empty());

    // Test range that starts before first interval and ends after last
    let results = tree.find_intersects(TextRange::new(0, 25));
    assert_eq!(results.len(), 4);

    // Test single point intersection
    let results = tree.find_intersects(TextRange::new(10, 11));
    assert_eq!(results.len(), 1);
    assert_eq!(results[0].key, TextRange::new(10, 15));
}

#[test]
fn test_find_intersect_min() {
    let mut tree = IntervalTree::new();
    tree.insert(TextRange::new(0, 5), 1, merge);
    tree.insert(TextRange::new(5, 10), 2, merge);
    tree.insert(TextRange::new(14, 18), 3, merge);

    // Test exact match
    assert_eq!(
        tree.find_intersect_min(TextRange::new(5, 10)).unwrap().key,
        TextRange::new(5, 10)
    );

    // Test partial overlap
    assert_eq!(
        tree.find_intersect_min(TextRange::new(3, 7)).unwrap().key,
        TextRange::new(0, 5)
    );

    assert_eq!(
        tree.find_intersect_min(TextRange::new(6, 15)).unwrap().key,
        TextRange::new(5, 10)
    );

    // Test no overlap
    assert!(tree.find_intersect_min(TextRange::new(19, 23)).is_none());

    // Test empty tree
    let empty_tree: IntervalTree<i32> = IntervalTree::new();
    assert!(empty_tree.find_intersect_min(TextRange::new(0, 1)).is_none());
}

fn entries(tree: &IntervalTree<i32>) -> Vec<(usize, usize, i32)> {
    tree.find_intersects(TextRange::new(0, usize::MAX))
        .iter()
        .map(|n| (n.key.start, n.key.end, n.val))
        .collect()
}

#[test]
fn overlap_split_on_insert() {
    let mut tree = IntervalTree::new();
    tree.insert(TextRange::new(0, 10), 1, merge);
    tree.insert(TextRange::new(5, 15), 2, merge);
    assert_eq!(entries(&tree), vec![(0, 5, 1), (5, 10, 2), (10, 15, 2)]);
}

#[test]
fn insert_inside_and_around() {
    let mut tree = IntervalTree::new();
    tree.insert(TextRange::new(10, 20), 1, |a, b| a + b);
    tree.insert(TextRange::new(12, 15), 10, |a, b| a + b);
    assert_eq!(entries(&tree), vec![(10, 12, 1), (12, 15, 11), (15, 20, 1)]);
    tree.insert(TextRange::new(0, 30), 100, |a, b| a + b);
    assert_eq!(
        entries(&tree),
        vec![(0, 10, 100), (10, 12, 101), (12, 15, 111), (15, 20, 101), (20, 30, 100)]
    );
}

#[test]
fn insert_degenerate_is_ignored() {
    let mut tree = IntervalTree::new();
    assert!(tree.insert(TextRange::new(3, 3), 1, merge).is_none());
    assert!(tree.root.is_none());
    assert!(tree.insert(TextRange::new(3, 4), 1, merge).is_some());
}

#[test]
fn delete() {
    let val = 1;
    let mut tree = build_tree(val);
    for k in [8, 4, 5, 7, 3, 6] {
        let i = TextRange::new(k, k + 1);
        let a = tree.delete_exact(i).unwrap();
        assert_eq!(a.key, i);
    }
}

#[test]
fn delete_ptr() {
    let val = 1;
    let mut tree = build_tree(val);
    let a = 3;
    let key = TextRange::new(a, a + 1);
    // The node that the tree hands out for the key is marked, and the mark
    // is looked for on the node that the deletion gives back.
    let n = tree.get_node_mut(key).unwrap();
    n.val = 42;
    let a = tree.delete_exact(key).unwrap();
    assert_eq!(a.key, key);
    assert_eq!(a.val, 42);
    assert!(a.left.is_none() && a.right.is_none());
}

#[test]
fn delete_min() {
    let val = 1;
    let mut tree = build_tree(val);
    let a = tree.delete_min().unwrap();
    assert_eq!(a.key.start, 0);
}

#[test]
fn advance() {
    let val = 1;
    let mut tree = build_tree(val);
    tree.advance(7, 5);
    tree.get(TextRange::new(6, 7)).unwrap();
    tree.get(TextRange::new(7, 13)).unwrap();
    tree.get(TextRange::new(13, 14)).unwrap();
    tree.get(TextRange::new(14, 15)).unwrap();
}

#[test]
fn find_next() {
    let val = 1;
    let mut tree = build_tree(val);
    tree.delete_exact(TextRange::new(5, 6));
    let mut n = tree.min().unwrap();

    while let Some(ne) = n.next(&tree) {
        n = ne;
    }
    assert_eq!(n.key.start, 9);
}

#[test]
fn test_merge_adjacent_intervals_with_equal_properties() {
    let mut tree = IntervalTree::new();
    tree.insert(TextRange::new(1, 5), 1, merge);
    tree.insert(TextRange::new(5, 10), 1, merge);
    tree.merge(|a, b| *a == *b);
    assert_eq!(tree.find_intersects(TextRange::new(1, 10)).len(), 1);
}

#[test]
fn test_not_merge_adjacent_intervals_with_different_properties() {
    let mut tree = IntervalTree::new();
    tree.insert(TextRange::new(1, 5), 1, merge);
    tree.insert(TextRange::new(5, 10), 2, merge);
    tree.merge(|a, b| *a == *b);
    assert_eq!(tree.find_intersects(TextRange::new(1, 10)).len(), 2);
}

#[test]
fn test_not_merge_non_adjacent_intervals() {
    let mut tree = IntervalTree::new();
    tree.insert(TextRange::new(1, 5), 1, merge);
    tree.insert(TextRange::new(10, 15), 1, merge);
    tree.merge(|a, b| *a == *b);
    assert_eq!(tree.find_intersects(TextRange::new(1, 15)).len(), 2);
}

#[test]
fn test_merge_multiple_adjacent_intervals_with_equal_properties() {
    let mut tree = IntervalTree::new();
    tree.insert(TextRange::new(5, 10), 1, merge);
    tree.insert(TextRange::new(1, 5), 1, merge);
    tree.insert(TextRange::new(10, 15), 1, merge);
    tree.merge(|a, b| *a == *b);
    assert_eq!(tree.find_intersects(TextRange::new(1, 15)).len(), 1);
}

#[test]
fn test_handle_empty_tree() {
    let mut tree: IntervalTree<i32> = IntervalTree::new();
    tree.merge(|a, b| *a == *b);
    assert_eq!(tree.find_intersects(TextRange::new(1, 10)).len(), 0);
}

#[test]
fn test_handle_tree_with_single_node() {
    let mut tree = IntervalTree::new();
    tree.insert(TextRange::new(1, 5), 1, merge);
    tree.merge(|a, b| *a == *b);
    assert_eq!(tree.find_intersects(TextRange::new(1, 5)).len(), 1);
}

#[test]
fn test_apply_with_split() {
    let mut tree = IntervalTree::new();
    tree.insert(TextRange::new(0, 10), 1, merge);

    // Apply function to partial overlap
    tree.apply_with_split(|val| Some(val * 2), TextRange::new(5, 15));
    let nodes = tree.find_intersects(TextRange::new(0, 15));
    assert_eq!(nodes.len(), 2);
    assert_eq!(nodes[0].val, 1);
    assert_eq!(nodes[1].val, 2);

    // Remove an interval
    tree.apply_with_split(|_| None, TextRange::new(7, 8));
    let nodes = tree.find_intersects(TextRange::new(0, 15));
    assert_eq!(nodes.len(), 3);
    assert_eq!(nodes[1].key, TextRange::new(5, 7));
    assert_eq!(nodes[1].val, 2);

    // Apply to exact match
    tree.apply_with_split(|val| Some(val + 1), TextRange::new(2, 4));
    let node = tree.find_intersects(TextRange::new(2, 4))[0];
    assert_eq!(node.val, 2);
}

#[test]
fn test_clean() {
    let mut tree = IntervalTree::new();
    tree.insert(TextRange::new(0, 5), 1, merge);
    tree.insert(TextRange::new(5, 10), 1, merge);
    tree.insert(TextRange::new(10, 15), 2, merge);
    tree.insert(TextRange::new(15, 20), 0, merge); // Empty value
    tree.insert(TextRange::new(20, 25), 2, merge);
    tree.insert(TextRange::new(25, 30), 2, merge);

    // Clean the tree, merging equal values and removing empty ones
    tree.clean(|a, b| a == b, |v| *v == 0);

    let nodes = tree.find_intersects(TextRange::new(0, 30));
    assert_eq!(nodes.len(), 3);
    assert_eq!(nodes[0].key, TextRange::new(0, 10));
    assert_eq!(nodes[2].key, TextRange::new(20, 30));
}

#[test]
fn test_clean_empty_tree() {
    let mut tree: IntervalTree<i32> = IntervalTree::new();
    tree.clean(|a, b| a == b, |v| *v == 0);
    assert!(tree.find_intersects(TextRange::new(0, 1)).is_empty());
}

#[test]
fn test_clean_with_empty_intervals() {
    let mut tree = IntervalTree::new();
    tree.insert(TextRange::new(0, 0), 1, merge); // Empty interval
    tree.insert(TextRange::new(0, 5), 1, merge);
    tree.insert(TextRange::new(5, 5), 2, merge); // Empty interval

    tree.clean(|a, b| a == b, |v| *v == 0);

    assert_eq!(tree.find_intersects(TextRange::new(0, 5)).len(), 1);
}
