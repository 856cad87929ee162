use interval_tree::{Color, IntervalTree, MaybeNode, Node, TextRange};
use std::cmp::Ordering;

fn first<T: Clone>(a: T, _b: T) -> T {
    a
}

fn entries(tree: &IntervalTree<i32>) -> Vec<(usize, usize, i32)> {
    let mut out = Vec::new();
    let mut f = |n: &Node<i32>| out.push((n.key.start, n.key.end, n.val));
    if let Some(root) = &tree.root {
        root.apply(&mut f);
    }
    out
}

fn tree_of(items: &[(usize, usize, i32)]) -> IntervalTree<i32> {
    let mut tree = IntervalTree::new();
    for &(s, e, v) in items {
        tree.insert(TextRange::new(s, e), v, first);
    }
    tree
}

/// Checks order, sizes and back-references below `link`, and gives back the
/// number of nodes.
fn check_sound(
    link: &MaybeNode<i32>,
    lo: usize,
    hi: usize,
    parent: Option<TextRange>,
    is_right: bool,
) -> usize {
    match link {
        None => 0,
        Some(n) => {
            assert!(lo <= n.key.start && n.key.start < n.key.end && n.key.end <= hi);
            assert_eq!(n.parent, parent);
            assert_eq!(n.is_right_child, is_right);
            let l = check_sound(&n.left, lo, n.key.start, Some(n.key), false);
            let r = check_sound(&n.right, n.key.end, hi, Some(n.key), true);
            assert_eq!(n.n, 1 + l + r);
            assert_eq!(n.n(), 1 + l + r);
            1 + l + r
        }
    }
}

/// Checks the red-black shape below `link` and gives back the number of
/// black links on the ways down.
fn check_colors(link: &MaybeNode<i32>) -> usize {
    match link {
        None => 0,
        Some(n) => {
            assert!(!Node::red(&n.right));
            assert!(!(n.color == Color::Red && Node::red(&n.left)));
            let l = check_colors(&n.left);
            let r = check_colors(&n.right);
            assert_eq!(l, r);
            l + if n.color == Color::Black { 1 } else { 0 }
        }
    }
}

fn check_tree(tree: &IntervalTree<i32>) {
    check_sound(&tree.root, 0, usize::MAX, None, false);
    assert!(!Node::red(&tree.root));
    check_colors(&tree.root);
    let all = entries(tree);
    for w in all.windows(2) {
        assert!(w[0].1 <= w[1].0);
        assert!((w[0].0, w[0].1) < (w[1].0, w[1].1));
    }
}

struct Dice(u64);

impl Dice {
    fn roll(&mut self, below: usize) -> usize {
        self.0 = self.0.wrapping_mul(6364136223846793005).wrapping_add(1442695040888963407);
        ((self.0 >> 33) as usize) % below
    }
}

#[test]
fn range_predicates() {
    let a = TextRange::new(0, 5);
    let b = TextRange::new(5, 10);
    let c = TextRange::new(3, 7);
    let d = TextRange::new(4, 4);
    assert!(!a.intersects(b));
    assert!(!b.intersects(a));
    assert!(a.intersects(c) && c.intersects(b));
    assert!(!d.intersects(a) && !a.intersects(d));
    assert!(d.empty() && !a.empty());
    assert_eq!(a.intersection(c), Some(TextRange::new(3, 5)));
    assert_eq!(c.intersection(b), Some(TextRange::new(5, 7)));
    assert_eq!(a.intersection(b), None);
    assert_eq!(d.intersection(a), None);
    assert_eq!(TextRange::new_valid(2, 3), Some(TextRange::new(2, 3)));
    assert_eq!(TextRange::new_valid(3, 3), None);
    assert_eq!(TextRange::new_valid(4, 3), None);
    assert!(a.lex_less(&b) && !b.lex_less(&a) && !a.lex_less(&a));
    assert!(TextRange::new(0, 4).lex_less(&a));
    assert!(a < b && TextRange::new(0, 4) < a);
}

#[test]
fn range_strict_order() {
    let a = TextRange::new(0, 5);
    assert_eq!(a.strict_order(&TextRange::new(5, 10)), Some(Ordering::Less));
    assert_eq!(TextRange::new(5, 10).strict_order(&a), Some(Ordering::Greater));
    assert_eq!(a.strict_order(&TextRange::new(0, 5)), Some(Ordering::Equal));
    assert_eq!(a.strict_order(&TextRange::new(3, 7)), None);
    assert_eq!(a.strict_order(&TextRange::new(1, 2)), None);
    assert_eq!(a.strict_order(&TextRange::new(7, 9)), Some(Ordering::Less));
}

#[test]
fn range_split_and_advance() {
    let mut a = TextRange::new(2, 9);
    let rest = a.split_at(5, true);
    assert_eq!(a, TextRange::new(2, 5));
    assert_eq!(rest, TextRange::new(5, 9));
    let mut b = TextRange::new(2, 9);
    let rest = b.split_at(5, false);
    assert_eq!(b, TextRange::new(5, 9));
    assert_eq!(rest, TextRange::new(2, 5));
    b.advance(4);
    assert_eq!(b, TextRange::new(9, 13));
}

#[test]
fn color_and_node_basics() {
    assert_eq!(Color::Red.flip(), Color::Black);
    assert_eq!(Color::Black.flip(), Color::Red);
    let parent = Node::new(TextRange::new(5, 9), 1);
    assert_eq!(parent.color, Color::Red);
    assert_eq!(parent.n, 1);
    assert!(parent.parent.is_none() && !parent.is_right_child);
    let mut child = Node::new_with_parent(TextRange::new(0, 2), 7, Some(parent.key), true);
    assert_eq!(child.parent, Some(TextRange::new(5, 9)));
    assert!(child.is_right_child);
    let other = Node::new(TextRange::new(20, 30), 1);
    child.set_parent(&other);
    assert_eq!(child.parent, Some(TextRange::new(20, 30)));
    let boxed = Node::new_boxed_with_parent(TextRange::new(1, 2), 3, None, false);
    assert_eq!(boxed.val, 3);
    assert!(!Node::red(&None::<Box<Node<i32>>>));
    assert!(Node::red(&Some(boxed)));
}

#[test]
fn rotate_right_mirrors_rotate_left() {
    let mut top = Node::new_boxed(TextRange::new(10, 20), 1);
    top.color = Color::Black;
    let mut left = Node::new_boxed_with_parent(TextRange::new(0, 5), 2, Some(top.key), false);
    let inner = Node::new_boxed_with_parent(TextRange::new(5, 10), 3, Some(left.key), true);
    left.right = Some(inner);
    left.n = 2;
    top.left = Some(left);
    top.n = 3;
    assert!(Node::rotate_right(&mut top).is_some());
    assert_eq!(top.key, TextRange::new(0, 5));
    assert_eq!(top.color, Color::Black);
    assert_eq!(top.n, 3);
    let down = top.right.as_ref().unwrap();
    assert_eq!(down.key, TextRange::new(10, 20));
    assert_eq!(down.color, Color::Red);
    assert_eq!(down.n, 2);
    assert_eq!(down.parent, Some(TextRange::new(0, 5)));
    assert!(down.is_right_child);
    let moved = down.left.as_ref().unwrap();
    assert_eq!(moved.key, TextRange::new(5, 10));
    assert_eq!(moved.parent, Some(TextRange::new(10, 20)));
    assert!(!moved.is_right_child);
    // back again
    assert!(Node::rotate_left(&mut top).is_some());
    assert_eq!(top.key, TextRange::new(10, 20));
    assert_eq!(top.left.as_ref().unwrap().right.as_ref().unwrap().key, TextRange::new(5, 10));
    // nothing to rotate
    let mut single = Node::new_boxed(TextRange::new(0, 1), 1);
    assert!(Node::rotate_left(&mut single).is_none());
    assert!(Node::rotate_right(&mut single).is_none());
    assert_eq!(single.key, TextRange::new(0, 1));
}

#[test]
fn flip_and_balance() {
    let mut top = Node::new_boxed(TextRange::new(10, 20), 1);
    top.color = Color::Black;
    top.left = Some(Node::new_boxed_with_parent(TextRange::new(0, 5), 2, Some(top.key), false));
    top.right = Some(Node::new_boxed_with_parent(TextRange::new(25, 30), 3, Some(top.key), true));
    Node::balance(&mut top);
    assert_eq!(top.color, Color::Red);
    assert_eq!(top.left.as_ref().unwrap().color, Color::Black);
    assert_eq!(top.right.as_ref().unwrap().color, Color::Black);
    assert_eq!(top.n, 3);
    Node::flip_colors(&mut top);
    assert_eq!(top.color, Color::Black);
    assert_eq!(top.left.as_ref().unwrap().color, Color::Red);
    assert_eq!(top.right.as_ref().unwrap().color, Color::Red);
    // a red link to the right beside a black one to the left is turned
    let mut lean = Node::new_boxed(TextRange::new(0, 5), 1);
    lean.color = Color::Black;
    lean.right = Some(Node::new_boxed_with_parent(TextRange::new(5, 9), 2, Some(lean.key), true));
    Node::balance(&mut lean);
    assert_eq!(lean.key, TextRange::new(5, 9));
    assert_eq!(lean.color, Color::Black);
    assert_eq!(lean.left.as_ref().unwrap().key, TextRange::new(0, 5));
    assert_eq!(lean.left.as_ref().unwrap().color, Color::Red);
}

#[test]
fn move_red_left_and_right() {
    // a red node above two black leaves
    let mut top = Node::new_boxed(TextRange::new(10, 20), 1);
    let mut l = Node::new_boxed_with_parent(TextRange::new(0, 5), 2, Some(top.key), false);
    l.color = Color::Black;
    let mut r = Node::new_boxed_with_parent(TextRange::new(25, 30), 3, Some(top.key), true);
    r.color = Color::Black;
    top.left = Some(l);
    top.right = Some(r);
    top.n = 3;
    Node::move_red_left(&mut top);
    assert_eq!(top.color, Color::Black);
    assert_eq!(top.left.as_ref().unwrap().color, Color::Red);
    assert_eq!(top.right.as_ref().unwrap().color, Color::Red);
    Node::flip_colors(&mut top);
    Node::move_red_right(&mut top);
    assert_eq!(top.key, TextRange::new(10, 20));
    assert_eq!(top.color, Color::Black);
    assert_eq!(top.left.as_ref().unwrap().color, Color::Red);
}

#[test]
fn insert_at_a_subtree() {
    let mut link: MaybeNode<i32> = None;
    assert!(Node::insert_at(&mut link, TextRange::new(4, 4), 1, None, false, &first).is_none());
    assert!(link.is_none());
    let got = Node::insert_at(&mut link, TextRange::new(4, 8), 1, None, false, &first);
    assert_eq!(got.unwrap().key, TextRange::new(4, 8));
    Node::insert_at(&mut link, TextRange::new(0, 2), 2, None, false, &first);
    Node::insert_at(&mut link, TextRange::new(6, 10), 3, None, false, &first);
    check_sound(&link, 0, usize::MAX, None, false);
    let mut seen = Vec::new();
    link.as_ref().unwrap().find_intersects(TextRange::new(0, 100), &mut seen);
    let keys: Vec<(usize, usize, i32)> =
        seen.iter().map(|n| (n.key.start, n.key.end, n.val)).collect();
    assert_eq!(keys, vec![(0, 2, 2), (4, 6, 1), (6, 8, 3), (8, 10, 3)]);
}

#[test]
fn merge_function_decides_the_common_part() {
    let mut tree = IntervalTree::new();
    tree.insert(TextRange::new(0, 10), 1, first);
    tree.insert(TextRange::new(5, 15), 2, |_a, b| b);
    assert_eq!(entries(&tree), vec![(0, 5, 1), (5, 10, 1), (10, 15, 2)]);
    tree.insert(TextRange::new(5, 10), 7, |a, b| a * 10 + b);
    assert_eq!(entries(&tree), vec![(0, 5, 1), (5, 10, 71), (10, 15, 2)]);
    check_tree(&tree);
}

#[test]
fn get_is_exact() {
    let tree = tree_of(&[(0, 5, 1), (5, 10, 2), (20, 30, 3)]);
    assert_eq!(tree.get(TextRange::new(5, 10)), Some(2));
    assert_eq!(tree.get(TextRange::new(5, 9)), None);
    assert_eq!(tree.get(TextRange::new(6, 10)), None);
    assert_eq!(tree.get(TextRange::new(10, 20)), None);
    assert_eq!(tree.get(TextRange::new(7, 7)), None);
    assert_eq!(tree.get_node(TextRange::new(20, 30)).unwrap().val, 3);
    assert!(tree.get_node(TextRange::new(20, 29)).is_none());
    let empty: IntervalTree<i32> = IntervalTree::default();
    assert_eq!(empty.get(TextRange::new(0, 1)), None);
    assert!(empty.min().is_none());
}

#[test]
fn find_by_position() {
    let tree = tree_of(&[(0, 5, 1), (5, 10, 2), (20, 30, 3)]);
    assert_eq!(tree.find(0).unwrap().val, 1);
    assert_eq!(tree.find(4).unwrap().val, 1);
    assert_eq!(tree.find(5).unwrap().key, TextRange::new(5, 10));
    assert_eq!(tree.find(9).unwrap().val, 2);
    assert!(tree.find(10).is_none());
    assert!(tree.find(19).is_none());
    assert_eq!(tree.find(29).unwrap().val, 3);
    assert!(tree.find(30).is_none());
    assert!(tree.find(usize::MAX).is_none());
    for p in 0..40 {
        let hit = tree.find(p);
        let held = entries(&tree).iter().any(|&(s, e, _)| s <= p && p < e);
        assert_eq!(hit.is_some(), held);
        if let Some(n) = hit {
            assert!(n.key.start <= p && p < n.key.end);
        }
    }
}

#[test]
fn find_intersect_max_and_degenerate_queries() {
    let tree = tree_of(&[(0, 5, 1), (5, 10, 2), (14, 18, 3)]);
    assert_eq!(tree.find_intersect_max(TextRange::new(3, 7)).unwrap().key, TextRange::new(5, 10));
    assert_eq!(tree.find_intersect_max(TextRange::new(0, 100)).unwrap().val, 3);
    assert_eq!(tree.find_intersect_max(TextRange::new(5, 10)).unwrap().val, 2);
    assert!(tree.find_intersect_max(TextRange::new(10, 14)).is_none());
    assert!(tree.find_intersect_max(TextRange::new(3, 3)).is_none());
    assert!(tree.find_intersect_min(TextRange::new(3, 3)).is_none());
    assert!(tree.find_intersects(TextRange::new(3, 3)).is_empty());
    assert_eq!(tree.find_intersects(TextRange::new(5, 14)).len(), 1);
}

#[test]
fn neighbours() {
    let tree = tree_of(&[(0, 5, 1), (5, 10, 2), (14, 18, 3), (30, 31, 4)]);
    let first_node = tree.min().unwrap();
    assert_eq!(first_node.key, TextRange::new(0, 5));
    assert!(first_node.prev(&tree).is_none());
    assert!(first_node.prev_raw(&tree).is_none());
    let second = first_node.next(&tree).unwrap();
    assert_eq!(second.key, TextRange::new(5, 10));
    assert_eq!(second.next_raw(&tree), Some(TextRange::new(14, 18)));
    assert_eq!(second.prev_raw(&tree), Some(TextRange::new(0, 5)));
    let last = tree.get_node(TextRange::new(30, 31)).unwrap();
    assert!(last.next(&tree).is_none());
    assert_eq!(last.prev(&tree).unwrap().val, 3);
    let mut walked = Vec::new();
    let mut at = tree.min();
    while let Some(n) = at {
        walked.push((n.key.start, n.key.end, n.val));
        at = n.next(&tree);
    }
    assert_eq!(walked, entries(&tree));
}

#[test]
fn delete_exact_of_missing_key_changes_nothing() {
    let mut tree = tree_of(&[(0, 5, 1), (5, 10, 2), (14, 18, 3)]);
    let before = entries(&tree);
    assert!(tree.delete_exact(TextRange::new(5, 9)).is_none());
    assert!(tree.delete_exact(TextRange::new(100, 200)).is_none());
    assert!(tree.delete_exact(TextRange::new(3, 3)).is_none());
    assert_eq!(entries(&tree), before);
    check_tree(&tree);
    let gone = tree.delete_exact(TextRange::new(5, 10)).unwrap();
    assert_eq!((gone.key, gone.val), (TextRange::new(5, 10), 2));
    assert!(gone.left.is_none() && gone.right.is_none() && gone.parent.is_none());
    assert_eq!(gone.n, 1);
    assert_eq!(entries(&tree), vec![(0, 5, 1), (14, 18, 3)]);
    check_tree(&tree);
}

#[test]
fn delete_min_and_max_until_empty() {
    let mut tree = IntervalTree::new();
    for i in 0..40usize {
        tree.insert(TextRange::new(2 * i, 2 * i + 1), i as i32, first);
    }
    check_tree(&tree);
    let mut lo = 0;
    let mut hi = 39;
    loop {
        let a = match tree.delete_min() {
            Some(n) => n,
            None => break,
        };
        assert_eq!(a.val, lo);
        lo += 1;
        check_tree(&tree);
        let b = match tree.delete_max() {
            Some(n) => n,
            None => break,
        };
        assert_eq!(b.val, hi);
        hi -= 1;
        check_tree(&tree);
    }
    assert_eq!(lo, 20);
    assert!(tree.root.is_none());
    assert!(tree.delete_max().is_none());
}

#[test]
fn insert_then_delete_gives_back_the_tree() {
    let mut tree = tree_of(&[(0, 5, 1), (5, 10, 2), (20, 30, 3), (40, 41, 4)]);
    let before = entries(&tree);
    for &(s, e) in &[(10usize, 20usize), (12, 13), (30, 40), (41, 50), (100, 101)] {
        tree.insert(TextRange::new(s, e), 9, first);
        check_tree(&tree);
        assert_eq!(entries(&tree).len(), before.len() + 1);
        let out = tree.delete_exact(TextRange::new(s, e)).unwrap();
        assert_eq!(out.val, 9);
        assert_eq!(entries(&tree), before);
        check_tree(&tree);
    }
}

#[test]
fn partial_delete_without_del_extend() {
    let mut tree = tree_of(&[(0, 10, 1)]);
    tree.delete(TextRange::new(5, 15), false);
    assert_eq!(entries(&tree), vec![(0, 5, 1)]);
    let mut tree = tree_of(&[(0, 10, 1)]);
    tree.delete(TextRange::new(3, 7), false);
    assert_eq!(entries(&tree), vec![(0, 3, 1), (7, 10, 1)]);
    check_tree(&tree);
    let mut tree = tree_of(&[(0, 10, 1), (10, 20, 2), (20, 30, 3), (40, 50, 4)]);
    tree.delete(TextRange::new(5, 25), false);
    assert_eq!(entries(&tree), vec![(0, 5, 1), (25, 30, 3), (40, 50, 4)]);
    check_tree(&tree);
    tree.delete(TextRange::new(30, 40), false);
    tree.delete(TextRange::new(7, 7), false);
    assert_eq!(entries(&tree), vec![(0, 5, 1), (25, 30, 3), (40, 50, 4)]);
    tree.delete(TextRange::new(0, 100), false);
    assert!(entries(&tree).is_empty());
}

#[test]
fn delete_with_del_extend() {
    let mut tree = tree_of(&[(0, 10, 1)]);
    tree.delete(TextRange::new(5, 15), true);
    assert!(tree.find_intersects(TextRange::new(0, 10)).is_empty());
    let mut tree = tree_of(&[(0, 10, 1), (10, 20, 2), (20, 30, 3), (40, 50, 4)]);
    tree.delete(TextRange::new(19, 21), true);
    assert_eq!(entries(&tree), vec![(0, 10, 1), (40, 50, 4)]);
    tree.delete(TextRange::new(10, 40), true);
    assert_eq!(entries(&tree), vec![(0, 10, 1), (40, 50, 4)]);
    check_tree(&tree);
}

#[test]
fn advance_moves_what_lies_behind() {
    let mut tree = IntervalTree::new();
    for i in 0..10usize {
        tree.insert(TextRange::new(i, i + 1), i as i32, first);
    }
    tree.advance(7, 5);
    let mut want: Vec<(usize, usize, i32)> = (0..7).map(|i| (i, i + 1, i as i32)).collect();
    want.push((7, 13, 7));
    want.push((13, 14, 8));
    want.push((14, 15, 9));
    assert_eq!(entries(&tree), want);
    check_tree(&tree);
}

#[test]
fn advance_by_nothing_and_in_two_steps() {
    let items = [(0, 5, 1), (5, 10, 2), (14, 18, 3), (30, 31, 4)];
    for p in 0..35 {
        let mut a = tree_of(&items);
        a.advance(p, 0);
        assert_eq!(entries(&a), items.to_vec());
        let mut b = tree_of(&items);
        b.advance(p, 3);
        b.advance(p, 4);
        let mut c = tree_of(&items);
        c.advance(p, 7);
        assert_eq!(entries(&b), entries(&c));
        check_tree(&b);
    }
}

#[test]
fn clean_joins_and_drops() {
    let mut tree =
        tree_of(&[(0, 5, 1), (5, 10, 1), (10, 15, 2), (15, 20, 0), (20, 25, 2), (25, 30, 2)]);
    tree.clean(|a, b| a == b, |v| *v == 0);
    assert_eq!(entries(&tree), vec![(0, 10, 1), (10, 15, 2), (20, 30, 2)]);
    check_tree(&tree);
}

#[test]
fn clean_from_leaves_the_front() {
    let mut tree = tree_of(&[(0, 5, 1), (5, 10, 1), (10, 15, 1), (15, 20, 0), (20, 25, 2)]);
    tree.clean_from(TextRange::new(5, 10), |a, b| a == b, |v| *v == 0);
    assert_eq!(entries(&tree), vec![(0, 5, 1), (5, 15, 1), (20, 25, 2)]);
    let before = entries(&tree);
    tree.clean_from(TextRange::new(6, 7), |a, b| a == b, |v| *v == 0);
    assert_eq!(entries(&tree), before);
    check_tree(&tree);
}

#[test]
fn merge_leaves_no_pair_to_join() {
    let mut dice = Dice(7);
    for _ in 0..30 {
        let mut tree = IntervalTree::new();
        let mut at = 0;
        for _ in 0..20 {
            at += dice.roll(2);
            let len = 1 + dice.roll(3);
            tree.insert(TextRange::new(at, at + len), dice.roll(3) as i32, first);
            at += len;
        }
        tree.merge(|a, b| a == b);
        check_tree(&tree);
        for w in entries(&tree).windows(2) {
            assert!(!(w[0].1 == w[1].0 && w[0].2 == w[1].2));
        }
    }
}

#[test]
fn apply_with_split_cuts_at_the_borders() {
    let mut tree = tree_of(&[(0, 10, 1)]);
    tree.apply_with_split(|v| Some(v * 2), TextRange::new(5, 15));
    assert_eq!(entries(&tree), vec![(0, 5, 1), (5, 10, 2)]);
    tree.apply_with_split(|_| None, TextRange::new(7, 8));
    assert_eq!(entries(&tree), vec![(0, 5, 1), (5, 7, 2), (8, 10, 2)]);
    tree.apply_with_split(|v| Some(v + 10), TextRange::new(3, 9));
    assert_eq!(
        entries(&tree),
        vec![(0, 3, 1), (3, 5, 11), (5, 7, 12), (8, 9, 12), (9, 10, 2)]
    );
    tree.apply_with_split(|v| Some(v + 100), TextRange::new(20, 30));
    tree.apply_with_split(|v| Some(v + 100), TextRange::new(4, 4));
    assert_eq!(entries(&tree).len(), 5);
    check_tree(&tree);
    for (s, e, _) in entries(&tree) {
        let inside = 3 <= s && e <= 9;
        let apart = e <= 3 || 9 <= s;
        assert!(inside || apart);
    }
}

#[test]
fn visitors_go_in_key_order() {
    let mut tree = tree_of(&[(20, 30, 3), (0, 5, 1), (5, 10, 2)]);
    let mut seen = Vec::new();
    tree.apply(&mut |v: &i32| seen.push(*v));
    assert_eq!(seen, vec![1, 2, 3]);
    tree.apply_mut(&mut |n: &mut Node<i32>| n.val += 10);
    assert_eq!(entries(&tree), vec![(0, 5, 11), (5, 10, 12), (20, 30, 13)]);
    check_tree(&tree);
}

#[test]
fn get_node_mut_reaches_the_stored_node() {
    let mut tree = tree_of(&[(20, 30, 3), (0, 5, 1), (5, 10, 2)]);
    assert!(tree.get_node_mut(TextRange::new(5, 11)).is_none());
    tree.get_node_mut(TextRange::new(5, 10)).unwrap().val = 9;
    assert_eq!(tree.get(TextRange::new(5, 10)), Some(9));
    let n = tree.get_node_mut(TextRange::new(5, 10)).unwrap();
    n.set_key(TextRange::new(6, 9));
    assert_eq!(entries(&tree), vec![(0, 5, 1), (6, 9, 9), (20, 30, 3)]);
    check_tree(&tree);
}

#[test]
fn random_runs_keep_the_tree_sound() {
    let mut dice = Dice(42);
    for round in 0..40 {
        let mut tree = IntervalTree::new();
        // keys that cut no interval: the red-black shape holds throughout
        for _ in 0..60 {
            let s = 3 * dice.roll(50);
            let key = TextRange::new(s, s + 1 + dice.roll(3));
            match dice.roll(5) {
                0 | 1 | 2 => {
                    tree.insert(key, round, first);
                }
                3 => {
                    tree.delete_exact(key);
                }
                _ => {
                    if dice.roll(2) == 0 {
                        tree.delete_min();
                    } else {
                        tree.delete_max();
                    }
                }
            }
            check_tree(&tree);
        }
        tree.advance(dice.roll(150), dice.roll(10));
        check_tree(&tree);
        tree.delete(TextRange::new(40, 40 + dice.roll(60)), dice.roll(2) == 0);
        check_tree(&tree);
        tree.apply_with_split(|v| if v % 2 == 0 { Some(v + 1) } else { None }, TextRange::new(10, 90));
        check_tree(&tree);
        tree.clean(|a, b| a == b, |v| *v == 3);
        check_tree(&tree);
    }
}

#[test]
fn overlapping_inserts_keep_order_and_sizes() {
    let mut dice = Dice(5);
    for _ in 0..40 {
        let mut tree = IntervalTree::new();
        let mut cover = vec![0; 120];
        for step in 1..30 {
            let s = dice.roll(100);
            let e = s + 1 + dice.roll(20);
            tree.insert(TextRange::new(s, e), step, first);
            for c in cover[s..e].iter_mut() {
                *c = step;
            }
            check_tree(&tree);
            for (p, &c) in cover.iter().enumerate() {
                match tree.find(p) {
                    Some(n) => assert_eq!(n.val, c),
                    None => assert_eq!(c, 0),
                }
            }
        }
    }
}

/// The number of black links on the ways down, if the red-black shape holds.
fn colors_ok(link: &MaybeNode<i32>) -> Option<usize> {
    match link {
        None => Some(0),
        Some(n) => {
            if Node::red(&n.right) || (n.color == Color::Red && Node::red(&n.left)) {
                return None;
            }
            let l = colors_ok(&n.left)?;
            let r = colors_ok(&n.right)?;
            if l != r {
                return None;
            }
            Some(l + if n.color == Color::Black { 1 } else { 0 })
        }
    }
}

#[test]
fn inserts_keep_the_colours() {
    let mut dice = Dice(11);
    for _ in 0..200 {
        let mut tree = IntervalTree::new();
        for step in 1..40 {
            let before = entries(&tree).len();
            let s = dice.roll(60);
            let e = s + 1 + dice.roll(30);
            tree.insert(TextRange::new(s, e), step, first);
            check_tree(&tree);
            assert!(entries(&tree).len() >= before);
        }
    }
}

#[test]
fn insert_over_a_red_left_link() {
    let mut tree = IntervalTree::new();
    tree.insert(TextRange::new(5, 10), 1, first);
    tree.insert(TextRange::new(3, 5), 2, first);
    tree.insert(TextRange::new(0, 15), 3, first);
    assert_eq!(entries(&tree), vec![(0, 3, 3), (3, 5, 3), (5, 10, 3), (10, 15, 3)]);
    check_tree(&tree);
}

#[test]
fn insert_at_a_subtree_in_one_go_can_unbalance_it() {
    let mut link: MaybeNode<i32> = None;
    Node::insert_at(&mut link, TextRange::new(20, 30), 1, None, false, &first);
    link.as_mut().unwrap().color = Color::Black;
    Node::insert_at(&mut link, TextRange::new(0, 10), 2, None, false, &first);
    Node::insert_at(&mut link, TextRange::new(3, 5), 3, None, false, &first);
    check_sound(&link, 0, usize::MAX, None, false);
    assert!(colors_ok(&link).is_none());
}

#[test]
fn insert_that_cuts_an_interval_in_three() {
    let mut tree = tree_of(&[(20, 30, 1), (0, 10, 2)]);
    tree.insert(TextRange::new(3, 5), 3, first);
    assert_eq!(entries(&tree), vec![(0, 3, 2), (3, 5, 3), (5, 10, 2), (20, 30, 1)]);
    check_tree(&tree);
    assert_eq!(tree.delete_exact(TextRange::new(3, 5)).unwrap().val, 3);
    assert_eq!(tree.delete_min().unwrap().key, TextRange::new(0, 3));
    assert_eq!(tree.delete_max().unwrap().key, TextRange::new(20, 30));
    assert_eq!(entries(&tree), vec![(5, 10, 2)]);
    check_sound(&tree.root, 0, usize::MAX, None, false);
}

#[test]
fn operations_work_on_any_sound_tree() {
    let mut dice = Dice(99);
    for _ in 0..60 {
        let mut tree = IntervalTree::new();
        let mut model: Vec<(usize, usize, i32)> = Vec::new();
        // put in at the root in one go, which can leave the colours out of
        // balance
        for step in 1..25 {
            let s = dice.roll(80);
            let e = s + 1 + dice.roll(15);
            Node::insert_at(&mut tree.root, TextRange::new(s, e), step, None, false, &first);
        }
        check_sound(&tree.root, 0, usize::MAX, None, false);
        model.extend(entries(&tree));
        for _ in 0..30 {
            if model.is_empty() {
                break;
            }
            let pick = dice.roll(model.len());
            let (s, e, v) = model.remove(pick);
            let out = tree.delete_exact(TextRange::new(s, e)).unwrap();
            assert_eq!((out.key.start, out.key.end, out.val), (s, e, v));
            assert_eq!(entries(&tree), model);
            check_sound(&tree.root, 0, usize::MAX, None, false);
        }
    }
}

#[test]
fn min_mut_reaches_the_least_node() {
    let mut tree = tree_of(&[(20, 30, 3), (0, 5, 1), (5, 10, 2)]);
    let n = tree.min_mut().unwrap();
    assert_eq!(n.key, TextRange::new(0, 5));
    n.val = 8;
    assert_eq!(entries(&tree), vec![(0, 5, 8), (5, 10, 2), (20, 30, 3)]);
    let mut empty: IntervalTree<i32> = IntervalTree::new();
    assert!(empty.min_mut().is_none());
    let root = tree.root.as_mut().unwrap();
    assert_eq!(root.max().key, TextRange::new(20, 30));
    assert_eq!(root.min_mut().val, 8);
}
