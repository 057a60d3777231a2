use purely_functional_data_structure::red_black_tree::RedBlackTree;
use purely_functional_data_structure::tree::FiniteMap;
use purely_functional_data_structure::tree::Tree;
use purely_functional_data_structure::tree::UnbalancedSet;

#[test]
fn test_insert() {
    let xs = [6, 2, 4, 8];
    let mut s = RedBlackTree::empty();
    for &x in &xs {
        s = s.insert(x);
    }

    for &x in &xs {
        assert!(s.member(x));
        assert!(!s.member(x + 1));
    }
}

#[test]
fn test_unbalanced_set() {
    let x = 10;
    let y = 20;
    let z = 15;
    let t = <Tree<_> as UnbalancedSet<_>>::empty();
    let t = t.insert(x);
    let t = t.insert(y);

    assert!(t.member(&x));
    assert!(t.member(&y));
    assert!(!t.member(&z));
}

#[test]
fn test_finite_map() {
    let one = (1, "one");
    let two = (2, "two");
    let thr = (3, "three");

    let t = <Tree<_> as FiniteMap<_, _>>::empty();
    let t = t.bind(one.0, one.1);
    let t = t.bind(thr.0, thr.1);

    assert_eq!(t.lookup(one.0), Some(one.1));
    assert_eq!(t.lookup(two.0), None);
    assert_eq!(t.lookup(thr.0), Some(thr.1));
}

#[test]
fn red_black_tree_is_a_set() {
    let mut s = RedBlackTree::empty();
    assert!(!s.member(0));
    // Ascending, descending and mixed arrivals, with repeats.
    let xs: Vec<u32> = (0..50)
        .chain((50..100).rev())
        .chain((0..100).map(|i| (i * 37) % 100))
        .collect();
    let mut seen = Vec::new();
    for &x in &xs {
        let before = s.clone();
        s = s.insert(2 * x);
        assert!(s.member(2 * x));
        assert!(!s.member(2 * x + 1));
        // The earlier version holds what it held.
        assert_eq!(before.member(2 * x), seen.contains(&x));
        seen.push(x);
    }
    for x in 0..100u32 {
        assert!(s.member(2 * x));
        assert!(!s.member(2 * x + 1));
    }
    let empty = RedBlackTree::<u32>::empty();
    assert!(!empty.member(4));
    let one = empty.insert(4);
    assert!(one.member(4));
    assert!(!empty.member(4));
}

#[test]
fn unbalanced_set_keeps_earlier_versions() {
    let e = <Tree<u32> as UnbalancedSet<u32>>::empty();
    let a = e.insert(5);
    let b = a.insert(3).insert(8).insert(5);
    assert!(!e.member(&5));
    assert!(a.member(&5));
    assert!(!a.member(&3));
    assert!(b.member(&3) && b.member(&5) && b.member(&8));
    assert!(!b.member(&4));
    // Inserting what is there adds no node.
    assert_eq!(b.count(), 3);
    assert_eq!(b.insert(8).count(), 3);
}

#[test]
fn finite_map_rebinds() {
    let m = <Tree<(u32, u32)> as FiniteMap<u32, u32>>::empty();
    assert_eq!(m.lookup(1), None);
    let m1 = m.bind(2, 20).bind(1, 10).bind(3, 30);
    let m2 = m1.bind(2, 21);
    assert_eq!(m1.lookup(2), Some(20));
    assert_eq!(m2.lookup(2), Some(21));
    assert_eq!(m2.lookup(1), Some(10));
    assert_eq!(m2.lookup(3), Some(30));
    assert_eq!(m2.lookup(4), None);
    assert_eq!(m2.count(), 3);
}

#[test]
fn complete_and_create_sizes() {
    // A complete tree of depth d has 2^d - 1 nodes.
    assert_eq!(Tree::complete(7u8, 0).count(), 0);
    assert_eq!(Tree::complete(7u8, 1).count(), 1);
    assert_eq!(Tree::complete(7u8, 4).count(), 15);
    // `create` builds 2 * nodes(size / 2) + 1 + size % 2 nodes.
    let want = [0usize, 2, 5, 6, 11, 12, 13, 14, 23];
    for (size, &nodes) in want.iter().enumerate() {
        assert_eq!(Tree::create(1u8, size).count(), nodes);
    }
}

#[test]
fn red_black_tree_rotates_on_either_side() {
    // 4 goes under the red 3 while its sibling 1 is red too: 3 comes up.
    let s = [2, 1, 3, 4]
        .into_iter()
        .fold(RedBlackTree::empty(), |s, x| s.insert(x));
    assert_eq!(s.root(), Some(3));
    assert_eq!(s.depth(), 3);
    for x in 1..=4 {
        assert!(s.member(x));
    }
    // The mirror image.
    let s = [3, 4, 2, 1]
        .into_iter()
        .fold(RedBlackTree::empty(), |s, x| s.insert(x));
    assert_eq!(s.root(), Some(2));
    assert_eq!(s.depth(), 3);
    assert_eq!(RedBlackTree::<u32>::empty().root(), None);
    assert_eq!(RedBlackTree::<u32>::empty().depth(), 0);
}

#[test]
fn red_black_tree_stays_shallow() {
    // No path is more than twice as long as the shortest possible one.
    let mut up = RedBlackTree::empty();
    let mut down = RedBlackTree::empty();
    let mut mixed = RedBlackTree::empty();
    for i in 0..1023u32 {
        up = up.insert(i);
        down = down.insert(1023 - i);
        mixed = mixed.insert((i * 389) % 1023);
    }
    for i in 0..1023u32 {
        assert!(up.member(i));
        assert!(down.member(i + 1));
        assert!(mixed.member(i));
    }
    assert!(!up.member(1023) && !down.member(0) && !mixed.member(1023));
    for s in [up, down, mixed] {
        assert!(s.depth() <= 20);
        assert!(s.depth() >= 10);
    }
}
