use bstree::{BstArena, BstNode, BstNodeLink};

fn build(keys: &[i32]) -> (BstArena, Option<BstNodeLink>) {
    let mut arena = BstArena::new();
    let mut root: Option<BstNodeLink> = None;
    for &k in keys {
        BstNode::tree_insert(&mut arena, &mut root, k);
    }
    (arena, root)
}

const SAMPLE: [i32; 11] = [15, 6, 18, 17, 20, 3, 7, 2, 4, 13, 9];

fn in_order(arena: &BstArena, node: Option<BstNodeLink>, out: &mut Vec<i32>) {
    if let Some(n) = node {
        in_order(arena, arena.left(n), out);
        out.push(arena.key(n));
        in_order(arena, arena.right(n), out);
    }
}

fn check_links(arena: &BstArena, node: Option<BstNodeLink>) {
    if let Some(n) = node {
        for c in [arena.left(n), arena.right(n)].into_iter().flatten() {
            assert_eq!(arena.parent(c), Some(n));
        }
        check_links(arena, arena.left(n));
        check_links(arena, arena.right(n));
    }
}

fn search_key(arena: &BstArena, root: Option<BstNodeLink>, k: i32) -> Option<i32> {
    BstNode::tree_search(arena, root, k).map(|n| arena.key(n))
}

#[test]
fn sample_tree_queries() {
    let (arena, root) = build(&SAMPLE);
    let r = root.unwrap();
    assert_eq!(arena.key(r), 15);
    assert_eq!(search_key(&arena, root, 9), Some(9));
    assert_eq!(search_key(&arena, root, 15), Some(15));
    assert_eq!(search_key(&arena, root, 22), None);
    assert_eq!(arena.key(BstNode::minimum(&arena, r)), 2);
    assert_eq!(arena.key(BstNode::maximum(&arena, r)), 20);
    let max = BstNode::maximum(&arena, r);
    assert_eq!(BstNode::get_root(&arena, max), r);
}

#[test]
fn sample_tree_successors() {
    let (arena, root) = build(&SAMPLE);
    let succ = |k: i32| {
        let n = BstNode::tree_search(&arena, root, k).unwrap();
        BstNode::tree_successor(&arena, n).map(|s| arena.key(s))
    };
    assert_eq!(succ(2), Some(3));
    assert_eq!(succ(7), Some(9));
    assert_eq!(succ(9), Some(13));
    assert_eq!(succ(13), Some(15));
    assert_eq!(succ(15), Some(17));
    assert_eq!(succ(20), None);
    assert!(BstNode::tree_search(&arena, root, 22).is_none());
}

#[test]
fn sample_tree_delete_inner_node() {
    let (mut arena, mut root) = build(&SAMPLE);
    let r = root.unwrap();
    let z = BstNode::tree_search(&arena, root, 13).unwrap();
    BstNode::tree_delete(&mut arena, &mut root, z);
    assert_eq!(root, Some(r));
    assert_eq!(search_key(&arena, root, 13), None);
    let mut keys = Vec::new();
    in_order(&arena, root, &mut keys);
    assert_eq!(keys, vec![2, 3, 4, 6, 7, 9, 15, 17, 18, 20]);
    check_links(&arena, root);
    assert_eq!(arena.parent(z), None);
    assert_eq!(arena.left(z), None);
    assert_eq!(arena.right(z), None);
}

#[test]
fn transplant_six_with_its_right_child() {
    let (mut arena, root) = build(&SAMPLE);
    let six = BstNode::tree_search(&arena, root, 6).unwrap();
    let seven = arena.right(six).unwrap();
    assert_eq!(arena.key(seven), 7);
    BstNode::transplant(&mut arena, six, Some(seven));
    assert_eq!(search_key(&arena, root, 6), None);
    let r = root.unwrap();
    assert_eq!(arena.left(r), Some(seven));
    assert_eq!(arena.parent(seven), Some(r));
    for k in [15, 7, 9, 13, 18, 17, 20] {
        let n = BstNode::tree_search(&arena, root, k).unwrap();
        assert_eq!(arena.key(BstNode::get_root(&arena, n)), 15);
    }
}

#[test]
fn transplant_of_root_changes_nothing() {
    let (mut arena, root) = build(&[5, 3, 8]);
    let r = root.unwrap();
    let left = arena.left(r);
    BstNode::transplant(&mut arena, r, left);
    assert_eq!(arena.parent(left.unwrap()), Some(r));
    assert_eq!(arena.left(r), left);
}

#[test]
fn insert_into_empty_tree_sets_root() {
    let mut arena = BstArena::new();
    let mut root: Option<BstNodeLink> = None;
    BstNode::tree_insert(&mut arena, &mut root, 42);
    let r = root.unwrap();
    assert_eq!(arena.key(r), 42);
    assert_eq!(arena.parent(r), None);
    assert_eq!(arena.size(), 1);
}

#[test]
fn insert_keeps_in_order_sorted() {
    let keys = [50, 30, 70, 20, 40, 60, 80, 30, 50, -7, i32::MIN, i32::MAX];
    let (arena, root) = build(&keys);
    let mut got = Vec::new();
    in_order(&arena, root, &mut got);
    let mut want = keys.to_vec();
    want.sort();
    assert_eq!(got, want);
    check_links(&arena, root);
}

#[test]
fn duplicates_go_right_and_search_finds_first() {
    let (arena, root) = build(&[10, 10, 10]);
    let r = root.unwrap();
    assert_eq!(arena.left(r), None);
    let second = arena.right(r).unwrap();
    assert_eq!(arena.key(second), 10);
    assert_eq!(BstNode::tree_search(&arena, root, 10), Some(r));
}

#[test]
fn search_round_trip() {
    let keys = [8, 3, 10, 1, 6, 14, 4, 7, 13];
    let (arena, root) = build(&keys);
    for k in keys {
        assert_eq!(search_key(&arena, root, k), Some(k));
    }
    for k in [0, 2, 5, 9, 11, 12, 15, -1] {
        assert_eq!(search_key(&arena, root, k), None);
    }
    assert_eq!(BstNode::tree_search(&arena, None, 8), None);
}

#[test]
fn min_max_bound_every_key() {
    let (arena, root) = build(&SAMPLE);
    let r = root.unwrap();
    let lo = arena.key(BstNode::minimum(&arena, r));
    let hi = arena.key(BstNode::maximum(&arena, r));
    for k in SAMPLE {
        assert!(lo <= k && k <= hi);
    }
    let six = BstNode::tree_search(&arena, root, 6).unwrap();
    assert_eq!(arena.key(BstNode::minimum(&arena, six)), 2);
    assert_eq!(arena.key(BstNode::maximum(&arena, six)), 13);
}

#[test]
fn successor_is_next_in_order() {
    let (arena, root) = build(&SAMPLE);
    let mut keys = Vec::new();
    in_order(&arena, root, &mut keys);
    let mut n = BstNode::minimum(&arena, root.unwrap());
    let mut walked = vec![arena.key(n)];
    while let Some(s) = BstNode::tree_successor(&arena, n) {
        assert!(arena.key(s) >= arena.key(n));
        walked.push(arena.key(s));
        n = s;
    }
    assert_eq!(walked, keys);
}

#[test]
fn delete_leaf() {
    let (mut arena, mut root) = build(&SAMPLE);
    let z = BstNode::tree_search(&arena, root, 4).unwrap();
    BstNode::tree_delete(&mut arena, &mut root, z);
    let mut keys = Vec::new();
    in_order(&arena, root, &mut keys);
    assert_eq!(keys, vec![2, 3, 6, 7, 9, 13, 15, 17, 18, 20]);
    check_links(&arena, root);
}

#[test]
fn delete_node_with_one_child() {
    let (mut arena, mut root) = build(&SAMPLE);
    let z = BstNode::tree_search(&arena, root, 7).unwrap();
    BstNode::tree_delete(&mut arena, &mut root, z);
    let mut keys = Vec::new();
    in_order(&arena, root, &mut keys);
    assert_eq!(keys, vec![2, 3, 4, 6, 9, 13, 15, 17, 18, 20]);
    check_links(&arena, root);
}

#[test]
fn delete_node_whose_successor_is_deeper() {
    let (mut arena, mut root) = build(&SAMPLE);
    let z = BstNode::tree_search(&arena, root, 6).unwrap();
    BstNode::tree_delete(&mut arena, &mut root, z);
    let r = root.unwrap();
    assert_eq!(arena.key(arena.left(r).unwrap()), 7);
    let mut keys = Vec::new();
    in_order(&arena, root, &mut keys);
    assert_eq!(keys, vec![2, 3, 4, 7, 9, 13, 15, 17, 18, 20]);
    check_links(&arena, root);
}

#[test]
fn delete_root_moves_root_slot() {
    let (mut arena, mut root) = build(&SAMPLE);
    let old_root = root.unwrap();
    BstNode::tree_delete(&mut arena, &mut root, old_root);
    let r = root.unwrap();
    assert_eq!(arena.key(r), 17);
    assert_eq!(arena.parent(r), None);
    let mut keys = Vec::new();
    in_order(&arena, root, &mut keys);
    assert_eq!(keys, vec![2, 3, 4, 6, 7, 9, 13, 17, 18, 20]);
    check_links(&arena, root);
    for k in keys {
        let n = BstNode::tree_search(&arena, root, k).unwrap();
        assert_eq!(BstNode::get_root(&arena, n), r);
    }
}

#[test]
fn delete_root_with_one_child_and_last_node() {
    let (mut arena, mut root) = build(&[1, 2]);
    let one = root.unwrap();
    BstNode::tree_delete(&mut arena, &mut root, one);
    let two = root.unwrap();
    assert_eq!(arena.key(two), 2);
    assert_eq!(arena.parent(two), None);
    BstNode::tree_delete(&mut arena, &mut root, two);
    assert_eq!(root, None);
    assert_eq!(search_key(&arena, root, 2), None);
}

#[test]
fn non_root_delete_keeps_root_of_survivors() {
    let (mut arena, mut root) = build(&SAMPLE);
    let r = root.unwrap();
    let z = BstNode::tree_search(&arena, root, 18).unwrap();
    BstNode::tree_delete(&mut arena, &mut root, z);
    assert_eq!(root, Some(r));
    for k in [15, 6, 17, 20, 3, 7, 2, 4, 13, 9] {
        let n = BstNode::tree_search(&arena, root, k).unwrap();
        assert_eq!(BstNode::get_root(&arena, n), r);
    }
}

#[test]
fn depth_counts_parent_links() {
    let (arena, root) = build(&SAMPLE);
    let depth_of = |k: i32| BstNode::depth(&arena, BstNode::tree_search(&arena, root, k).unwrap());
    assert_eq!(depth_of(15), 0);
    assert_eq!(depth_of(6), 1);
    assert_eq!(depth_of(7), 2);
    assert_eq!(depth_of(13), 3);
    assert_eq!(depth_of(9), 4);
}

#[test]
fn new_node_is_detached_leaf() {
    let mut arena = BstArena::new();
    let n = BstNode::new_bst_nodelink(&mut arena, -3);
    assert_eq!(arena.key(n), -3);
    assert_eq!(arena.left(n), None);
    assert_eq!(arena.right(n), None);
    assert_eq!(arena.parent(n), None);
    assert_eq!(BstNode::get_root(&arena, n), n);
    assert_eq!(BstNode::depth(&arena, n), 0);
    assert_eq!(BstNode::tree_successor(&arena, n), None);
}

#[test]
fn delete_one_of_two_equal_keys_keeps_the_other() {
    let (mut arena, mut root) = build(&[10, 5, 10, 12]);
    let first = BstNode::tree_search(&arena, root, 10).unwrap();
    assert_eq!(Some(first), root);
    BstNode::tree_delete(&mut arena, &mut root, first);
    let again = BstNode::tree_search(&arena, root, 10).unwrap();
    assert_ne!(again, first);
    assert_eq!(arena.key(again), 10);
    let mut keys = Vec::new();
    in_order(&arena, root, &mut keys);
    assert_eq!(keys, vec![5, 10, 12]);
    check_links(&arena, root);
}

#[test]
fn insert_after_delete_keeps_order() {
    let (mut arena, mut root) = build(&SAMPLE);
    for k in [15, 6, 3] {
        let z = BstNode::tree_search(&arena, root, k).unwrap();
        BstNode::tree_delete(&mut arena, &mut root, z);
    }
    for k in [5, 16, 1, 14] {
        BstNode::tree_insert(&mut arena, &mut root, k);
    }
    let mut keys = Vec::new();
    in_order(&arena, root, &mut keys);
    assert_eq!(keys, vec![1, 2, 4, 5, 7, 9, 13, 14, 16, 17, 18, 20]);
    check_links(&arena, root);
    for k in [15, 6, 3] {
        assert_eq!(search_key(&arena, root, k), None);
    }
}
