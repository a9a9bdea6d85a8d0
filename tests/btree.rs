use btree::{fill_btree, BTree, Node};

fn keys_of(node: &Node) -> Vec<usize> {
    node.keys.clone()
}

fn check_node(node: &Node, t: usize, is_root: bool, depth: usize, leaf_depth: &mut Option<usize>, out: &mut Vec<usize>) {
    assert!(node.keys.len() <= 2 * t - 1);
    if !is_root {
        assert!(node.keys.len() >= t - 1);
    }
    assert_eq!(node.leaf, node.children.is_empty());
    if node.leaf {
        match leaf_depth {
            Some(d) => assert_eq!(*d, depth),
            None => *leaf_depth = Some(depth),
        }
        out.extend(node.keys.iter().copied());
    } else {
        assert_eq!(node.children.len(), node.keys.len() + 1);
        for (i, child) in node.children.iter().enumerate() {
            check_node(child, t, false, depth + 1, leaf_depth, out);
            if i < node.keys.len() {
                out.push(node.keys[i]);
            }
        }
    }
}

/// Checks every structural invariant and returns the in-order walk of the keys.
fn check_tree(tree: &BTree, t: usize) -> Vec<usize> {
    let mut out = Vec::new();
    let mut leaf_depth = None;
    check_node(tree.root(), t, true, 0, &mut leaf_depth, &mut out);
    for w in out.windows(2) {
        assert!(w[0] < w[1]);
    }
    if !tree.root().leaf {
        assert!(!tree.root().keys.is_empty());
    }
    out
}

fn depth_of(tree: &BTree) -> usize {
    let mut d = 0;
    let mut n = tree.root();
    while !n.leaf {
        n = &n.children[0];
        d += 1;
    }
    d
}

/// A small deterministic generator of pseudo-random numbers.
struct Lcg(u64);

impl Lcg {
    fn below(&mut self, n: u64) -> usize {
        self.0 = self.0.wrapping_mul(6364136223846793005).wrapping_add(1442695040888963407);
        ((self.0 >> 33) % n) as usize
    }
}

#[test]
fn test_btree_search() {
    let mut btree = BTree::degree(3);
    fill_btree(&mut btree);
    let (search_result, slot) = btree.search(12).unwrap();
    assert_eq!(slot, 1);
    assert_eq!(search_result.keys.len(), 2);
    assert_eq!(search_result.keys[0], 12);
    assert_eq!(search_result.keys[1], 15);
    assert_eq!(search_result.children.len(), 3);
    assert_eq!(search_result.children[0].keys[0], 10);
    assert_eq!(search_result.children[0].keys[1], 11);
    assert_eq!(search_result.children[1].keys[0], 13);
    assert_eq!(search_result.children[1].keys[1], 14);
    assert_eq!(search_result.children[2].keys[0], 16);
    assert_eq!(search_result.children[2].keys[1], 17);
    assert_eq!(search_result.children[2].keys[2], 18);
    assert_eq!(search_result.children[2].keys[3], 19);

    let (search_result1, _) = btree.search(6).unwrap();
    assert_eq!(search_result1.keys.len(), 2);
    assert_eq!(search_result1.children.len(), 3);
    assert_eq!(search_result1.children[0].keys[0], 1);
    assert_eq!(search_result1.children[0].keys[1], 2);

    let (search_result2, _) = btree.search(1).unwrap();
    assert_eq!(search_result2.keys.len(), 2);
    assert_eq!(search_result2.leaf, true);

    let mut btree_with_order = BTree::order(6);
    fill_btree(&mut btree_with_order);
    assert_eq!(btree, btree_with_order);
}

#[test]
fn test_random_btree_filling() {
    let mut btree = BTree::order(9);
    let mut rng = Lcg(0x5eed);
    let mut count = 0;
    loop {
        if count > 99 {
            break;
        }
        count += 1;
        btree.insert(rng.below(100));
    }
    btree.insert(101);
    let (node, _) = btree.search(101).unwrap();
    assert_eq!(node.leaf, true);
    check_tree(&btree, 4);
}

#[test]
fn search_reports_slot_of_key() {
    let mut btree = BTree::degree(3);
    fill_btree(&mut btree);
    for k in 1..=19 {
        let (node, slot) = btree.search(k).unwrap();
        assert!(slot >= 1 && slot <= node.keys.len());
        assert_eq!(node.keys[slot - 1], k);
    }
    assert!(btree.search(0).is_none());
    assert!(btree.search(20).is_none());
}

#[test]
fn fill_gives_sorted_valid_tree() {
    let mut btree = BTree::degree(3);
    fill_btree(&mut btree);
    assert_eq!(check_tree(&btree, 3), (1..=19).collect::<Vec<usize>>());
}

#[test]
fn order_halves_into_degree() {
    let mut a = BTree::order(7);
    let mut b = BTree::degree(3);
    for k in [5, 1, 9, 3, 7, 2, 8] {
        a.insert(k);
        b.insert(k);
    }
    assert_eq!(a, b);
}

#[test]
fn empty_tree_finds_nothing() {
    let mut btree = BTree::degree(2);
    for k in [0, 1, 7, usize::MAX] {
        assert!(btree.search(k).is_none());
        assert!(!btree.delete(k));
    }
    assert!(btree.root().leaf);
    assert!(btree.root().keys.is_empty());
}

#[test]
fn insert_twice_is_insert_once() {
    let mut once = BTree::degree(2);
    let mut twice = BTree::degree(2);
    for k in [4, 8, 15, 16, 23, 42] {
        once.insert(k);
        twice.insert(k);
        twice.insert(k);
    }
    assert_eq!(once, twice);
    assert_eq!(check_tree(&twice, 2), vec![4, 8, 15, 16, 23, 42]);
}

#[test]
fn delete_twice_is_delete_once() {
    let mut btree = BTree::degree(3);
    fill_btree(&mut btree);
    assert!(btree.delete(7));
    let mut other = BTree::degree(3);
    fill_btree(&mut other);
    assert!(other.delete(7));
    assert!(!other.delete(7));
    assert_eq!(btree, other);
    assert!(other.search(7).is_none());
}

#[test]
fn permuted_inserts_hold_same_keys() {
    let keys: Vec<usize> = (0..60).map(|i| (i * 37) % 61).collect();
    let mut reversed = keys.clone();
    reversed.reverse();
    let mut a = BTree::degree(2);
    let mut b = BTree::degree(2);
    for &k in &keys {
        a.insert(k);
    }
    for &k in &reversed {
        b.insert(k);
    }
    for k in 0..70 {
        assert_eq!(a.search(k).is_some(), b.search(k).is_some());
    }
    assert_eq!(check_tree(&a, 2), check_tree(&b, 2));
}

#[test]
fn insert_all_then_delete_all_leaves_empty_leaf() {
    for t in 2..5 {
        let n = 50;
        let mut btree = BTree::degree(t);
        for k in 1..=n {
            btree.insert(k);
        }
        let mut rng = Lcg(t as u64);
        let mut order: Vec<usize> = (1..=n).collect();
        for i in (1..order.len()).rev() {
            let j = rng.below(i as u64 + 1);
            order.swap(i, j);
        }
        for (done, &k) in order.iter().enumerate() {
            assert!(btree.delete(k));
            let rest = check_tree(&btree, t);
            assert_eq!(rest.len(), n - done - 1);
            assert!(!rest.contains(&k));
        }
        assert!(btree.root().leaf);
        assert!(btree.root().keys.is_empty());
    }
}

#[test]
fn full_root_does_not_split() {
    let mut btree = BTree::degree(3);
    for k in 1..=5 {
        btree.insert(k);
    }
    assert!(btree.root().leaf);
    assert_eq!(keys_of(btree.root()), vec![1, 2, 3, 4, 5]);
}

#[test]
fn first_split_on_key_2t() {
    let mut btree = BTree::degree(3);
    for k in 1..=6 {
        btree.insert(k);
    }
    assert_eq!(depth_of(&btree), 1);
    assert_eq!(keys_of(btree.root()), vec![3]);
    assert_eq!(keys_of(&btree.root().children[0]), vec![1, 2]);
    assert_eq!(keys_of(&btree.root().children[1]), vec![4, 5, 6]);
}

#[test]
fn split_chain_degree_two() {
    // Full nodes are split on the way down: the root at the fourth key, the
    // right leaf at the sixth.
    let mut btree = BTree::degree(2);
    for k in 1..=7 {
        btree.insert(k);
    }
    let root = btree.root();
    assert_eq!(depth_of(&btree), 1);
    assert_eq!(keys_of(root), vec![2, 4]);
    assert_eq!(keys_of(&root.children[0]), vec![1]);
    assert_eq!(keys_of(&root.children[1]), vec![3]);
    assert_eq!(keys_of(&root.children[2]), vec![5, 6, 7]);
}

#[test]
fn delete_leaf_key() {
    let mut btree = BTree::degree(3);
    fill_btree(&mut btree);
    assert!(btree.delete(11));
    assert!(btree.search(11).is_none());
    let mut expected: Vec<usize> = (1..=19).collect();
    expected.retain(|&k| k != 11);
    assert_eq!(check_tree(&btree, 3), expected);
}

#[test]
fn delete_merges_and_shrinks_root() {
    let mut btree = BTree::degree(2);
    for k in 1..=9 {
        btree.insert(k);
    }
    let root = btree.root();
    assert_eq!(depth_of(&btree), 2);
    assert_eq!(keys_of(root), vec![4]);
    assert_eq!(keys_of(&root.children[0]), vec![2]);
    assert_eq!(keys_of(&root.children[1]), vec![6]);
    assert_eq!(keys_of(&root.children[1].children[1]), vec![7, 8, 9]);
    // Both children of the root are thin: they merge with the root key, the
    // thin leaves below merge too, and the emptied root gives way to its child.
    assert!(btree.delete(1));
    assert_eq!(depth_of(&btree), 1);
    let root = btree.root();
    assert_eq!(keys_of(root), vec![4, 6]);
    assert_eq!(keys_of(&root.children[0]), vec![2, 3]);
    assert_eq!(keys_of(&root.children[1]), vec![5]);
    assert_eq!(keys_of(&root.children[2]), vec![7, 8, 9]);
    assert_eq!(check_tree(&btree, 2), vec![2, 3, 4, 5, 6, 7, 8, 9]);
}

#[test]
fn delete_internal_key_uses_successor() {
    let mut btree = BTree::degree(2);
    for k in 1..=8 {
        btree.insert(k);
    }
    // Root [2, 4, 6] over the leaves [1] [3] [5] [7, 8].
    assert_eq!(keys_of(btree.root()), vec![2, 4, 6]);
    assert!(btree.delete(6));
    let root = btree.root();
    assert_eq!(keys_of(root), vec![2, 4, 7]);
    assert_eq!(keys_of(&root.children[3]), vec![8]);
    assert!(btree.search(6).is_none());
    assert_eq!(check_tree(&btree, 2), vec![1, 2, 3, 4, 5, 7, 8]);
}

#[test]
fn delete_internal_key_uses_predecessor() {
    let mut btree = BTree::degree(2);
    for k in [1, 2, 3, 4, 5, 6, 7, 8] {
        btree.insert(k);
    }
    btree.insert(0);
    // Root [2, 4, 6] over the leaves [0, 1] [3] [5] [7, 8].
    assert!(btree.delete(2));
    let root = btree.root();
    assert_eq!(keys_of(root), vec![1, 4, 6]);
    assert_eq!(keys_of(&root.children[0]), vec![0]);
    assert_eq!(check_tree(&btree, 2), vec![0, 1, 3, 4, 5, 6, 7, 8]);
}

#[test]
fn delete_internal_key_merges_thin_children() {
    let mut btree = BTree::degree(2);
    for k in 1..=8 {
        btree.insert(k);
    }
    // Key 4 sits between the thin leaves [3] and [5]: they merge around it.
    assert!(btree.delete(4));
    let root = btree.root();
    assert_eq!(keys_of(root), vec![2, 6]);
    assert_eq!(keys_of(&root.children[1]), vec![3, 5]);
    assert_eq!(check_tree(&btree, 2), vec![1, 2, 3, 5, 6, 7, 8]);
}

#[test]
fn delete_internal_key_uses_successor_or_merge() {
    let mut btree = BTree::degree(3);
    fill_btree(&mut btree);
    for k in [12, 15, 6, 9, 3] {
        assert!(btree.delete(k));
        assert!(btree.search(k).is_none());
    }
    assert_eq!(
        check_tree(&btree, 3),
        vec![1, 2, 4, 5, 7, 8, 10, 11, 13, 14, 16, 17, 18, 19]
    );
}

#[test]
fn delete_absent_key_keeps_tree() {
    let mut btree = BTree::degree(2);
    for k in 1..=7 {
        btree.insert(k);
    }
    let mut same = BTree::degree(2);
    for k in 1..=7 {
        same.insert(k);
    }
    assert!(!btree.delete(100));
    assert_eq!(btree, same);
}

#[test]
fn membership_tracks_inserts_and_deletes() {
    let mut btree = BTree::degree(2);
    let mut present = vec![false; 40];
    let mut rng = Lcg(99);
    for _ in 0..400 {
        let k = rng.below(40);
        if rng.below(2) == 0 {
            btree.insert(k);
            present[k] = true;
        } else {
            assert_eq!(btree.delete(k), present[k]);
            present[k] = false;
        }
        for (j, &p) in present.iter().enumerate() {
            assert_eq!(btree.search(j).is_some(), p);
        }
        check_tree(&btree, 2);
    }
}

#[test]
fn node_builders() {
    let leaf = Node::empty();
    assert!(leaf.leaf && leaf.keys.is_empty() && leaf.children.is_empty());
    let n = Node::new(vec![5], vec![Node::new(vec![1], Vec::new(), true), Node::new(vec![9], Vec::new(), true)], false);
    assert_eq!(n.keys, vec![5]);
    assert_eq!(n.children.len(), 2);
    assert!(!n.leaf);
}
