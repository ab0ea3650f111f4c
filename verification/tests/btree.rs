use neoqlite::engine::btree::{BTree, Node};

fn keys_in_order(node: &Node<i64, String>, out: &mut Vec<i64>) {
    if node.is_leaf {
        out.extend(node.keys.iter().cloned());
    } else {
        for i in 0..node.keys.len() {
            keys_in_order(&node.children[i], out);
            out.push(node.keys[i]);
        }
        keys_in_order(&node.children[node.keys.len()], out);
    }
}

fn tree_keys(tree: &BTree<i64, String>) -> Vec<i64> {
    let mut out = Vec::new();
    if let Some(root) = &tree.root {
        keys_in_order(root, &mut out);
    }
    out
}

/// Checks the shape below `node` and returns the depth of its leaves.
fn check_shape(node: &Node<i64, String>, t: usize, is_root: bool) -> usize {
    assert_eq!(node.order, t);
    assert_eq!(node.keys.len(), node.values.len());
    assert!(node.keys.len() <= 2 * t - 1);
    if !is_root {
        assert!(node.keys.len() >= t - 1);
    }
    for pair in node.keys.windows(2) {
        assert!(pair[0] < pair[1]);
    }
    if node.is_leaf {
        assert!(node.children.is_empty());
        0
    } else {
        assert_eq!(node.children.len(), node.keys.len() + 1);
        let depth = check_shape(&node.children[0], t, false);
        for child in node.children.iter().skip(1) {
            assert_eq!(check_shape(child, t, false), depth);
        }
        depth + 1
    }
}

fn check_tree(tree: &BTree<i64, String>) {
    if let Some(root) = &tree.root {
        assert!(!root.keys.is_empty());
        check_shape(root, tree.order, true);
    }
    let keys = tree_keys(tree);
    for pair in keys.windows(2) {
        assert!(pair[0] < pair[1]);
    }
    let values = tree.values_in_order();
    let expected: Vec<String> = keys.iter().map(|k| format!("v{}", k)).collect();
    assert_eq!(values, expected);
}

fn filled(order: usize, keys: &[i64]) -> BTree<i64, String> {
    let mut tree = BTree::new(order);
    for k in keys {
        assert!(tree.search(k).is_none());
        tree.insert(*k, format!("v{}", k));
        check_tree(&tree);
    }
    tree
}

#[test]
fn new_tree_is_empty() {
    let tree: BTree<i64, String> = BTree::new(2);
    assert!(tree.root.is_none());
    assert_eq!(tree.order, 2);
    assert!(tree.values_in_order().is_empty());
    assert!(tree.search(&1).is_none());
}

#[test]
fn node_is_full_at_twice_the_degree_less_one() {
    let mut node: Node<i64, String> = Node::new(true, 2);
    assert!(!node.is_full());
    node.keys.push(1);
    node.values.push("a".to_string());
    assert!(!node.is_full());
    node.keys.push(2);
    node.values.push("b".to_string());
    assert!(!node.is_full());
    node.keys.push(3);
    node.values.push("c".to_string());
    assert!(node.is_full());
    let wide: Node<i64, String> = Node::new(true, 3);
    assert!(!wide.is_full());
}

#[test]
fn node_of_degree_zero_is_never_full() {
    let node: Node<i64, String> = Node::new(true, 0);
    assert!(!node.is_full());
}

#[test]
fn first_insert_makes_a_leaf_root() {
    let mut tree: BTree<i64, String> = BTree::new(2);
    tree.insert(7, "seven".to_string());
    let root = tree.root.as_ref().unwrap();
    assert!(root.is_leaf);
    assert_eq!(root.keys, vec![7]);
    assert_eq!(root.values, vec!["seven".to_string()]);
    assert_eq!(tree.search(&7), Some(&"seven".to_string()));
}

#[test]
fn full_root_is_split_around_its_middle_key() {
    let tree = filled(2, &[1, 2, 3, 4]);
    let root = tree.root.as_ref().unwrap();
    assert!(!root.is_leaf);
    assert_eq!(root.keys, vec![2]);
    assert_eq!(root.children.len(), 2);
    assert_eq!(root.children[0].keys, vec![1]);
    assert_eq!(root.children[1].keys, vec![3, 4]);
}

#[test]
fn search_returns_the_value_inserted() {
    let keys = [10, 20, 5, 6, 12, 30, 7, 17, 3, 1, 25, 40, 35, 2, 8];
    let mut tree: BTree<i64, String> = BTree::new(2);
    for (n, k) in keys.iter().enumerate() {
        tree.insert(*k, format!("v{}", k));
        for seen in &keys[..=n] {
            assert_eq!(tree.search(seen), Some(&format!("v{}", seen)));
        }
        for unseen in &keys[n + 1..] {
            assert_eq!(tree.search(unseen), None);
        }
    }
}

#[test]
fn values_come_out_in_key_order() {
    let tree = filled(2, &[10, 20, 5, 6, 12, 30, 7, 17]);
    assert_eq!(tree_keys(&tree), vec![5, 6, 7, 10, 12, 17, 20, 30]);
    assert_eq!(
        tree.values_in_order(),
        vec!["v5", "v6", "v7", "v10", "v12", "v17", "v20", "v30"]
    );
}

#[test]
fn scenario_of_eight_keys() {
    let mut tree = filled(2, &[10, 20, 5, 6, 12, 30, 7, 17]);
    assert_eq!(
        tree.values_in_order(),
        vec!["v5", "v6", "v7", "v10", "v12", "v17", "v20", "v30"]
    );
    tree.delete(&6);
    check_tree(&tree);
    tree.delete(&13);
    check_tree(&tree);
    assert_eq!(
        tree.values_in_order(),
        vec!["v5", "v7", "v10", "v12", "v17", "v20", "v30"]
    );
    for k in [5, 7, 10, 12, 17, 20, 30] {
        assert!(tree.root.is_some());
        tree.delete(&k);
        check_tree(&tree);
        assert_eq!(tree.search(&k), None);
    }
    assert!(tree.root.is_none());
    assert!(tree.values_in_order().is_empty());
}

#[test]
fn deleting_an_absent_key_changes_nothing() {
    let mut tree = filled(2, &[4, 8, 15, 16, 23, 42]);
    let before = tree.values_in_order();
    for k in [0, 5, 9, 17, 100] {
        tree.delete(&k);
        assert_eq!(tree.values_in_order(), before);
    }
    tree.delete(&15);
    let after = tree.values_in_order();
    assert_eq!(after, vec!["v4", "v8", "v16", "v23", "v42"]);
    tree.delete(&15);
    assert_eq!(tree.values_in_order(), after);
    let mut empty: BTree<i64, String> = BTree::new(2);
    empty.delete(&1);
    assert!(empty.root.is_none());
}

#[test]
fn deleting_every_key_empties_the_tree() {
    let keys: Vec<i64> = (0..60).map(|i| (i * 37) % 61).collect();
    for order in [2usize, 3, 4] {
        let mut ascending = filled(order, &keys);
        for k in 0..61 {
            ascending.delete(&k);
            check_tree(&ascending);
        }
        assert!(ascending.root.is_none());
        let mut descending = filled(order, &keys);
        for k in (0..61).rev() {
            descending.delete(&k);
            check_tree(&descending);
        }
        assert!(descending.root.is_none());
        let mut shuffled = filled(order, &keys);
        for i in 0..61 {
            let k = (i * 23 + 11) % 61;
            shuffled.delete(&k);
            check_tree(&shuffled);
            assert_eq!(shuffled.search(&k), None);
        }
        assert!(shuffled.root.is_none());
        assert!(shuffled.values_in_order().is_empty());
    }
}

#[test]
fn inserts_and_deletes_interleaved_match_a_sorted_model() {
    let mut tree: BTree<i64, String> = BTree::new(3);
    let mut model: std::collections::BTreeMap<i64, String> = std::collections::BTreeMap::new();
    let mut x: i64 = 12345;
    for step in 0..600 {
        x = (x * 1103515245 + 12345) % 2147483648;
        let k = (x / 65536) % 50;
        if step % 3 == 2 {
            tree.delete(&k);
            model.remove(&k);
        } else if tree.search(&k).is_none() {
            tree.insert(k, format!("v{}", k));
            model.insert(k, format!("v{}", k));
        }
        check_tree(&tree);
        let expected: Vec<String> = model.values().cloned().collect();
        assert_eq!(tree.values_in_order(), expected);
        for probe in 0..50 {
            assert_eq!(tree.search(&probe), model.get(&probe));
        }
    }
}

#[test]
fn deleting_from_an_internal_node_takes_the_predecessor() {
    // root [2], children [1] and [3, 4]; then 0 makes the left child [0, 1]
    let mut tree = filled(2, &[1, 2, 3, 4, 0]);
    tree.delete(&2);
    let root = tree.root.as_ref().unwrap();
    assert_eq!(root.keys, vec![1]);
    assert_eq!(root.values, vec!["v1".to_string()]);
    assert_eq!(root.children[0].keys, vec![0]);
    assert_eq!(root.children[1].keys, vec![3, 4]);
}

#[test]
fn deleting_from_an_internal_node_takes_the_successor() {
    // root [2], children [1] and [3, 4]
    let mut tree = filled(2, &[1, 2, 3, 4]);
    tree.delete(&2);
    let root = tree.root.as_ref().unwrap();
    assert_eq!(root.keys, vec![3]);
    assert_eq!(root.values, vec!["v3".to_string()]);
    assert_eq!(root.children[0].keys, vec![1]);
    assert_eq!(root.children[1].keys, vec![4]);
}

#[test]
fn deleting_merges_children_and_shrinks_the_tree() {
    // root [2], children [1] and [3]
    let mut tree = filled(2, &[1, 2, 3, 4]);
    tree.delete(&4);
    tree.delete(&2);
    let root = tree.root.as_ref().unwrap();
    assert!(root.is_leaf);
    assert_eq!(root.keys, vec![1, 3]);
}

#[test]
fn descent_borrows_from_the_left_sibling() {
    // root [2], children [0, 1] and [3]
    let mut tree = filled(2, &[1, 2, 3, 4, 0]);
    tree.delete(&4);
    tree.delete(&3);
    let root = tree.root.as_ref().unwrap();
    assert_eq!(root.keys, vec![1]);
    assert_eq!(root.children[0].keys, vec![0]);
    assert_eq!(root.children[1].keys, vec![2]);
}

#[test]
fn descent_borrows_from_the_right_sibling() {
    // root [2], children [1] and [3, 4]
    let mut tree = filled(2, &[1, 2, 3, 4]);
    tree.delete(&1);
    let root = tree.root.as_ref().unwrap();
    assert_eq!(root.keys, vec![3]);
    assert_eq!(root.children[0].keys, vec![2]);
    assert_eq!(root.children[1].keys, vec![4]);
}

#[test]
fn tree_of_text_keys() {
    let mut tree: BTree<String, i64> = BTree::new(2);
    for (i, word) in ["pear", "apple", "fig", "plum", "kiwi", "lime", "date"].iter().enumerate() {
        tree.insert(word.to_string(), i as i64);
    }
    assert_eq!(tree.values_in_order(), vec![1, 6, 2, 4, 5, 0, 3]);
    tree.delete(&"fig".to_string());
    assert_eq!(tree.search(&"fig".to_string()), None);
    assert_eq!(tree.search(&"plum".to_string()), Some(&3));
    assert_eq!(tree.values_in_order(), vec![1, 6, 4, 5, 0, 3]);
}

fn leaf(keys: &[i64]) -> Box<Node<i64, String>> {
    let mut node = Node::new(true, 2);
    for k in keys {
        node.keys.push(*k);
        node.values.push(format!("v{}", k));
    }
    Box::new(node)
}

fn tree_over(keys: &[i64], children: Vec<Box<Node<i64, String>>>) -> BTree<i64, String> {
    let mut root = Node::new(false, 2);
    for k in keys {
        root.keys.push(*k);
        root.values.push(format!("v{}", k));
    }
    root.children = children;
    let mut tree = BTree::new(2);
    tree.root = Some(Box::new(root));
    check_tree(&tree);
    tree
}

fn layout(tree: &BTree<i64, String>) -> (Vec<i64>, Vec<Vec<i64>>) {
    let root = tree.root.as_ref().unwrap();
    (root.keys.clone(), root.children.iter().map(|c| c.keys.clone()).collect())
}

#[test]
fn split_root_sends_its_middle_key_up() {
    let mut tree: BTree<i64, String> = BTree::new(2);
    for k in [10, 20, 5] {
        tree.insert(k, format!("v{}", k));
    }
    assert!(tree.root.as_ref().unwrap().is_leaf);
    assert_eq!(tree.root.as_ref().unwrap().keys, vec![5, 10, 20]);
    tree.insert(6, "v6".to_string());
    assert_eq!(layout(&tree), (vec![10], vec![vec![5, 6], vec![20]]));
    let root = tree.root.as_ref().unwrap();
    assert_eq!(root.values, vec!["v10".to_string()]);
    assert_eq!(root.children[0].values, vec!["v5".to_string(), "v6".to_string()]);
    assert!(root.children.iter().all(|c| c.is_leaf));
}

#[test]
fn split_child_sends_its_middle_key_up() {
    let mut tree = tree_over(&[10], vec![leaf(&[5, 6, 7]), leaf(&[12, 20, 30])]);
    tree.insert(40, "v40".to_string());
    assert_eq!(layout(&tree), (vec![10, 20], vec![vec![5, 6, 7], vec![12], vec![30, 40]]));
    assert_eq!(tree.root.as_ref().unwrap().values, vec!["v10".to_string(), "v20".to_string()]);
    let mut tree = tree_over(&[10], vec![leaf(&[5, 6, 7]), leaf(&[12, 20, 30])]);
    tree.insert(15, "v15".to_string());
    assert_eq!(layout(&tree), (vec![10, 20], vec![vec![5, 6, 7], vec![12, 15], vec![30]]));
}

#[test]
fn predecessor_is_taken_before_successor() {
    let mut tree = tree_over(&[10, 20], vec![leaf(&[5, 6, 7]), leaf(&[12, 17]), leaf(&[30])]);
    tree.delete(&10);
    assert_eq!(layout(&tree), (vec![7, 20], vec![vec![5, 6], vec![12, 17], vec![30]]));
    assert_eq!(tree.root.as_ref().unwrap().values, vec!["v7".to_string(), "v20".to_string()]);
}

#[test]
fn successor_is_taken_where_the_left_child_cannot_give() {
    let mut tree = tree_over(&[10, 20], vec![leaf(&[5]), leaf(&[12, 17]), leaf(&[30])]);
    tree.delete(&10);
    assert_eq!(layout(&tree), (vec![12, 20], vec![vec![5], vec![17], vec![30]]));
    assert_eq!(tree.root.as_ref().unwrap().values, vec!["v12".to_string(), "v20".to_string()]);
}

#[test]
fn children_that_cannot_give_are_merged_around_the_key() {
    let mut tree = tree_over(&[12, 20], vec![leaf(&[7]), leaf(&[17]), leaf(&[30])]);
    tree.delete(&12);
    assert_eq!(layout(&tree), (vec![20], vec![vec![7, 17], vec![30]]));
    let root = tree.root.as_ref().unwrap();
    assert_eq!(root.values, vec!["v20".to_string()]);
    assert_eq!(root.children[0].values, vec!["v7".to_string(), "v17".to_string()]);
}

#[test]
fn last_child_is_merged_with_the_sibling_before_it() {
    let mut tree = tree_over(&[10, 20], vec![leaf(&[5]), leaf(&[12]), leaf(&[30])]);
    tree.delete(&30);
    assert_eq!(layout(&tree), (vec![10], vec![vec![5], vec![12, 20]]));
    let root = tree.root.as_ref().unwrap();
    assert_eq!(root.values, vec!["v10".to_string()]);
    assert_eq!(root.children[1].values, vec!["v12".to_string(), "v20".to_string()]);
}

#[test]
fn first_child_is_merged_with_the_sibling_after_it() {
    let mut tree = tree_over(&[10, 20], vec![leaf(&[5]), leaf(&[12]), leaf(&[30])]);
    tree.delete(&5);
    assert_eq!(layout(&tree), (vec![20], vec![vec![10, 12], vec![30]]));
}
