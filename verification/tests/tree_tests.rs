use blink_tree::latch::LatchType;
use blink_tree::tree::{create_tree, Tree, TreeError};

fn tree_of(min_ord: usize, keys: &[u64]) -> Tree<u64> {
    let mut tree: Tree<u64> = create_tree(min_ord).unwrap();
    for k in keys {
        assert_eq!(tree.insert(*k), Ok(()));
    }
    tree
}

fn all_unlatched(tree: &Tree<u64>) -> bool {
    (0..tree.node_count()).all(|i| {
        let l = tree.node(i).latch.state();
        l.shared == 0 && !l.upgradable && !l.exclusive
    })
}

#[test]
fn order_zero_is_refused() {
    let r: Result<Tree<u64>, TreeError> = create_tree(0);
    assert!(matches!(r, Err(TreeError::ZeroOrder)));
}

#[test]
fn new_tree_is_one_empty_root_leaf() {
    let mut tree: Tree<u64> = create_tree(2).unwrap();
    assert_eq!(tree.node_count(), 1);
    assert_eq!(tree.root(), 0);
    assert_eq!(tree.min_ord(), 2);
    let root = tree.node(0);
    assert!(root.inner.root);
    assert!(root.inner.keys.is_empty());
    assert!(root.inner.children.is_empty());
    assert!(root.inner.right_link.is_none());
    assert!(root.inner.out_link.is_none());
    assert_eq!(tree.traverse(), Vec::<u64>::new());
    assert!(!tree.search(&1));
    assert!(!tree.delete(&1));
}

#[test]
fn example_of_order_two() {
    let mut tree: Tree<u64> = create_tree(2).unwrap();
    for k in [1u64, 2, 3, 4] {
        assert_eq!(tree.insert(k), Ok(()));
    }
    // the root leaf holds its four keys and is still alone
    assert_eq!(tree.node_count(), 1);
    assert_eq!(tree.node(tree.root()).inner.keys, vec![1, 2, 3, 4]);
    assert_eq!(tree.insert(5), Ok(()));
    // now it has split
    assert_eq!(tree.node_count(), 3);
    assert_eq!(tree.traverse(), vec![1, 2, 3, 4, 5]);
    assert!(tree.search(&3));
    assert!(tree.delete(&3));
    assert_eq!(tree.traverse(), vec![1, 2, 4, 5]);
    assert!(!tree.search(&3));
    assert!(all_unlatched(&tree));
}

#[test]
fn one_split_of_a_full_leaf() {
    for min_ord in 1usize..6 {
        let n = 2 * min_ord as u64 + 1;
        let mut tree: Tree<u64> = create_tree(min_ord).unwrap();
        for k in 0..n - 1 {
            assert_eq!(tree.insert(k), Ok(()));
            assert_eq!(tree.node_count(), 1);
        }
        assert_eq!(tree.insert(n - 1), Ok(()));
        assert_eq!(tree.node_count(), 3);
        let root = tree.node(tree.root());
        assert!(root.inner.root);
        assert_eq!(root.inner.children, vec![0, 1]);
        assert_eq!(root.inner.keys, vec![min_ord as u64 + 1]);
        let left = tree.node(0);
        let right = tree.node(1);
        assert_eq!(left.inner.keys.len(), min_ord + 1);
        assert_eq!(right.inner.keys.len(), min_ord);
        assert_eq!(left.inner.right_link, Some(1));
        assert_eq!(right.inner.right_link, None);
        assert_eq!(left.inner.low_key, None);
        assert_eq!(left.inner.high_key, Some(min_ord as u64 + 1));
        assert_eq!(right.inner.low_key, Some(min_ord as u64 + 1));
        assert_eq!(right.inner.high_key, None);
        assert!(!left.inner.root);
        assert!(!right.inner.root);
        assert_eq!(tree.traverse(), (0..n).collect::<Vec<u64>>());
    }
}

#[test]
fn merge_of_two_lean_leaves() {
    for min_ord in 1usize..6 {
        let m = min_ord as u64;
        // 2m + 1 keys split into m + 1 and m; take one from the left to have m and m
        let mut tree = tree_of(min_ord, &(0..2 * m + 1).collect::<Vec<u64>>());
        assert!(tree.delete(&0));
        assert_eq!(tree.node(0).inner.keys.len(), min_ord);
        assert_eq!(tree.node(1).inner.keys.len(), min_ord);
        assert_eq!(tree.node_count(), 3);
        let old_root = tree.root();
        // one more from the left leaf makes the merge due
        assert!(tree.delete(&1));
        let survivor = tree.node(0);
        let retired = tree.node(1);
        assert_eq!(survivor.inner.keys.len(), 2 * min_ord - 1);
        assert_eq!(survivor.inner.keys, (2..2 * m + 1).collect::<Vec<u64>>());
        assert_eq!(survivor.inner.right_link, None);
        assert_eq!(survivor.inner.high_key, None);
        assert_eq!(survivor.inner.out_link, None);
        assert_eq!(retired.inner.out_link, Some(0));
        assert!(retired.inner.keys.is_empty());
        // the root was left with one child, which is the root now
        assert_eq!(tree.root(), 0);
        assert!(tree.node(0).inner.root);
        assert!(!tree.node(old_root).inner.root);
        assert_eq!(tree.node(old_root).inner.out_link, Some(0));
        assert_eq!(tree.traverse(), (2..2 * m + 1).collect::<Vec<u64>>());
        assert!(all_unlatched(&tree));
    }
}

#[test]
fn merge_into_the_left_sibling_of_the_last_child() {
    let mut tree = tree_of(2, &[1, 2, 3, 4, 5]);
    // leaves [1,2,3] and [4,5]
    assert!(tree.delete(&3));
    // leaves [1,2] and [4,5]; taking from the right one merges it into the left
    assert!(tree.delete(&5));
    assert_eq!(tree.node(0).inner.keys, vec![1, 2, 4]);
    assert_eq!(tree.node(1).inner.out_link, Some(0));
    assert_eq!(tree.root(), 0);
    assert_eq!(tree.traverse(), vec![1, 2, 4]);
}

#[test]
fn key_passes_from_the_right_sibling() {
    let mut tree = tree_of(2, &[1, 2, 3, 4, 5, 6]);
    // leaves [1,2,3] and [4,5,6]
    assert!(tree.delete(&1));
    assert!(tree.delete(&2));
    // the left leaf would be left with [3]: the right one passes 4 over
    assert_eq!(tree.node_count(), 3);
    assert_eq!(tree.node(0).inner.keys, vec![3, 4]);
    assert_eq!(tree.node(1).inner.keys, vec![5, 6]);
    assert_eq!(tree.node(0).inner.high_key, Some(5));
    assert_eq!(tree.node(1).inner.low_key, Some(5));
    assert_eq!(tree.node(tree.root()).inner.keys, vec![5]);
    assert_eq!(tree.node(1).inner.out_link, None);
    assert_eq!(tree.traverse(), vec![3, 4, 5, 6]);
    assert!(tree.search(&4));
    assert!(tree.search(&5));
}

#[test]
fn key_passes_from_the_left_sibling() {
    let mut tree = tree_of(2, &[1, 2, 3, 4, 5]);
    // leaves [1,2,3] and [4,5]
    assert!(tree.delete(&5));
    // the right leaf would be left with [4]: the left one passes 3 over
    assert_eq!(tree.node(0).inner.keys, vec![1, 2]);
    assert_eq!(tree.node(1).inner.keys, vec![3, 4]);
    assert_eq!(tree.node(0).inner.high_key, Some(3));
    assert_eq!(tree.node(1).inner.low_key, Some(3));
    assert_eq!(tree.node(tree.root()).inner.keys, vec![3]);
    assert_eq!(tree.traverse(), vec![1, 2, 3, 4]);
    assert!(tree.search(&3));
}

#[test]
fn duplicate_is_refused_and_changes_nothing() {
    let mut tree = tree_of(2, &[5, 1, 9]);
    assert_eq!(tree.insert(5), Err(TreeError::DuplicateKey));
    assert_eq!(tree.traverse(), vec![1, 5, 9]);
    assert_eq!(tree.node_count(), 1);
    assert!(all_unlatched(&tree));
}

#[test]
fn delete_of_an_absent_key_changes_nothing() {
    let mut tree = tree_of(2, &[10, 20, 30, 40, 50, 60, 70]);
    let before = tree.traverse();
    let nodes = tree.node_count();
    assert!(!tree.delete(&35));
    assert_eq!(tree.traverse(), before);
    assert_eq!(tree.node_count(), nodes);
    assert!(tree.delete(&30));
    assert!(!tree.delete(&30));
    assert_eq!(tree.traverse(), vec![10, 20, 40, 50, 60, 70]);
}

#[test]
fn traversal_ascends_through_inserts_and_deletes() {
    let mut tree: Tree<u64> = create_tree(2).unwrap();
    let mut model: Vec<u64> = Vec::new();
    let mut x: u64 = 12345;
    for step in 0..2000u64 {
        x = x.wrapping_mul(6364136223846793005).wrapping_add(1442695040888963407);
        let key = (x >> 33) % 200;
        if step % 3 == 2 {
            let was = model.contains(&key);
            assert_eq!(tree.delete(&key), was);
            model.retain(|k| *k != key);
        } else {
            let was = model.contains(&key);
            let r = tree.insert(key);
            if was {
                assert_eq!(r, Err(TreeError::DuplicateKey));
            } else {
                assert_eq!(r, Ok(()));
                model.push(key);
            }
        }
        if step % 50 == 0 {
            model.sort();
            let seen = tree.traverse();
            assert_eq!(seen, model);
            assert!(seen.windows(2).all(|w| w[0] < w[1]));
        }
    }
    model.sort();
    assert_eq!(tree.traverse(), model);
    for k in 0..200u64 {
        assert_eq!(tree.search(&k), model.contains(&k));
    }
    assert!(all_unlatched(&tree));
}

#[test]
fn tree_grows_and_shrinks_by_levels() {
    let mut tree: Tree<u64> = create_tree(1).unwrap();
    for k in 0..100u64 {
        assert_eq!(tree.insert(k), Ok(()));
    }
    assert_eq!(tree.traverse(), (0..100).collect::<Vec<u64>>());
    assert!(!tree.node(tree.root()).inner.children.is_empty());
    for k in 0..100u64 {
        assert!(tree.search(&k));
    }
    for k in (0..100u64).rev() {
        assert!(tree.delete(&k));
        assert!(!tree.search(&k));
    }
    assert_eq!(tree.traverse(), Vec::<u64>::new());
    let root = tree.node(tree.root());
    assert!(root.inner.root);
    assert!(root.inner.children.is_empty());
    assert!(root.inner.keys.is_empty());
}

#[test]
fn inserts_in_either_order_give_the_same_keys() {
    let mut one: Tree<u64> = create_tree(2).unwrap();
    let mut two: Tree<u64> = create_tree(2).unwrap();
    let low = [1u64, 2, 3, 4, 5, 6, 7];
    let high = [101u64, 102, 103, 104, 105, 106];
    for k in low {
        one.insert(k).unwrap();
    }
    for k in high {
        one.insert(k).unwrap();
    }
    for (a, b) in high.iter().zip(low.iter()) {
        two.insert(*a).unwrap();
        two.insert(*b).unwrap();
    }
    two.insert(7).unwrap();
    assert_eq!(one.traverse(), two.traverse());
    assert!(one.delete(&4));
    assert!(one.delete(&104));
    assert!(two.delete(&104));
    assert!(two.delete(&4));
    assert_eq!(one.traverse(), two.traverse());
}

#[test]
fn no_insert_is_lost() {
    let threads = 8u64;
    let each = 25u64;
    let mut tree: Tree<u64> = create_tree(3).unwrap();
    // the keys of "thread" t are t, t + 8, t + 16, ...; they are dealt out in turn
    for i in 0..each {
        for t in 0..threads {
            assert_eq!(tree.insert(t + threads * i), Ok(()));
        }
    }
    assert_eq!(tree.traverse().len() as u64, threads * each);
}

#[test]
fn move_right_recovers_after_a_split() {
    let mut tree = tree_of(2, &[10, 20, 30, 40]);
    // a traversal stands at the root leaf, latched, and is put off
    let at = tree.root();
    tree.latch(at, LatchType::Shared);
    tree.unlatch(at, LatchType::Shared);
    // meanwhile the leaf is split, and 50 lands in the new right sibling
    assert_eq!(tree.insert(50), Ok(()));
    assert_eq!(tree.node(at).inner.keys, vec![10, 20, 30]);
    assert!(!tree.node(at).inner.keys.contains(&50));
    // the traversal takes up again where it stood
    tree.latch(at, LatchType::Shared);
    assert_eq!(tree.next_hop(at, &50), Some(1));
    assert_eq!(tree.next_hop(at, &20), None);
    let here = tree.move_right(at, &50, LatchType::Shared);
    assert_eq!(here, 1);
    assert_eq!(tree.node(here).inner.keys, vec![40, 50]);
    assert_eq!(tree.node(here).latch.state().shared, 1);
    assert_eq!(tree.node(at).latch.state().shared, 0);
    tree.unlatch(here, LatchType::Shared);
    assert!(all_unlatched(&tree));
}

#[test]
fn move_right_follows_out_links() {
    let mut tree = tree_of(2, &[1, 2, 3, 4, 5]);
    assert!(tree.delete(&3));
    assert!(tree.delete(&5));
    // node 1 was merged into node 0, node 2 gave its place as root to node 0
    tree.latch(1, LatchType::Upgradable);
    assert_eq!(tree.move_right(1, &4, LatchType::Upgradable), 0);
    tree.unlatch(0, LatchType::Upgradable);
    tree.latch(2, LatchType::Excl);
    assert_eq!(tree.move_right(2, &4, LatchType::Excl), 0);
    assert!(tree.node(0).latch.state().exclusive);
    tree.unlatch(0, LatchType::Excl);
    assert!(all_unlatched(&tree));
}

#[test]
fn move_right_stays_where_the_key_belongs() {
    let mut tree = tree_of(2, &[1, 2, 3, 4, 5]);
    tree.latch(0, LatchType::Shared);
    assert_eq!(tree.move_right(0, &2, LatchType::Shared), 0);
    assert_eq!(tree.move_right(0, &4, LatchType::Shared), 1);
    assert_eq!(tree.move_right(1, &1, LatchType::Shared), 1);
    tree.unlatch(1, LatchType::Shared);
    assert!(all_unlatched(&tree));
}

#[test]
fn upgrade_turns_the_latch_of_a_node() {
    let mut tree = tree_of(2, &[1]);
    tree.latch(0, LatchType::Upgradable);
    tree.upgrade(0);
    assert!(tree.node(0).latch.state().exclusive);
    assert!(!tree.node(0).latch.state().upgradable);
    tree.unlatch(0, LatchType::Excl);
    assert!(all_unlatched(&tree));
}

#[test]
fn separators_are_the_least_keys_to_their_right() {
    let mut tree: Tree<u64> = create_tree(2).unwrap();
    for k in 1..=30u64 {
        tree.insert(k * 10).unwrap();
    }
    let mut at = tree.root();
    while !tree.node(at).inner.children.is_empty() {
        let node = tree.node(at);
        assert_eq!(node.inner.children.len(), node.inner.keys.len() + 1);
        for (i, sep) in node.inner.keys.iter().enumerate() {
            let mut low = node.inner.children[i + 1];
            while !tree.node(low).inner.children.is_empty() {
                low = tree.node(low).inner.children[0];
            }
            assert_eq!(tree.node(low).inner.keys[0], *sep);
        }
        at = tree.node(at).inner.children[0];
    }
}

#[test]
fn insert_reports_the_split_of_a_full_leaf_as_stated() {
    // a single leaf of order 3 with 6 keys takes a seventh
    let mut tree = tree_of(3, &[10, 20, 30, 40, 50, 60]);
    assert_eq!(tree.insert(35), Ok(()));
    assert_eq!(tree.node(0).inner.keys, vec![10, 20, 30, 35]);
    assert_eq!(tree.node(1).inner.keys, vec![40, 50, 60]);
    assert_eq!(tree.node(2).inner.keys, vec![40]);
    assert_eq!(tree.node(2).inner.children, vec![0, 1]);
    assert_eq!(tree.root(), 2);
}

#[test]
fn internal_nodes_split_and_merge() {
    let mut tree: Tree<u64> = create_tree(1).unwrap();
    for k in 1..=7u64 {
        tree.insert(k).unwrap();
    }
    // with order 1 seven keys take three levels
    let root = tree.node(tree.root());
    assert!(!root.inner.children.is_empty());
    let child = tree.node(root.inner.children[0]);
    assert!(!child.inner.children.is_empty());
    assert_eq!(tree.traverse(), vec![1, 2, 3, 4, 5, 6, 7]);
    for k in [4u64, 2, 6, 1, 7, 3, 5] {
        assert!(tree.search(&k));
        assert!(tree.delete(&k));
        assert!(!tree.search(&k));
        let seen = tree.traverse();
        assert!(seen.windows(2).all(|w| w[0] < w[1]));
    }
    assert!(tree.node(tree.root()).inner.children.is_empty());
    assert!(all_unlatched(&tree));
}

#[test]
fn keys_of_other_types() {
    let mut tree: Tree<(u8, i32)> = create_tree(2).unwrap();
    for k in [(1u8, 5i32), (0, 9), (1, -3), (0, -9), (2, 0), (1, 0)] {
        assert_eq!(tree.insert(k), Ok(()));
    }
    assert_eq!(tree.traverse(), vec![(0, -9), (0, 9), (1, -3), (1, 0), (1, 5), (2, 0)]);
    assert!(tree.search(&(1, 0)));
    assert!(!tree.search(&(1, 1)));
    assert!(tree.delete(&(0, 9)));
    assert_eq!(tree.traverse(), vec![(0, -9), (1, -3), (1, 0), (1, 5), (2, 0)]);
}

#[test]
fn low_and_high_keys_fence_every_node() {
    let mut tree: Tree<u64> = create_tree(2).unwrap();
    let mut x: u64 = 7;
    for _ in 0..300 {
        x = x.wrapping_mul(6364136223846793005).wrapping_add(1442695040888963407);
        let _ = tree.insert((x >> 40) % 500);
    }
    for _ in 0..150 {
        x = x.wrapping_mul(6364136223846793005).wrapping_add(1442695040888963407);
        let _ = tree.delete(&((x >> 40) % 500));
    }
    for i in 0..tree.node_count() {
        let n = &tree.node(i).inner;
        if n.out_link.is_some() {
            continue;
        }
        for k in &n.keys {
            assert!(n.low_key.map_or(true, |l| l <= *k));
            assert!(n.high_key.map_or(true, |h| *k < h));
        }
        match n.right_link {
            Some(r) => assert_eq!(tree.node(r).inner.low_key, n.high_key),
            None => assert!(n.high_key.is_none()),
        }
        if i != tree.root() {
            assert!(n.keys.len() >= 2 && n.keys.len() <= 4);
        }
    }
}

fn assert_well_kept(tree: &Tree<u64>) {
    let m = tree.min_ord();
    for i in 0..tree.node_count() {
        let n = &tree.node(i).inner;
        if n.out_link.is_some() {
            assert!(n.out_link.unwrap() < tree.node_count());
            continue;
        }
        assert_eq!(n.root, i == tree.root());
        assert_eq!(n.min_ord, m);
        assert!(n.keys.windows(2).all(|w| w[0] < w[1]));
        assert!(n.keys.len() <= 2 * m);
        if i != tree.root() {
            assert!(n.keys.len() >= m);
        }
        for k in &n.keys {
            assert!(n.low_key.map_or(true, |l| l <= *k));
            assert!(n.high_key.map_or(true, |h| *k < h));
        }
        match n.right_link {
            Some(r) => {
                assert!(tree.node(r).inner.out_link.is_none());
                assert_eq!(tree.node(r).inner.low_key, n.high_key);
                assert_eq!(tree.node(r).inner.children.is_empty(), n.children.is_empty());
            }
            None => assert!(n.high_key.is_none()),
        }
        if !n.children.is_empty() {
            assert_eq!(n.children.len(), n.keys.len() + 1);
            for (j, c) in n.children.iter().enumerate() {
                let child = &tree.node(*c).inner;
                assert!(child.out_link.is_none());
                let low = if j == 0 { n.low_key } else { Some(n.keys[j - 1]) };
                let high = if j == n.keys.len() { n.high_key } else { Some(n.keys[j]) };
                assert_eq!(child.low_key, low);
                assert_eq!(child.high_key, high);
            }
        }
    }
}

#[test]
fn every_node_is_well_kept_through_many_changes() {
    for min_ord in [1usize, 2, 3, 5] {
        let mut tree: Tree<u64> = create_tree(min_ord).unwrap();
        let mut held: Vec<u64> = Vec::new();
        let mut x: u64 = 99 + min_ord as u64;
        for round in 0..6u64 {
            for _ in 0..400 {
                x = x.wrapping_mul(6364136223846793005).wrapping_add(1442695040888963407);
                let key = (x >> 35) % 1000;
                if round % 2 == 0 || (x >> 20) % 4 == 0 {
                    if tree.insert(key).is_ok() {
                        held.push(key);
                    }
                } else if tree.delete(&key) {
                    held.retain(|k| *k != key);
                }
            }
            assert_well_kept(&tree);
            held.sort();
            assert_eq!(tree.traverse(), held);
        }
        for key in held.clone() {
            assert!(tree.delete(&key));
        }
        assert_well_kept(&tree);
        assert_eq!(tree.traverse(), Vec::<u64>::new());
        assert!(all_unlatched(&tree));
    }
}
