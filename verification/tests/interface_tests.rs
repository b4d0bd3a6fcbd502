use blink_tree::sync::{Latch, RwLatch, RwSynchronized, Synchronized};
use blink_tree::tree::{create_tree, BTree, Tree, TreeError};
use rayon::ThreadPoolBuilder;

fn fill<B: BTree<u64>>(index: &mut B, keys: &[u64]) -> usize {
    keys.iter().filter(|k| index.insert(**k).is_ok()).count()
}

fn count_present<B: BTree<u64>>(index: &mut B, keys: &[u64]) -> usize {
    keys.iter().filter(|k| index.search(*k)).count()
}

#[test]
fn tree_through_its_interface() {
    let mut tree: Tree<u64> = create_tree(2).unwrap();
    assert_eq!(fill(&mut tree, &[3, 1, 2, 3, 1]), 3);
    assert_eq!(count_present(&mut tree, &[0, 1, 2, 3, 4]), 3);
    assert!(BTree::delete(&mut tree, &2));
    assert!(!BTree::delete(&mut tree, &2));
    assert_eq!(BTree::insert(&mut tree, 1), Err(TreeError::DuplicateKey));
    assert_eq!(tree.traverse(), vec![1, 3]);
}

#[test]
fn no_insert_is_lost_between_threads() {
    let threads = 8u64;
    let each = 200u64;
    let shared = Synchronized::init(create_tree::<u64>(2).unwrap());
    let pool = ThreadPoolBuilder::new().num_threads(threads as usize).build().unwrap();
    pool.scope(|scope| {
        for t in 0..threads {
            let cell = shared.clone();
            scope.spawn(move |_| {
                for i in 0..each {
                    let mut held = cell.latch();
                    assert_eq!(held.get_mut().insert(t * each + i), Ok(()));
                    cell.unlatch(held);
                }
            });
        }
    });
    let mut held = shared.latch();
    let keys = held.get_mut().traverse();
    shared.unlatch(held);
    assert_eq!(keys.len() as u64, threads * each);
    assert_eq!(keys, (0..threads * each).collect::<Vec<u64>>());
}

#[test]
fn threads_on_disjoint_ranges_leave_the_same_keys() {
    let run = |order: [u64; 2]| -> Vec<u64> {
        let shared = RwSynchronized::init(create_tree::<u64>(2).unwrap());
        let pool = ThreadPoolBuilder::new().num_threads(2).build().unwrap();
        pool.scope(|scope| {
            for base in order {
                let cell = shared.clone();
                scope.spawn(move |_| {
                    for i in 0..100u64 {
                        let mut held = cell.acquire_excl();
                        held.get_mut().unwrap().insert(base + i).unwrap();
                        cell.release_excl(held);
                    }
                    for i in (0..100u64).step_by(3) {
                        let held = cell.acquire_upgradable();
                        let mut held = cell.upgrade_shared(held);
                        assert!(held.get_mut().unwrap().delete(&(base + i)));
                        cell.release_excl(held);
                    }
                });
            }
        });
        let mut held = shared.acquire_excl();
        let keys = held.get_mut().unwrap().traverse();
        shared.release_excl(held);
        keys
    };
    let one = run([0, 1000]);
    let two = run([1000, 0]);
    assert_eq!(one, two);
    assert_eq!(one.len(), 2 * 66);
}

#[test]
fn only_an_exclusive_hold_writes() {
    let cell = RwSynchronized::init(1u64);
    let mut shared = cell.acquire_shared();
    assert!(shared.get_mut().is_none());
    cell.release_shared(shared);
    let mut upgradable = cell.acquire_upgradable();
    assert!(upgradable.get_mut().is_none());
    let mut excl = cell.upgrade_shared(upgradable);
    *excl.get_mut().unwrap() += 1;
    cell.release_excl(excl);
    let held = cell.acquire_shared();
    assert_eq!(*held.get(), 2);
    cell.release_shared(held);
}
