use persistent_avl::fat_node_avl::FatNodeAvl;
use persistent_avl::opt_avl::OptAVL;
use persistent_avl::path_copy_avl::PathCopyAvl;
use persistent_avl::persistent_avl_tree::PersistentAvlTree;

fn next(seed: &mut u64) -> u64 {
    *seed = seed.wrapping_mul(6364136223846793005).wrapping_add(1442695040888963407);
    *seed >> 33
}

fn run_against_model<T: PersistentAvlTree<Data = u64, Timestamp = u64>>(mut tree: T, seed: u64, steps: usize, range: u64) {
    let mut seed = seed;
    let mut versions: Vec<Vec<u64>> = Vec::new();
    let mut current: Vec<u64> = Vec::new();
    for _ in 0..steps {
        let x = next(&mut seed) % range;
        if next(&mut seed) % 3 == 0 {
            let got = tree.delete(x);
            match current.iter().position(|y| *y == x) {
                Some(i) => {
                    current.remove(i);
                    versions.push(current.clone());
                    assert_eq!(got, Some(versions.len() as u64 - 1));
                }
                None => assert_eq!(got, None),
            }
        } else {
            let got = tree.insert(x);
            current.push(x);
            versions.push(current.clone());
            assert_eq!(got, versions.len() as u64 - 1);
        }
    }
    for (t, have) in versions.iter().enumerate() {
        for x in 0..range + 1 {
            let t = t as u64;
            assert_eq!(tree.contains(&x, t), have.contains(&x));
            let pred = have.iter().filter(|y| **y <= x).max();
            let succ = have.iter().filter(|y| **y >= x).min();
            assert_eq!(tree.predecessor(&x, t), pred);
            assert_eq!(tree.successor(&x, t), succ);
        }
    }
    let late = versions.len() as u64 + 7;
    if let Some(have) = versions.last() {
        for x in 0..range + 1 {
            assert_eq!(tree.contains(&x, late), have.contains(&x));
            assert_eq!(tree.contains(&x, u64::MAX), have.contains(&x));
        }
    }
}

#[test]
fn fat_node_matches_model() {
    run_against_model(FatNodeAvl::<u64>::new(), 1, 400, 40);
    run_against_model(FatNodeAvl::<u64>::new(), 2, 400, 5);
}

#[test]
fn path_copy_matches_model() {
    run_against_model(PathCopyAvl::<u64>::new(), 3, 400, 40);
    run_against_model(PathCopyAvl::<u64>::new(), 4, 400, 5);
}

#[test]
fn bounded_copy_matches_model() {
    run_against_model(OptAVL::<u64>::new(), 5, 400, 40);
    run_against_model(OptAVL::<u64>::new(), 6, 400, 5);
}

#[test]
fn duplicates_then_larger() {
    let mut tree = FatNodeAvl::<u64>::new();
    for x in [5u64, 5, 5, 6] {
        tree.insert(x);
    }
    assert!(tree.contains(&5, 3));
    assert!(tree.contains(&6, 3));
    assert_eq!(tree.successor(&6, 3), Some(&6));
    assert_eq!(tree.predecessor(&4, 3), None);
    assert_eq!(tree.delete(5), Some(4));
    assert_eq!(tree.delete(5), Some(5));
    assert!(tree.contains(&5, 5));
    assert_eq!(tree.delete(5), Some(6));
    assert!(!tree.contains(&5, 6));
    assert_eq!(tree.delete(5), None);
    assert!(tree.contains(&5, 3));
}

#[test]
fn present_exactly_if_inserted_more_often_than_deleted() {
    let mut tree = PathCopyAvl::<u64>::new();
    let mut seed = 77u64;
    let mut log: Vec<(bool, u64)> = Vec::new();
    for _ in 0..300 {
        let x = next(&mut seed) % 12;
        if next(&mut seed) % 2 == 0 {
            if tree.delete(x).is_some() {
                log.push((false, x));
            }
        } else {
            tree.insert(x);
            log.push((true, x));
        }
    }
    for t in 0..log.len() {
        for x in 0..12u64 {
            let inserted = log[..=t].iter().filter(|(ins, y)| *ins && *y == x).count();
            let deleted = log[..=t].iter().filter(|(ins, y)| !*ins && *y == x).count();
            assert!(deleted <= inserted);
            assert_eq!(tree.contains(&x, t as u64), inserted > deleted);
        }
    }
}

#[test]
fn timestamps_count_the_versions() {
    let mut tree = OptAVL::<u64>::new();
    assert_eq!(tree.insert(4), 0);
    assert_eq!(tree.delete(9), None);
    assert_eq!(tree.insert(4), 1);
    assert_eq!(tree.delete(9), None);
    assert_eq!(tree.delete(4), Some(2));
    assert_eq!(tree.delete(4), Some(3));
    assert_eq!(tree.delete(4), None);
    assert_eq!(tree.insert(1), 4);
    assert!(tree.contains(&4, 0));
    assert!(tree.contains(&4, 2));
    assert!(!tree.contains(&4, 3));
    assert!(tree.contains(&1, 4));
    assert!(tree.contains(&1, 1000));
}

#[test]
fn strings_and_pairs_as_data() {
    let mut words = FatNodeAvl::<String>::new();
    for w in ["pear", "apple", "fig", "quince", "banana", "cherry"] {
        words.insert(w.to_string());
    }
    assert_eq!(words.predecessor(&"grape".to_string(), 5), Some(&"fig".to_string()));
    assert_eq!(words.successor(&"grape".to_string(), 5), Some(&"pear".to_string()));
    assert_eq!(words.successor(&"grape".to_string(), 1), Some(&"pear".to_string()));
    assert_eq!(words.predecessor(&"grape".to_string(), 1), Some(&"apple".to_string()));
    assert_eq!(words.delete("fig".to_string()), Some(6));
    assert_eq!(words.predecessor(&"grape".to_string(), 6), Some(&"cherry".to_string()));
    assert!(words.contains(&"fig".to_string(), 5));
    let mut pairs = OptAVL::<(u8, i32)>::new();
    for p in [(1u8, -5i32), (0, 7), (1, -9), (2, 0)] {
        pairs.insert(p);
    }
    assert_eq!(pairs.predecessor(&(1, -6), 3), Some(&(1, -9)));
    assert_eq!(pairs.successor(&(1, -6), 3), Some(&(1, -5)));
    assert_eq!(pairs.successor(&(2, 1), 3), None);
}
