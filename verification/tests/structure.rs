use persistent_avl::fat_node::FatNodeStore;
use persistent_avl::node_access::NodeAccess;
use persistent_avl::opt::OptStore;
use persistent_avl::path_copy::PathCopyStore;
use persistent_avl::tree::PersistentTree;

/// The tree under `node` as of time `t`, written as (left datum right), with
/// `.` for no node. Checks on the way that every recorded height is one more
/// than the greater height below, and that the two heights below differ by
/// at most one.
fn draw<B: NodeAccess>(tree: &PersistentTree<u64, B>, node: Option<usize>, t: u64) -> (String, u64) {
    match node {
        None => (".".to_string(), 0),
        Some(n) => {
            let store = tree.store();
            let (left, lh) = draw(tree, store.get_left(n, t), t);
            let (right, rh) = draw(tree, store.get_right(n, t), t);
            let height = store.get_height(n, t);
            assert_eq!(height, 1 + lh.max(rh));
            assert!(lh.max(rh) - lh.min(rh) <= 1);
            let datum = tree.datum(store.get_datum(n));
            (format!("({} {} {})", left, datum, right), height)
        }
    }
}

fn picture<B: NodeAccess>(tree: &PersistentTree<u64, B>, t: u64) -> String {
    draw(tree, tree.root(t), t).0
}

fn build<B: NodeAccess>(items: &[u64]) -> PersistentTree<u64, B> {
    let mut tree = PersistentTree::new();
    for (i, x) in items.iter().enumerate() {
        assert_eq!(tree.insert(*x), i as u64);
    }
    tree
}

fn five_three_eight<B: NodeAccess>() {
    let tree: PersistentTree<u64, B> = build(&[5, 3, 8]);
    assert_eq!(tree.in_order(2), vec![&3, &5, &8]);
    assert_eq!(picture(&tree, 2), "((. 3 .) 5 (. 8 .))");
    assert_eq!(picture(&tree, 1), "((. 3 .) 5 .)");
    assert_eq!(picture(&tree, 0), "(. 5 .)");
}

#[test]
fn insert_without_rotation() {
    five_three_eight::<FatNodeStore>();
    five_three_eight::<PathCopyStore>();
    five_three_eight::<OptStore>();
}

fn one_two_three<B: NodeAccess>() {
    let tree: PersistentTree<u64, B> = build(&[1, 2, 3]);
    assert_eq!(picture(&tree, 2), "((. 1 .) 2 (. 3 .))");
    assert_eq!(picture(&tree, 1), "(. 1 (. 2 .))");
    assert_eq!(tree.predecessor(&5, 0), Some(&1));
    assert_eq!(tree.successor(&0, 1), Some(&1));
}

#[test]
fn insert_with_single_left_rotation() {
    one_two_three::<FatNodeStore>();
    one_two_three::<PathCopyStore>();
    one_two_three::<OptStore>();
}

fn three_two_one<B: NodeAccess>() {
    let tree: PersistentTree<u64, B> = build(&[3, 2, 1]);
    assert_eq!(picture(&tree, 2), "((. 1 .) 2 (. 3 .))");
    assert_eq!(picture(&tree, 1), "((. 2 .) 3 .)");
}

#[test]
fn insert_with_single_right_rotation() {
    three_two_one::<FatNodeStore>();
    three_two_one::<PathCopyStore>();
    three_two_one::<OptStore>();
}

fn double_rotations<B: NodeAccess>() {
    let tree: PersistentTree<u64, B> = build(&[3, 1, 2]);
    assert_eq!(picture(&tree, 2), "((. 1 .) 2 (. 3 .))");
    let tree: PersistentTree<u64, B> = build(&[1, 3, 2]);
    assert_eq!(picture(&tree, 2), "((. 1 .) 2 (. 3 .))");
}

#[test]
fn insert_with_double_rotation() {
    double_rotations::<FatNodeStore>();
    double_rotations::<PathCopyStore>();
    double_rotations::<OptStore>();
}

fn ten_to_forty<B: NodeAccess>() {
    let tree: PersistentTree<u64, B> = build(&[10, 20, 30, 40]);
    assert_eq!(picture(&tree, 3), "((. 10 .) 20 (. 30 (. 40 .)))");
    assert_eq!(picture(&tree, 2), "((. 10 .) 20 (. 30 .))");
    assert!(!tree.contains(&25, 3));
    assert_eq!(tree.predecessor(&25, 3), Some(&20));
    assert_eq!(tree.successor(&25, 3), Some(&30));
}

#[test]
fn insert_four_ascending() {
    ten_to_forty::<FatNodeStore>();
    ten_to_forty::<PathCopyStore>();
    ten_to_forty::<OptStore>();
}

fn delete_eight<B: NodeAccess>() {
    let mut tree: PersistentTree<u64, B> = build(&[5, 3, 8, 7, 9]);
    assert_eq!(picture(&tree, 4), "((. 3 .) 5 ((. 7 .) 8 (. 9 .)))");
    assert_eq!(tree.delete(8), Some(5));
    assert_eq!(tree.in_order(5), vec![&3, &5, &7, &9]);
    assert_eq!(picture(&tree, 5), "((. 3 .) 5 ((. 7 .) 9 .))");
    assert_eq!(picture(&tree, 4), "((. 3 .) 5 ((. 7 .) 8 (. 9 .)))");
    assert!(tree.contains(&8, 4));
    assert!(!tree.contains(&8, 5));
}

#[test]
fn delete_with_two_children() {
    delete_eight::<FatNodeStore>();
    delete_eight::<PathCopyStore>();
    delete_eight::<OptStore>();
}

fn delete_deep_successor<B: NodeAccess>() {
    let mut tree: PersistentTree<u64, B> = build(&[50, 30, 70, 20, 40, 60, 80, 55, 65, 90, 52]);
    let before = picture(&tree, 10);
    assert_eq!(before, "((((. 20 .) 30 (. 40 .)) 50 ((. 52 .) 55 .)) 60 ((. 65 .) 70 (. 80 (. 90 .))))");
    assert_eq!(tree.delete(50), Some(11));
    assert_eq!(picture(&tree, 11), "((((. 20 .) 30 (. 40 .)) 52 (. 55 .)) 60 ((. 65 .) 70 (. 80 (. 90 .))))");
    assert_eq!(tree.delete(60), Some(12));
    assert_eq!(picture(&tree, 12), "((((. 20 .) 30 (. 40 .)) 52 (. 55 .)) 65 ((. 70 .) 80 (. 90 .)))");
    assert_eq!(tree.delete(80), Some(13));
    assert_eq!(picture(&tree, 13), "((((. 20 .) 30 (. 40 .)) 52 (. 55 .)) 65 ((. 70 .) 90 .))");
    assert_eq!(picture(&tree, 10), before);
    assert_eq!(picture(&tree, 11), "((((. 20 .) 30 (. 40 .)) 52 (. 55 .)) 60 ((. 65 .) 70 (. 80 (. 90 .))))");
}

#[test]
fn delete_promotes_least_of_right_subtree() {
    delete_deep_successor::<FatNodeStore>();
    delete_deep_successor::<PathCopyStore>();
    delete_deep_successor::<OptStore>();
}

fn delete_simple_cases<B: NodeAccess>() {
    let mut tree: PersistentTree<u64, B> = build(&[5]);
    assert_eq!(tree.delete(4), None);
    assert_eq!(tree.delete(5), Some(1));
    assert_eq!(picture(&tree, 1), ".");
    assert_eq!(picture(&tree, 0), "(. 5 .)");
    assert_eq!(tree.delete(5), None);
    assert_eq!(tree.insert(6), 2);
    assert_eq!(tree.insert(4), 3);
    assert_eq!(tree.delete(6), Some(4));
    assert_eq!(picture(&tree, 4), "(. 4 .)");
    assert_eq!(picture(&tree, 3), "((. 4 .) 6 .)");
    assert_eq!(picture(&tree, 99), "(. 4 .)");
}

#[test]
fn delete_root_and_leaf() {
    delete_simple_cases::<FatNodeStore>();
    delete_simple_cases::<PathCopyStore>();
    delete_simple_cases::<OptStore>();
}

fn equal_data<B: NodeAccess>() {
    let mut tree: PersistentTree<u64, B> = build(&[5, 5, 5, 6, 5, 5]);
    assert_eq!(tree.in_order(5), vec![&5, &5, &5, &5, &5, &6]);
    assert_eq!(tree.in_order(3), vec![&5, &5, &5, &6]);
    picture(&tree, 5);
    assert_eq!(tree.delete(5), Some(6));
    assert_eq!(tree.in_order(6), vec![&5, &5, &5, &5, &6]);
    assert_eq!(tree.in_order(5), vec![&5, &5, &5, &5, &5, &6]);
    picture(&tree, 6);
}

#[test]
fn equal_data_stay_in_order() {
    equal_data::<FatNodeStore>();
    equal_data::<PathCopyStore>();
    equal_data::<OptStore>();
}

fn next(seed: &mut u64) -> u64 {
    *seed = seed.wrapping_mul(6364136223846793005).wrapping_add(1442695040888963407);
    *seed >> 33
}

fn every_version_balanced_and_ordered<B: NodeAccess>(seed: u64) {
    let mut seed = seed;
    let mut tree: PersistentTree<u64, B> = PersistentTree::new();
    let mut stamps: Vec<u64> = Vec::new();
    let mut pictures: Vec<String> = Vec::new();
    for _ in 0..300 {
        let x = next(&mut seed) % 50;
        let stamp = if next(&mut seed) % 3 == 0 { tree.delete(x) } else { Some(tree.insert(x)) };
        if let Some(s) = stamp {
            if let Some(last) = stamps.last() {
                assert!(*last < s);
            }
            stamps.push(s);
            pictures.push(picture(&tree, s));
        }
    }
    for (i, s) in stamps.iter().enumerate() {
        assert_eq!(picture(&tree, *s), pictures[i]);
        let data = tree.in_order(*s);
        for pair in data.windows(2) {
            assert!(pair[0] <= pair[1]);
        }
    }
}

#[test]
fn versions_stay_balanced_ordered_and_unchanged() {
    every_version_balanced_and_ordered::<FatNodeStore>(11);
    every_version_balanced_and_ordered::<PathCopyStore>(12);
    every_version_balanced_and_ordered::<OptStore>(13);
}

#[test]
fn same_shapes_in_every_store() {
    let mut seed = 21u64;
    let mut fat: PersistentTree<u64, FatNodeStore> = PersistentTree::new();
    let mut copy: PersistentTree<u64, PathCopyStore> = PersistentTree::new();
    let mut opt: PersistentTree<u64, OptStore> = PersistentTree::new();
    let mut count = 0u64;
    for _ in 0..300 {
        let x = next(&mut seed) % 30;
        if next(&mut seed) % 3 == 0 {
            let a = fat.delete(x);
            assert_eq!(a, copy.delete(x));
            assert_eq!(a, opt.delete(x));
            if a.is_some() {
                count += 1;
            }
        } else {
            let a = fat.insert(x);
            assert_eq!(a, copy.insert(x));
            assert_eq!(a, opt.insert(x));
            count += 1;
        }
    }
    for t in 0..count {
        assert_eq!(picture(&fat, t), picture(&copy, t));
        assert_eq!(picture(&fat, t), picture(&opt, t));
        for x in 0..31u64 {
            assert_eq!(fat.contains(&x, t), copy.contains(&x, t));
            assert_eq!(fat.contains(&x, t), opt.contains(&x, t));
            assert_eq!(fat.predecessor(&x, t), copy.predecessor(&x, t));
            assert_eq!(fat.predecessor(&x, t), opt.predecessor(&x, t));
            assert_eq!(fat.successor(&x, t), copy.successor(&x, t));
            assert_eq!(fat.successor(&x, t), opt.successor(&x, t));
        }
    }
}

fn growth_of_store<B: NodeAccess>(seed: u64) -> (usize, usize) {
    let mut seed = seed;
    let mut tree: PersistentTree<u64, B> = PersistentTree::new();
    let mut inserts = 0usize;
    let mut latest = 0u64;
    for _ in 0..400 {
        let x = next(&mut seed) % 60;
        let before = tree.store().len();
        let height = draw(&tree, tree.root(latest), latest).1 as usize;
        let made = if next(&mut seed) % 3 == 0 {
            tree.delete(x)
        } else {
            inserts += 1;
            Some(tree.insert(x))
        };
        let after = tree.store().len();
        assert!(before <= after);
        assert!(after - before <= 2 + 6 * height);
        match made {
            Some(stamp) => latest = stamp,
            None => assert_eq!(before, after),
        }
    }
    (inserts, tree.store().len())
}

#[test]
fn fat_store_has_one_node_for_each_insertion() {
    let (inserts, nodes) = growth_of_store::<FatNodeStore>(31);
    assert_eq!(inserts, nodes);
}

#[test]
fn copying_stores_grow_within_bounds() {
    let (inserts, copied) = growth_of_store::<PathCopyStore>(31);
    let (_, split) = growth_of_store::<OptStore>(31);
    assert!(inserts < split);
    assert!(split < copied);
}
