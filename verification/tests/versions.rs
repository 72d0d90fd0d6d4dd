use persistent_avl::fat_node_avl::FatNodeAvl;
use persistent_avl::opt_avl::OptAVL;
use persistent_avl::path_copy_avl::PathCopyAvl;
use persistent_avl::persistent_avl_tree::PersistentAvlTree;

#[test]
fn fat_insert_three_in_order() {
    let mut tree: FatNodeAvl<u64> = FatNodeAvl::new();
    assert_eq!(tree.insert(1), 0);
    assert_eq!(tree.insert(2), 1);
    assert_eq!(tree.insert(3), 2);
    assert_eq!(tree.predecessor(&5, 0), Some(&1));
    assert_eq!(tree.successor(&0, 1), Some(&1));
    assert_eq!(tree.predecessor(&5, 1), Some(&2));
    assert_eq!(tree.predecessor(&5, 2), Some(&3));
    assert!(tree.contains(&3, 2));
    assert!(!tree.contains(&3, 1));
}

#[test]
fn path_copy_insert_four() {
    let mut tree: PathCopyAvl<u64> = PathCopyAvl::new();
    for (i, x) in [10u64, 20, 30, 40].iter().enumerate() {
        assert_eq!(tree.insert(*x), i as u64);
    }
    assert!(!tree.contains(&25, 3));
    assert_eq!(tree.predecessor(&25, 3), Some(&20));
    assert_eq!(tree.successor(&25, 3), Some(&30));
    assert_eq!(tree.successor(&25, 1), None);
}

#[test]
fn opt_many_inserts() {
    let mut tree: OptAVL<u64> = OptAVL::new();
    for i in 0..200u64 {
        assert_eq!(tree.insert((i * 37) % 101), i);
    }
    for t in 0..200u64 {
        for x in 0..101u64 {
            let want = (0..=t).any(|i| (i * 37) % 101 == x);
            assert_eq!(tree.contains(&x, t), want);
        }
    }
}

#[test]
fn delete_node_with_two_children() {
    let mut tree: FatNodeAvl<u64> = FatNodeAvl::new();
    for x in [5u64, 3, 8, 7, 9] {
        tree.insert(x);
    }
    assert_eq!(tree.delete(8), Some(5));
    assert!(tree.contains(&8, 4));
    assert!(!tree.contains(&8, 5));
    assert_eq!(tree.successor(&0, 5), Some(&3));
    assert_eq!(tree.successor(&4, 5), Some(&5));
    assert_eq!(tree.successor(&6, 5), Some(&7));
    assert_eq!(tree.successor(&8, 5), Some(&9));
    assert_eq!(tree.successor(&10, 5), None);
}

#[test]
fn query_before_any_insert() {
    let fat: FatNodeAvl<u64> = FatNodeAvl::new();
    let copy: PathCopyAvl<u64> = PathCopyAvl::new();
    let opt: OptAVL<u64> = OptAVL::new();
    assert_eq!(fat.predecessor(&7, 0), None);
    assert_eq!(copy.predecessor(&7, 0), None);
    assert_eq!(opt.predecessor(&7, 0), None);
    assert_eq!(fat.successor(&7, 0), None);
    assert!(!opt.contains(&7, 0));
}
