use persistent_avl::fat_node::ChildrenAtTime;
use persistent_avl::fat_node::FatNode;
use persistent_avl::fat_node::FatNodeStore;
use persistent_avl::keys::key_before;
use persistent_avl::node_access::NodeAccess;
use persistent_avl::opt::OptAVLNode;
use persistent_avl::opt::OptStore;
use persistent_avl::order::is_le;
use persistent_avl::order::is_lt;
use persistent_avl::order::is_same;
use persistent_avl::path_copy::CopyNode;
use persistent_avl::path_copy::PathCopyStore;
use persistent_avl::timestamp::get_latest;
use persistent_avl::timestamp::get_time;
use persistent_avl::tree::RootNode;

fn roots(times: &[u64]) -> Vec<RootNode> {
    times.iter().enumerate().map(|(i, t)| RootNode { timestamp: *t, root: Some(i) }).collect()
}

#[test]
fn get_time_on_empty_log() {
    let log: Vec<RootNode> = Vec::new();
    assert!(get_time(&log, &0).is_none());
    assert!(get_time(&log, &u64::MAX).is_none());
    assert!(get_latest(&log).is_none());
}

#[test]
fn get_time_before_first_entry() {
    let log = roots(&[3, 5, 9]);
    assert!(get_time(&log, &0).is_none());
    assert!(get_time(&log, &2).is_none());
}

#[test]
fn get_time_finds_last_entry_at_or_before() {
    let log = roots(&[3, 5, 9]);
    assert_eq!(get_time(&log, &3).unwrap().root, Some(0));
    assert_eq!(get_time(&log, &4).unwrap().root, Some(0));
    assert_eq!(get_time(&log, &5).unwrap().root, Some(1));
    assert_eq!(get_time(&log, &8).unwrap().root, Some(1));
    assert_eq!(get_time(&log, &9).unwrap().root, Some(2));
    assert_eq!(get_time(&log, &u64::MAX).unwrap().root, Some(2));
    assert_eq!(get_latest(&log).unwrap().root, Some(2));
}

#[test]
fn get_time_with_equal_times_takes_the_last() {
    let log = roots(&[1, 4, 4, 4, 7]);
    assert_eq!(get_time(&log, &4).unwrap().root, Some(3));
    assert_eq!(get_time(&log, &6).unwrap().root, Some(3));
    assert_eq!(get_time(&log, &1).unwrap().root, Some(0));
    let one = roots(&[2]);
    assert_eq!(get_time(&one, &2).unwrap().root, Some(0));
    assert!(get_time(&one, &1).is_none());
}

#[test]
fn get_time_on_long_logs() {
    for n in 1..40u64 {
        let times: Vec<u64> = (0..n).map(|i| 2 * i + 1).collect();
        let log = roots(&times);
        for t in 0..2 * n + 3 {
            let want = times.iter().rposition(|x| *x <= t);
            assert_eq!(get_time(&log, &t).map(|e| e.root.unwrap()), want);
        }
    }
}

#[test]
fn comparisons() {
    assert!(is_lt(&1u64, &2u64));
    assert!(!is_lt(&2u64, &2u64));
    assert!(!is_lt(&3u64, &2u64));
    assert!(is_le(&1u64, &2u64));
    assert!(is_le(&2u64, &2u64));
    assert!(!is_le(&3u64, &2u64));
    assert!(is_same(&2u64, &2u64));
    assert!(!is_same(&1u64, &2u64));
    assert!(is_lt(&"a", &"b"));
}

#[test]
fn later_of_equal_data_comes_first() {
    let data = vec![5u64, 7, 5, 3];
    assert!(key_before(&data, 0, 1));
    assert!(!key_before(&data, 1, 0));
    assert!(key_before(&data, 2, 0));
    assert!(!key_before(&data, 0, 2));
    assert!(!key_before(&data, 0, 0));
    assert!(key_before(&data, 3, 2));
}

#[test]
fn fat_node_log() {
    let mut node = FatNode::new(4, 10);
    assert_eq!(node.datum, 4);
    assert_eq!(node.children.len(), 1);
    assert_eq!(node.get_height(10), 1);
    assert_eq!(node.get_height(9), 0);
    assert_eq!(node.get_left(9), None);
    node.modify(12, 2, Some(8), Some(7));
    assert_eq!(node.children.len(), 2);
    assert_eq!(node.get_left(12), Some(7));
    assert_eq!(node.get_right(12), Some(8));
    node.modify(12, 3, Some(6), Some(9));
    assert_eq!(node.children.len(), 2);
    assert_eq!(node.get_left(12), Some(9));
    assert_eq!(node.get_right(12), Some(6));
    assert_eq!(node.get_height(12), 3);
    let last: &ChildrenAtTime = node.children.last().unwrap();
    assert_eq!(last.timestamp, 12);
    assert_eq!(node.get_left(11), None);
    assert_eq!(node.get_height(11), 1);
    assert_eq!(node.get_height(100), 3);
}

#[test]
fn copy_node_update() {
    let node = CopyNode { datum_ptr: 3, height: 1, left: None, right: Some(2) };
    let next = node.update(4, Some(1), None);
    assert_eq!(next.datum_ptr, 3);
    assert_eq!(next.height, 4);
    assert_eq!(next.left, Some(1));
    assert_eq!(next.right, None);
    assert_eq!(node.right, Some(2));
}

#[test]
fn bounded_node_fills_then_duplicates() {
    let mut node = OptAVLNode::new(2, 5);
    assert_eq!(node.get_height(5), 1);
    assert_eq!(node.get_left(5), None);
    assert!(node.modify_or_duplicate(8, Some(1), None, 2).is_none());
    assert_eq!(node.get_left(7), None);
    assert_eq!(node.get_height(7), 1);
    assert_eq!(node.get_left(8), Some(1));
    assert_eq!(node.get_height(9), 2);
    let copy = node.modify_or_duplicate(11, Some(1), Some(4), 3).unwrap();
    assert_eq!(node.get_right(11), None);
    assert_eq!(copy.datum_ptr, 2);
    assert_eq!(copy.get_right(11), Some(4));
    assert_eq!(copy.get_height(11), 3);
    assert_eq!(copy.get_right(10), None);
    assert_eq!(copy.get_left(10), Some(1));
    assert_eq!(copy.get_height(10), 2);
}

fn store_keeps_the_past<B: NodeAccess>() -> (usize, usize) {
    let mut store = B::new();
    let a = store.create(0, 0);
    let b = store.create(1, 1);
    assert_eq!(store.get_datum(a), 0);
    assert_eq!(store.get_datum(b), 1);
    assert_eq!(store.get_height(b, 1), 1);
    let a1 = store.modify(a, 1, None, Some(b), 2);
    assert_eq!(store.get_right(a1, 1), Some(b));
    assert_eq!(store.get_height(a1, 1), 2);
    assert_eq!(store.get_datum(a1), 0);
    assert_eq!(store.get_right(a, 0), None);
    assert_eq!(store.get_height(a, 0), 1);
    let a2 = store.modify(a1, 2, Some(b), None, 2);
    assert_eq!(store.get_left(a2, 2), Some(b));
    assert_eq!(store.get_right(a2, 2), None);
    assert_eq!(store.get_right(a1, 1), Some(b));
    assert_eq!(store.get_left(a1, 1), None);
    assert_eq!(store.get_right(a, 0), None);
    assert_eq!(store.get_left(a2, 7), Some(b));
    (a1, a2)
}

#[test]
fn fat_store_changes_in_place() {
    assert_eq!(store_keeps_the_past::<FatNodeStore>(), (0, 0));
}

#[test]
fn path_copy_store_always_copies() {
    assert_eq!(store_keeps_the_past::<PathCopyStore>(), (2, 3));
}

#[test]
fn bounded_store_copies_on_second_change() {
    assert_eq!(store_keeps_the_past::<OptStore>(), (0, 2));
    let mut store = OptStore::new();
    let a = store.create(0, 0);
    assert_eq!(store.modify_or_split(a, 3, None, None, 1), a);
    assert_eq!(store.modify_or_split(a, 3, None, None, 1), a + 1);
}
