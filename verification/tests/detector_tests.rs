use deadlock_detector::detector::{
    check, compare_block, compare_tid, tid_vec_find, DeadlockReport, GraphMaker, LockEvent,
};
use deadlock_detector::lock_graph::GNode;

fn event(tid: i32, lock: &str, block: &str, primitive: &str, line: usize) -> LockEvent {
    LockEvent {
        tid,
        lock_name: lock.as_bytes().to_vec(),
        block: block.as_bytes().to_vec(),
        primitive: primitive.as_bytes().to_vec(),
        file_name: b"src/main.rs".to_vec(),
        line_num: line,
    }
}

fn path(entries: &[(&str, bool)]) -> Vec<(Vec<u8>, bool)> {
    entries.iter().map(|(n, w)| (n.as_bytes().to_vec(), *w)).collect()
}

fn blocks(entries: &[(i32, &str)]) -> Vec<(i32, Vec<u8>)> {
    entries.iter().map(|(t, b)| (*t, b.as_bytes().to_vec())).collect()
}

#[test]
fn check_needs_every_lock_written() {
    assert!(check(&path(&[])));
    assert!(check(&path(&[("a", true), ("b", true)])));
    assert!(!check(&path(&[("a", true), ("b", false)])));
    // a lock counts as written when any of its entries is a write
    assert!(check(&path(&[("a", false), ("a", true)])));
    assert!(check(&path(&[("a", true), ("a", false)])));
    assert!(!check(&path(&[("a", false), ("a", false)])));
}

#[test]
fn compare_block_finds_nested_blocks() {
    let list = blocks(&[(1, "0-1"), (2, "0-2-5")]);
    assert!(compare_block(&(9, b"0".to_vec()), &list));
    assert!(compare_block(&(9, b"0-2".to_vec()), &list));
    assert!(compare_block(&(9, b"0-1-3".to_vec()), &list));
    assert!(!compare_block(&(9, b"0-3".to_vec()), &list));
    assert!(!compare_block(&(1, b"0-1".to_vec()), &blocks(&[])));
    // pieces are compared whole: "0-1" is not nested in "0-10"
    assert!(!compare_block(&(1, b"0-1".to_vec()), &blocks(&[(1, "0-10")])));
}

#[test]
fn compare_tid_matches_the_thread() {
    let list = blocks(&[(1, "0-1"), (2, "0-2")]);
    assert!(compare_tid(&(2, b"x".to_vec()), &list));
    assert!(!compare_tid(&(3, b"0-1".to_vec()), &list));
}

#[test]
fn tid_vec_find_matches_the_pair() {
    let list = blocks(&[(1, "0-1"), (2, "0-2")]);
    assert!(tid_vec_find(&list, &(1, b"0-1".to_vec())));
    assert!(!tid_vec_find(&list, &(1, b"0-2".to_vec())));
}

#[test]
fn gnode_clone_copies_every_field() {
    let node = GNode {
        lock_name: b"m".to_vec(),
        tid_block: blocks(&[(1, "0-1")]),
        primitive: vec![b"write".to_vec(), b"read".to_vec()],
        visit: 1,
        file_name: b"src/a.rs".to_vec(),
        line_num: 7,
    };
    let copy = node.clone();
    assert_eq!(copy.lock_name, node.lock_name);
    assert_eq!(copy.tid_block, node.tid_block);
    assert_eq!(copy.primitive, node.primitive);
    assert_eq!(copy.visit, 1);
    assert_eq!(copy.file_name, node.file_name);
    assert_eq!(copy.line_num, 7);
}

#[test]
fn opposite_lock_orders_in_two_threads_deadlock() {
    let mut graph = GraphMaker::new();
    assert!(graph.receive(event(1, "a", "0-1", "lock", 3)).is_empty());
    assert!(graph.receive(event(1, "b", "0-1", "lock", 4)).is_empty());
    assert!(graph.receive(event(2, "b", "0-2", "lock", 7)).is_empty());
    let reports = graph.receive(event(2, "a", "0-2", "lock", 8));
    assert_eq!(graph.node_count(), 2);
    assert_eq!(reports.len(), 1);
    match &reports[0] {
        DeadlockReport::LockCycle { lock_name, positions } => {
            assert_eq!(lock_name, &b"a".to_vec());
            assert_eq!(positions, &vec![(b"src/main.rs".to_vec(), 3), (b"src/main.rs".to_vec(), 4)]);
        },
        other => panic!("unexpected report {:?}", other),
    }
}

#[test]
fn same_lock_order_in_two_threads_is_quiet() {
    let mut graph = GraphMaker::new();
    assert!(graph.receive(event(1, "a", "0-1", "lock", 3)).is_empty());
    assert!(graph.receive(event(1, "b", "0-1", "lock", 4)).is_empty());
    assert!(graph.receive(event(2, "a", "0-2", "lock", 7)).is_empty());
    assert!(graph.receive(event(2, "b", "0-2", "lock", 8)).is_empty());
    assert_eq!(graph.node_count(), 2);
    // a quiet search leaves every node unmarked
    for i in 0..graph.node_count() {
        assert_eq!(graph.node(i).visit, 0);
    }
}

#[test]
fn one_node_per_lock() {
    let mut graph = GraphMaker::new();
    assert!(graph.receive(event(1, "a", "0-1", "lock", 1)).is_empty());
    assert_eq!(graph.node_count(), 1);
    assert!(graph.receive(event(2, "a", "0-2", "lock", 2)).is_empty());
    assert_eq!(graph.node_count(), 1);
    assert!(graph.receive(event(2, "b", "0-2", "lock", 3)).is_empty());
    assert_eq!(graph.node_count(), 2);
    assert_eq!(graph.node(0).lock_name, b"a".to_vec());
    assert_eq!(graph.node(0).tid_block, blocks(&[(1, "0-1"), (2, "0-2")]));
    assert_eq!(graph.node(0).primitive, vec![b"lock".to_vec(), b"lock".to_vec()]);
    assert_eq!(graph.node(1).lock_name, b"b".to_vec());
}

#[test]
fn writing_a_lock_twice_in_one_block_deadlocks() {
    let mut graph = GraphMaker::new();
    assert!(graph.receive(event(1, "rw", "0-1", "write", 5)).is_empty());
    let reports = graph.receive(event(1, "rw", "0-1", "write", 6));
    assert_eq!(reports.len(), 1);
    match &reports[0] {
        DeadlockReport::RwCycle { lock_name } => assert_eq!(lock_name, &b"rw".to_vec()),
        other => panic!("unexpected report {:?}", other),
    }
    assert_eq!(graph.node(0).primitive, vec![b"write".to_vec(), b"write".to_vec()]);
}

#[test]
fn reading_a_lock_twice_in_one_block_is_quiet() {
    let mut graph = GraphMaker::new();
    assert!(graph.receive(event(1, "rw", "0-1", "read", 5)).is_empty());
    assert!(graph.receive(event(1, "rw", "0-1", "read", 6)).is_empty());
    assert_eq!(graph.node_count(), 1);
}

#[test]
fn relocking_a_mutex_in_one_block_deadlocks() {
    let mut graph = GraphMaker::new();
    assert!(graph.receive(event(0, "m", "0", "lock", 2)).is_empty());
    let reports = graph.receive(event(0, "m", "0", "lock", 3));
    assert_eq!(reports.len(), 1);
    match &reports[0] {
        DeadlockReport::LockCycle { lock_name, positions } => {
            assert_eq!(lock_name, &b"m".to_vec());
            assert_eq!(positions, &vec![(b"src/main.rs".to_vec(), 2)]);
        },
        other => panic!("unexpected report {:?}", other),
    }
}
