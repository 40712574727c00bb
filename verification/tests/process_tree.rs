use with_limits::{Binary64, ProcessIdentity, ProcessRecord, ProcessTree};

fn process(pid: u32, parent: Option<u32>, start_time: u64, memory: u64, cpu: f64) -> ProcessRecord {
    ProcessRecord {
        pid,
        parent,
        start_time,
        memory,
        cpu: Binary64::from_bits(cpu.to_bits()),
    }
}

fn identity(pid: u32, start_time: u64) -> ProcessIdentity {
    ProcessIdentity { pid, start_time }
}

fn sorted(tree: &ProcessTree) -> Vec<(u32, u64)> {
    let mut ids: Vec<(u32, u64)> = tree
        .identities()
        .iter()
        .map(|id| (id.pid, id.start_time))
        .collect();
    ids.sort();
    ids
}

#[test]
fn a_tree_starts_with_its_root() {
    let tree = ProcessTree::new(100);
    assert_eq!(tree.identities(), vec![identity(100, 0)]);
    assert!(!tree.is_empty());
    assert!(!tree.observed_root());
}

#[test]
fn a_look_takes_in_all_descendants() {
    let mut tree = ProcessTree::new(100);
    let usage = tree.refresh(&[
        process(103, Some(102), 13, 7, 1.5),
        process(1, None, 1, 1_000, 99.0),
        process(102, Some(100), 12, 5, 2.25),
        process(100, Some(1), 10, 3, 50.0),
        process(200, Some(1), 11, 9, 30.0),
    ]);
    assert_eq!(sorted(&tree), vec![(100, 10), (102, 12), (103, 13)]);
    assert!(tree.observed_root());
    assert_eq!(usage.rss_bytes, 15);
    assert_eq!(usage.cpu_percent, Binary64::from_bits(53.75_f64.to_bits()));
    assert_eq!(usage.process_count, 3);
}

#[test]
fn orphans_stay_in_the_tree() {
    let mut tree = ProcessTree::new(100);
    tree.refresh(&[
        process(100, Some(1), 10, 1, 0.0),
        process(101, Some(100), 11, 1, 0.0),
    ]);
    tree.retire_root();
    let usage = tree.refresh(&[
        process(101, Some(1), 11, 4, 0.0),
        process(102, Some(101), 12, 2, 0.0),
    ]);
    assert_eq!(sorted(&tree), vec![(101, 11), (102, 12)]);
    assert_eq!(usage.rss_bytes, 6);
    tree.refresh(&[]);
    assert!(tree.is_empty());
}

#[test]
fn a_reused_number_is_left_out() {
    let mut tree = ProcessTree::new(100);
    tree.refresh(&[
        process(100, Some(1), 10, 1, 0.0),
        process(101, Some(100), 11, 1, 0.0),
    ]);
    tree.refresh(&[
        process(100, Some(1), 10, 1, 0.0),
        process(101, Some(1), 99, 1, 0.0),
    ]);
    assert_eq!(sorted(&tree), vec![(100, 10)]);
}

#[test]
fn a_retired_root_does_not_come_back() {
    let table = [process(100, Some(1), 10, 1, 0.0)];
    let mut tree = ProcessTree::new(100);
    tree.refresh(&table);
    tree.retire_root();
    assert!(tree.is_empty());
    assert!(tree.observed_root());
    tree.refresh(&[process(100, Some(1), 77, 1, 0.0)]);
    assert!(tree.is_empty());
    assert!(!tree.observed_root());
}

#[test]
fn a_second_look_changes_nothing() {
    let table = [
        process(100, Some(1), 10, 1, 0.0),
        process(101, Some(100), 11, 1, 0.0),
        process(102, Some(101), 12, 1, 0.0),
    ];
    let mut tree = ProcessTree::new(100);
    tree.refresh(&table);
    let once = sorted(&tree);
    tree.refresh(&table);
    assert_eq!(sorted(&tree), once);
}

#[test]
fn memory_adds_up_to_no_more_than_can_be_counted() {
    let mut tree = ProcessTree::new(100);
    let usage = tree.refresh(&[
        process(100, None, 10, u64::MAX - 1, 0.0),
        process(101, Some(100), 11, 2, 0.0),
    ]);
    assert_eq!(usage.rss_bytes, u64::MAX);
}
