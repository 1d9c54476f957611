use ffcnt::batch::{StatBatcher, DEFAULT_STAT_BATCH};

#[test]
fn batch_is_flushed_in_inode_order() {
    let mut b = StatBatcher::new();
    b.offer(50, "a".to_string());
    b.offer(10, "b".to_string());
    b.offer(30, "c".to_string());
    let batch = b.take_batch();
    let paths: Vec<&str> = batch.iter().map(|e| e.path.as_str()).collect();
    assert_eq!(paths, vec!["b", "c", "a"]);
    let inos: Vec<u64> = batch.iter().map(|e| e.ino).collect();
    assert_eq!(inos, vec![10, 30, 50]);
}

#[test]
fn take_batch_empties_the_batcher() {
    let mut b = StatBatcher::new();
    b.offer(1, "x".to_string());
    assert_eq!(b.len(), 1);
    let batch = b.take_batch();
    assert_eq!(batch.len(), 1);
    assert_eq!(b.len(), 0);
    assert_eq!(b.take_batch().len(), 0);
}

#[test]
fn equal_inodes_are_all_kept() {
    let mut b = StatBatcher::new();
    b.offer(9, "p".to_string());
    b.offer(9, "q".to_string());
    b.offer(3, "r".to_string());
    let batch = b.take_batch();
    assert_eq!(batch.len(), 3);
    assert_eq!(batch[0].path, "r");
    let mut rest: Vec<&str> = batch[1..].iter().map(|e| e.path.as_str()).collect();
    rest.sort();
    assert_eq!(rest, vec!["p", "q"]);
}

#[test]
fn flush_is_due_at_threshold_or_at_the_end() {
    let mut b = StatBatcher::with_threshold(2);
    assert!(!b.should_flush(false));
    assert!(b.should_flush(true));
    b.offer(1, "x".to_string());
    assert!(!b.should_flush(false));
    b.offer(2, "y".to_string());
    assert!(b.should_flush(false));
}

#[test]
fn default_threshold_is_five_thousand() {
    let b = StatBatcher::new();
    assert_eq!(DEFAULT_STAT_BATCH, 5000);
    assert!(!b.should_flush(false));
    assert!(b.should_flush(true));
}
