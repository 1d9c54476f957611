use ffcnt::pending::PendingSet;

#[test]
fn empty_set_dequeues_nothing() {
    let mut p = PendingSet::new();
    assert!(p.is_empty());
    assert_eq!(p.dequeue(), None);
    assert!(p.is_empty());
}

#[test]
fn sweep_services_keys_in_ascending_order() {
    let mut p = PendingSet::new();
    p.enqueue("d5".to_string(), Some(5));
    p.enqueue("d1".to_string(), Some(1));
    p.enqueue("d9".to_string(), Some(9));
    p.enqueue("d3".to_string(), Some(3));
    assert_eq!(p.dequeue(), Some("d1".to_string()));
    assert_eq!(p.dequeue(), Some("d3".to_string()));
    assert_eq!(p.dequeue(), Some("d5".to_string()));
    assert_eq!(p.dequeue(), Some("d9".to_string()));
    assert!(p.is_empty());
}

#[test]
fn fifo_entry_is_serviced_before_remaining_ordered_entries() {
    let mut p = PendingSet::new();
    p.enqueue("d5".to_string(), Some(5));
    p.enqueue("d1".to_string(), Some(1));
    p.enqueue("d9".to_string(), Some(9));
    p.enqueue("d3".to_string(), Some(3));
    assert_eq!(p.dequeue(), Some("d1".to_string()));
    p.enqueue("late".to_string(), None);
    assert_eq!(p.dequeue(), Some("late".to_string()));
    assert_eq!(p.dequeue(), Some("d3".to_string()));
    assert_eq!(p.dequeue(), Some("d5".to_string()));
    assert_eq!(p.dequeue(), Some("d9".to_string()));
    assert!(p.is_empty());
}

#[test]
fn colliding_keys_keep_both_paths() {
    let mut p = PendingSet::new();
    p.enqueue("first".to_string(), Some(7));
    p.enqueue("second".to_string(), Some(7));
    // The displaced first path sits in the FIFO tier, which drains first.
    let a = p.dequeue().unwrap();
    let b = p.dequeue().unwrap();
    assert_eq!(a, "first");
    assert_eq!(b, "second");
    assert!(p.is_empty());
    assert_eq!(p.dequeue(), None);
}

#[test]
fn wraparound_restarts_from_smallest_key() {
    let mut p = PendingSet::new();
    p.enqueue("d10".to_string(), Some(10));
    p.enqueue("d20".to_string(), Some(20));
    assert_eq!(p.dequeue(), Some("d10".to_string()));
    assert_eq!(p.dequeue(), Some("d20".to_string()));
    // A directory discovered at an address below the cursor.
    p.enqueue("d5".to_string(), Some(5));
    // The sweep has passed the top: one wrap round, then the bottom entry.
    assert_eq!(p.dequeue(), None);
    assert!(!p.is_empty());
    assert_eq!(p.dequeue(), Some("d5".to_string()));
    assert!(p.is_empty());
}

#[test]
fn entry_at_cursor_key_is_still_serviced() {
    let mut p = PendingSet::new();
    p.enqueue("d4".to_string(), Some(4));
    assert_eq!(p.dequeue(), Some("d4".to_string()));
    // The cursor now sits at 4; a new entry at exactly 4 is not skipped.
    p.enqueue("again".to_string(), Some(4));
    assert_eq!(p.dequeue(), Some("again".to_string()));
}
