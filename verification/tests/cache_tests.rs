use blockstore::cache::Cache;

#[test]
fn put_and_get() {
    let mut c: Cache<u32> = Cache::new(2);
    c.put(1, 10);
    c.put(2, 20);
    assert_eq!(c.get(1), Some(&10));
    assert_eq!(c.get(3), None);
    assert!(c.contains(2));
}

#[test]
fn least_recently_used_entry_leaves() {
    let mut c: Cache<u32> = Cache::new(2);
    c.put(1, 10);
    c.put(2, 20);
    assert_eq!(c.get(1), Some(&10));
    c.put(3, 30);
    assert!(c.contains(1));
    assert!(!c.contains(2));
    assert!(c.contains(3));
}

#[test]
fn peek_does_not_count_as_use() {
    let mut c: Cache<u32> = Cache::new(2);
    c.put(1, 10);
    c.put(2, 20);
    assert_eq!(c.peek(1), Some(&10));
    c.put(3, 30);
    assert!(!c.contains(1));
    assert!(c.contains(2));
}

#[test]
fn put_replaces_and_moves_to_front() {
    let mut c: Cache<u32> = Cache::new(2);
    c.put(1, 10);
    c.put(2, 20);
    c.put(1, 11);
    c.put(3, 30);
    assert_eq!(c.peek(1), Some(&11));
    assert!(!c.contains(2));
}

#[test]
fn pop_takes_the_entry_out() {
    let mut c: Cache<u32> = Cache::new(2);
    c.put(1, 10);
    assert_eq!(c.pop(1), Some(10));
    assert_eq!(c.pop(1), None);
    assert!(!c.contains(1));
    c.put(2, 20);
    c.put(3, 30);
    assert!(c.contains(2) && c.contains(3));
}

#[test]
fn limit_zero_keeps_nothing() {
    let mut c: Cache<u32> = Cache::new(0);
    c.put(1, 10);
    assert!(!c.contains(1));
    assert_eq!(c.get(1), None);
}
