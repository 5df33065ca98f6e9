use cask::file_pool::FilePool;

#[test]
fn pool_hands_back_what_was_put_in() {
    let mut pool: FilePool<&str> = FilePool::new(4);
    assert_eq!(pool.len(), 0);
    assert_eq!(pool.get(1), None);
    pool.put(1, "a");
    pool.put(2, "b");
    pool.put(1, "c");
    assert_eq!(pool.len(), 3);
    // The handle put in last for the segment comes out first.
    assert_eq!(pool.get(1), Some("c"));
    assert_eq!(pool.get(1), Some("a"));
    assert_eq!(pool.get(1), None);
    assert_eq!(pool.get(2), Some("b"));
    assert_eq!(pool.len(), 0);
}

#[test]
fn pool_evicts_the_segment_put_in_longest_ago() {
    let mut pool: FilePool<u32> = FilePool::new(2);
    pool.put(1, 10);
    pool.put(2, 20);
    pool.put(3, 30);
    assert_eq!(pool.len(), 2);
    assert_eq!(pool.get(1), None);
    assert_eq!(pool.get(2), Some(20));
    assert_eq!(pool.get(3), Some(30));
}

#[test]
fn pool_eviction_takes_the_newest_handle_of_the_oldest_segment() {
    let mut pool: FilePool<u32> = FilePool::new(2);
    pool.put(1, 10);
    pool.put(2, 20);
    // Segment 1 is at the front of the queue; its newest handle is the one just put in.
    pool.put(1, 11);
    assert_eq!(pool.len(), 2);
    assert_eq!(pool.get(1), Some(10));
    assert_eq!(pool.get(1), None);
    assert_eq!(pool.get(2), Some(20));
}

#[test]
fn taking_a_handle_frees_the_oldest_place_of_its_segment() {
    let mut pool: FilePool<u32> = FilePool::new(3);
    pool.put(1, 10);
    pool.put(2, 20);
    pool.put(1, 11);
    assert_eq!(pool.get(1), Some(11));
    // The queue is now 2, 1: the next eviction hits segment 2.
    pool.put(3, 30);
    pool.put(4, 40);
    assert_eq!(pool.get(2), None);
    assert_eq!(pool.get(1), Some(10));
    assert_eq!(pool.get(3), Some(30));
    assert_eq!(pool.get(4), Some(40));
}

#[test]
fn pool_without_capacity_keeps_nothing() {
    let mut pool: FilePool<u32> = FilePool::new(0);
    pool.put(1, 10);
    assert_eq!(pool.len(), 0);
    assert_eq!(pool.get(1), None);
}
