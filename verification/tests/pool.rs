use extsort::thread_pool::ThreadPool;

#[test]
fn fresh_pool_is_fully_available() {
    let pool = ThreadPool::new(4);
    assert_eq!(pool.size(), 4);
    assert_eq!(pool.available_workers(), 4);
    assert!(pool.is_available());
}

#[test]
fn reservations_track_capacity() {
    let mut pool = ThreadPool::new(2);
    assert!(pool.try_reserve());
    assert_eq!(pool.available_workers(), 1);
    assert!(pool.try_reserve());
    assert_eq!(pool.available_workers(), 0);
    assert!(!pool.is_available());
    assert!(!pool.try_reserve());
    assert_eq!(pool.available_workers(), 0);
    pool.release();
    pool.release();
    assert_eq!(pool.available_workers(), 2);
    assert_eq!(pool.size(), 2);
}
