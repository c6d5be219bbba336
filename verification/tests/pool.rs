use bufpool::buffpool::QcBuffpool;
use bufpool::error::QcBupoError;

#[test]
fn test_buffpool() {
    let mut bufpool = QcBuffpool::new(8);
    bufpool.fetch_page(1).unwrap();
    bufpool.fetch_page(2).unwrap();
    assert_eq!(bufpool.save(2, 10, &b"hsdfp".to_vec()), Ok(5));
    assert_eq!(bufpool.save(2, 5, &b"klusfq".to_vec()), Ok(6));
    bufpool.unpin_page(2).unwrap();
    bufpool.flush_page(2).unwrap();

    bufpool.fetch_page(7).unwrap();
    bufpool.fetch_page(8).unwrap();
    bufpool.fetch_page(9).unwrap();
    bufpool.fetch_page(5).unwrap();
    bufpool.fetch_page(7).unwrap();
    bufpool.fetch_page(12).unwrap();
    bufpool.fetch_page(6).unwrap();
    assert_eq!(bufpool.save(6, 12, &b"this ok".to_vec()), Ok(7));
    assert_eq!(bufpool.obtain(6, 12), Ok(Some(b"this ok".to_vec())));
    assert_eq!(bufpool.obtain(2, 10), Ok(Some(b"hsdfp".to_vec())));
}

#[test]
fn pin_counts_balance_and_overrun_is_reported() {
    let mut pool = QcBuffpool::new(4);
    pool.fetch_page(3).unwrap();
    pool.fetch_page(3).unwrap();
    pool.fetch_page(3).unwrap();
    assert_eq!(pool.pin_count(3), Some(3));
    pool.unpin_page(3).unwrap();
    pool.unpin_page(3).unwrap();
    pool.unpin_page(3).unwrap();
    assert_eq!(pool.pin_count(3), Some(0));
    // one unpin beyond zero is an error, not silently accepted
    assert_eq!(pool.unpin_page(3), Err(QcBupoError::NotFound));
    assert_eq!(pool.pin_count(3), Some(0));
}

#[test]
fn flush_of_pinned_page_is_busy() {
    let mut pool = QcBuffpool::new(4);
    pool.fetch_page(1).unwrap();
    pool.save(1, 9, &b"dirty".to_vec()).unwrap();
    assert_eq!(pool.flush_page(1), Err(QcBupoError::Busy));
    pool.unpin_page(1).unwrap();
    assert_eq!(pool.flush_page(1), Ok(()));
}

#[test]
fn flush_and_unpin_of_absent_page_are_not_found() {
    let mut pool = QcBuffpool::new(2);
    assert_eq!(pool.flush_page(9), Err(QcBupoError::NotFound));
    assert_eq!(pool.unpin_page(9), Err(QcBupoError::NotFound));
    assert_eq!(pool.save(9, 1, &b"x".to_vec()), Err(QcBupoError::NotFound));
    assert_eq!(pool.obtain(9, 1), Err(QcBupoError::NotFound));
    assert_eq!(pool.pin_count(9), None);
}

#[test]
fn fetch_outside_backing_store_is_io_failure() {
    let mut pool = QcBuffpool::new(2);
    assert_eq!(pool.fetch_page(200), Err(QcBupoError::IoFailure));
    assert_eq!(pool.fetch_page(16), Err(QcBupoError::IoFailure));
    assert!(pool.fetch_page(15).is_ok());
}

#[test]
fn fetch_with_everything_pinned_is_pool_exhausted() {
    let mut pool = QcBuffpool::new(1);
    pool.fetch_page(1).unwrap();
    assert_eq!(pool.fetch_page(2), Err(QcBupoError::PoolExhausted));
    pool.unpin_page(1).unwrap();
    assert!(pool.fetch_page(2).is_ok());
    assert!(!pool.contains_page(1));
}

#[test]
fn eviction_takes_the_least_recently_touched_page() {
    let mut pool = QcBuffpool::new(2);
    pool.fetch_page(1).unwrap();
    pool.unpin_page(1).unwrap();
    pool.fetch_page(2).unwrap();
    pool.unpin_page(2).unwrap();
    // pool full; page 1 is the least recently touched
    pool.fetch_page(3).unwrap();
    assert!(!pool.contains_page(1));
    assert!(pool.contains_page(2));
    assert!(pool.contains_page(3));
}

#[test]
fn round_trip_through_the_backing_store() {
    let mut pool = QcBuffpool::new(2);
    pool.fetch_page(1).unwrap();
    pool.save(1, 42, &b"hello".to_vec()).unwrap();
    pool.save(1, 7, &b"world".to_vec()).unwrap();
    pool.unpin_page(1).unwrap();
    pool.flush_page(1).unwrap();

    // force page 1 out of the pool
    pool.fetch_page(2).unwrap();
    pool.unpin_page(2).unwrap();
    pool.fetch_page(3).unwrap();
    assert!(!pool.contains_page(1));

    // fetching it again reconstructs the flushed records
    pool.unpin_page(3).unwrap();
    pool.fetch_page(1).unwrap();
    assert_eq!(pool.obtain(1, 42), Ok(Some(b"hello".to_vec())));
    assert_eq!(pool.obtain(1, 7), Ok(Some(b"world".to_vec())));
    assert_eq!(pool.obtain(1, 8), Ok(None));
}

#[test]
fn dirty_victim_is_written_back_on_eviction() {
    let mut pool = QcBuffpool::new(1);
    pool.fetch_page(1).unwrap();
    pool.save(1, 5, &b"kept".to_vec()).unwrap();
    pool.unpin_page(1).unwrap();
    // no flush: the eviction itself must write the dirty page back
    pool.fetch_page(2).unwrap();
    assert!(!pool.contains_page(1));
    pool.unpin_page(2).unwrap();
    pool.fetch_page(1).unwrap();
    assert_eq!(pool.obtain(1, 5), Ok(Some(b"kept".to_vec())));
}

#[test]
fn ninth_distinct_fetch_evicts_the_earliest_touched() {
    let mut pool = QcBuffpool::new(8);
    for pid in [1, 7, 8, 9, 5, 7, 12] {
        pool.fetch_page(pid).unwrap();
        pool.unpin_page(pid).unwrap();
    }
    for pid in [2, 3] {
        pool.fetch_page(pid).unwrap();
        pool.unpin_page(pid).unwrap();
    }
    // capacity 8 is full with ids {1, 7, 8, 9, 5, 12, 2, 3}
    pool.fetch_page(4).unwrap();
    // page 1 was the earliest touched: page 7 was re-touched on its second
    // fetch and is no longer least-recent
    assert!(!pool.contains_page(1));
    for pid in [7, 8, 9, 5, 12, 2, 3, 4] {
        assert!(pool.contains_page(pid));
    }
}

#[test]
fn page_errors_pass_through_the_pool() {
    let mut pool = QcBuffpool::new(2);
    pool.fetch_page(1).unwrap();
    pool.save(1, 3, &b"a".to_vec()).unwrap();
    assert_eq!(pool.save(1, 3, &b"b".to_vec()), Err(QcBupoError::DuplicateKey));
    assert_eq!(pool.save(1, 4, &vec![0u8; 70000]), Err(QcBupoError::CapacityExceeded));
    assert_eq!(pool.save(1, 4, &vec![0u8; 4090]), Err(QcBupoError::CapacityExceeded));
    assert_eq!(pool.obtain(1, 3), Ok(Some(b"a".to_vec())));
}
