use bufpool::error::QcBupoError;
use bufpool::page::QcPager;

#[test]
fn fresh_page_is_empty() {
    let pg = QcPager::new();
    assert_eq!(pg.count_slot(), 0);
    assert!(!pg.is_valiable());
    assert!(!pg.is_dirty());
    assert_eq!(pg.left_space(), 4080);
    assert_eq!(pg.buffer().len(), 4096);
    assert_eq!(pg.obtain(1), None);
}

#[test]
fn save_then_obtain_returns_exact_value() {
    let mut pg = QcPager::new();
    assert_eq!(pg.save(10, &b"heelo".to_vec()), Ok(5));
    assert_eq!(pg.save(5, &b"maike".to_vec()), Ok(5));
    assert_eq!(pg.save(18, &b"".to_vec()), Ok(0));
    assert_eq!(pg.save(12, &b"qiuqiu".to_vec()), Ok(6));
    assert_eq!(pg.obtain(10), Some(b"heelo".to_vec()));
    assert_eq!(pg.obtain(5), Some(b"maike".to_vec()));
    assert_eq!(pg.obtain(18), Some(b"".to_vec()));
    assert_eq!(pg.obtain(12), Some(b"qiuqiu".to_vec()));
    assert_eq!(pg.obtain(4), None);
    assert_eq!(pg.obtain(2), None);
    assert_eq!(pg.count_slot(), 4);
    assert!(pg.is_valiable());
    assert!(pg.is_dirty());
}

#[test]
fn slot_directory_stays_sorted() {
    let mut pg = QcPager::new();
    for k in [10, 5, 18, 12, 3, 200, 7] {
        pg.save(k, &vec![1, 2, 3]).unwrap();
    }
    let keys = pg.keys();
    assert_eq!(keys.len(), 7);
    for w in keys.windows(2) {
        assert!(w[0] < w[1]);
    }
    assert_eq!(keys, vec![3, 5, 7, 10, 12, 18, 200]);
}

#[test]
fn duplicate_key_fails_and_leaves_page_unchanged() {
    let mut pg = QcPager::new();
    pg.save(5, &b"first".to_vec()).unwrap();
    pg.save(9, &b"other".to_vec()).unwrap();
    let before = pg.buffer().clone();
    let left = pg.left_space();
    assert_eq!(pg.save(5, &b"second".to_vec()), Err(QcBupoError::DuplicateKey));
    assert_eq!(pg.buffer(), &before);
    assert_eq!(pg.left_space(), left);
    assert_eq!(pg.obtain(5), Some(b"first".to_vec()));
    assert_eq!(pg.count_slot(), 2);
}

#[test]
fn value_longer_than_length_field_is_rejected() {
    let mut pg = QcPager::new();
    let huge = vec![7u8; 65536];
    assert_eq!(pg.save(1, &huge), Err(QcBupoError::CapacityExceeded));
    assert_eq!(pg.count_slot(), 0);
    assert!(!pg.is_dirty());
}

#[test]
fn overlap_of_directory_and_data_is_rejected() {
    let mut pg = QcPager::new();
    // 8 bytes of slot + 4000 bytes of value leave 72 free bytes
    assert_eq!(pg.save(1, &vec![9u8; 4000]), Ok(4000));
    assert_eq!(pg.left_space(), 72);
    // the next record would need 8 + 100 > 72 bytes
    assert_eq!(pg.save(2, &vec![9u8; 100]), Err(QcBupoError::CapacityExceeded));
    // but one that still fits is taken: 8 + 64 == 72
    assert_eq!(pg.save(2, &vec![8u8; 64]), Ok(64));
    assert_eq!(pg.left_space(), 0);
    assert_eq!(pg.save(3, &b"".to_vec()), Err(QcBupoError::CapacityExceeded));
    assert_eq!(pg.obtain(1), Some(vec![9u8; 4000]));
    assert_eq!(pg.obtain(2), Some(vec![8u8; 64]));
}

#[test]
fn dirty_flag_tracks_mutation() {
    let mut pg = QcPager::new();
    assert!(!pg.is_dirty());
    pg.save(1, &b"x".to_vec()).unwrap();
    assert!(pg.is_dirty());
    pg.op_clear();
    assert!(!pg.is_dirty());
    pg.mut_buffer();
    assert!(pg.is_dirty());
    pg.op_clear();
    pg.op_dirty();
    assert!(pg.is_dirty());
}

#[test]
fn duplicate_copies_the_whole_state() {
    let mut pg = QcPager::new();
    pg.save(77, &b"payload".to_vec()).unwrap();
    let copy = pg.duplicate();
    assert_eq!(copy.buffer(), pg.buffer());
    assert_eq!(copy.is_dirty(), pg.is_dirty());
    assert_eq!(copy.obtain(77), Some(b"payload".to_vec()));
}
