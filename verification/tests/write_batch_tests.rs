// The split write batch's bookkeeping.

use range_cache_engine::write_batch::{RocksWriteBatch, WRITE_BATCH_LIMIT,
    WRITE_BATCH_MAX_BATCH};

const WRITE_BATCH_MAX_KEYS: usize = 256;

#[test]
fn test_should_write_to_engine() {
    let mut wb = RocksWriteBatch::new(true);
    for _i in 0..WRITE_BATCH_MAX_KEYS {
        wb.put(b"aaa".to_vec(), b"bbb".to_vec());
    }
    assert!(!wb.should_write_to_engine());
    wb.put(b"aaa".to_vec(), b"bbb".to_vec());
    assert!(wb.should_write_to_engine());
    let mut wb = RocksWriteBatch::with_capacity(true, 1024);
    for _i in 0..WRITE_BATCH_MAX_BATCH * WRITE_BATCH_LIMIT {
        wb.put(b"aaa".to_vec(), b"bbb".to_vec());
    }
    assert!(!wb.should_write_to_engine());
    wb.put(b"aaa".to_vec(), b"bbb".to_vec());
    assert!(wb.should_write_to_engine());
    wb.clear();
    assert!(!wb.should_write_to_engine());
}

#[test]
fn test_count_and_save_points() {
    let mut wb = RocksWriteBatch::new(true);
    assert!(wb.is_empty());
    for _ in 0..20 {
        wb.put(b"k".to_vec(), b"v".to_vec());
    }
    assert_eq!(20, wb.count());
    assert!(!wb.is_empty());

    wb.set_save_point();
    for _ in 0..20 {
        wb.delete(b"k".to_vec());
    }
    assert_eq!(40, wb.count());
    assert!(wb.rollback_to_save_point().is_ok());
    assert!(wb.rollback_to_save_point().is_err());
    assert!(wb.pop_save_point().is_err());

    wb.set_save_point();
    assert!(wb.pop_save_point().is_ok());
}

// A rollback also drops what was buffered inside the save point's own
// sub-batch, not only the sub-batches opened since.
#[test]
fn test_rollback_truncates_within_sub_batch() {
    let mut wb = RocksWriteBatch::new(true);
    wb.put(b"k1".to_vec(), b"v1".to_vec());
    wb.put(b"k2".to_vec(), b"v2".to_vec());
    assert_eq!(2, wb.batch_len(0));

    wb.set_save_point();
    // three more in the same sub-batch, then enough to open new ones
    for _ in 0..(3 + 2 * WRITE_BATCH_LIMIT) {
        wb.delete(b"k".to_vec());
    }
    assert!(wb.batches_len() > 1);

    assert!(wb.rollback_to_save_point().is_ok());
    assert_eq!(2, wb.batch_len(0));
    for i in 1..wb.batches_len() {
        assert_eq!(0, wb.batch_len(i));
    }
    assert!(wb.is_empty() == false);
}

#[test]
fn test_merge_appends_all_batches() {
    let mut a = RocksWriteBatch::new(true);
    a.put(b"a".to_vec(), b"1".to_vec());
    let mut b = RocksWriteBatch::new(true);
    // two full sub-batches plus a third partial one
    for _ in 0..(2 * WRITE_BATCH_LIMIT + 3) {
        b.put(b"b".to_vec(), b"2".to_vec());
    }
    assert_eq!(3, b.batches_len());
    a.merge(b);
    // every operation of every sub-batch of `b` lands in `a`
    assert_eq!(1 + 2 * WRITE_BATCH_LIMIT + 3, a.batch_len(0));
}

#[test]
fn test_disabled_batch_vec_never_switches() {
    let mut wb = RocksWriteBatch::new(false);
    for _ in 0..100 {
        wb.put_cf(b"write".to_vec(), b"k".to_vec(), b"v".to_vec());
    }
    assert_eq!(1, wb.batches_len());
    assert!(!wb.should_write_to_engine());
}
