// GC filter behavior over the write and default columns.

use range_cache_engine::column::Column;
use range_cache_engine::filter::Filter;
use range_cache_engine::keys::{append_ts, encode_key, user_key_matches, ValueType,
    MAX_SEQUENCE_NUMBER};
use range_cache_engine::write_record::{WriteRecord, WriteType};

fn put_data(key: &[u8], value: &[u8], start_ts: u64, commit_ts: u64, seq_num: u64,
    short_value: bool, default_cf: &mut Column, write_cf: &mut Column) {
    let user_key = append_ts(&key.to_vec(), commit_ts);
    let write_k = encode_key(&user_key, seq_num, ValueType::Value);
    let record = WriteRecord::new(WriteType::Put, start_ts, if short_value {
        Some(value.to_vec())
    } else {
        None
    });
    write_cf.insert(write_k, record.encode());
    if !short_value {
        let default_user_key = append_ts(&key.to_vec(), start_ts);
        let default_k = encode_key(&default_user_key, seq_num + 1, ValueType::Value);
        default_cf.insert(default_k, value.to_vec());
    }
}

fn delete_data(key: &[u8], ts: u64, seq_num: u64, write_cf: &mut Column) {
    let user_key = append_ts(&key.to_vec(), ts);
    let write_k = encode_key(&user_key, seq_num, ValueType::Value);
    let record = WriteRecord::new(WriteType::Delete, ts, None);
    write_cf.insert(write_k, record.encode());
}

fn rollback_data(key: &[u8], ts: u64, seq_num: u64, write_cf: &mut Column) {
    let user_key = append_ts(&key.to_vec(), ts);
    let write_k = encode_key(&user_key, seq_num, ValueType::Value);
    let record = WriteRecord::new(WriteType::Rollback, ts, None);
    write_cf.insert(write_k, record.encode());
}

fn element_count(col: &Column) -> u64 {
    col.len() as u64
}

fn key_exist(col: &Column, key: &[u8], ts: u64) -> bool {
    let user_key = append_ts(&key.to_vec(), ts);
    let seek_key = encode_key(&user_key, MAX_SEQUENCE_NUMBER, ValueType::Value);
    let pos = col.seek(&seek_key);
    pos < col.len() && user_key_matches(col.key_at(pos), &user_key)
}

fn run_filter_over(filter: &mut Filter, write: &mut Column, default_cf: &mut Column) -> u64 {
    let entries = write.entries_cloned();
    let mut count = 0;
    for e in &entries {
        let _ = filter.filter_key(&e.key, &e.value, write, default_cf);
        count += 1;
    }
    count
}

#[test]
fn test_filter() {
    let mut write = Column::new();
    let mut default_cf = Column::new();

    put_data(b"key1", b"value1", 10, 15, 10, false, &mut default_cf, &mut write);
    put_data(b"key2", b"value21", 10, 15, 12, false, &mut default_cf, &mut write);
    put_data(b"key2", b"value22", 20, 25, 14, false, &mut default_cf, &mut write);
    // mock repeated apply
    put_data(b"key2", b"value22", 20, 25, 15, false, &mut default_cf, &mut write);
    put_data(b"key2", b"value23", 30, 35, 16, false, &mut default_cf, &mut write);
    put_data(b"key3", b"value31", 20, 25, 18, false, &mut default_cf, &mut write);
    put_data(b"key3", b"value32", 30, 35, 20, false, &mut default_cf, &mut write);
    delete_data(b"key3", 40, 22, &mut write);
    assert_eq!(7, element_count(&default_cf));
    assert_eq!(8, element_count(&write));

    let mut filter = Filter::new(50, 100);
    let count = run_filter_over(&mut filter, &mut write, &mut default_cf);
    assert_eq!(count, 8);
    assert_eq!(5, filter.metrics.filtered);
    filter.finish(&mut write);

    assert_eq!(2, element_count(&write));
    assert_eq!(2, element_count(&default_cf));

    assert!(key_exist(&write, b"key1", 15));
    assert!(key_exist(&write, b"key2", 35));
    assert!(!key_exist(&write, b"key3", 35));
    assert!(key_exist(&default_cf, b"key1", 10));
    assert!(key_exist(&default_cf, b"key2", 30));
    assert!(!key_exist(&default_cf, b"key3", 30));
}

#[test]
fn test_filter_with_delete() {
    let mut write = Column::new();
    let mut default_cf = Column::new();

    put_data(b"key1", b"value11", 10, 15, 10, false, &mut default_cf, &mut write);

    // A skiplist tombstone that shadows the key1 write entry.
    let raw_write_k = append_ts(&b"key1".to_vec(), 15);
    let write_k = encode_key(&raw_write_k, 15, ValueType::Deletion);
    write.insert(write_k, Vec::new());

    put_data(b"key2", b"value22", 20, 25, 14, false, &mut default_cf, &mut write);

    let raw_write_k = append_ts(&b"key2".to_vec(), 25);
    let write_k = encode_key(&raw_write_k, 15, ValueType::Deletion);
    write.insert(write_k, Vec::new());

    put_data(b"key2", b"value23", 30, 35, 16, false, &mut default_cf, &mut write);
    delete_data(b"key2", 40, 18, &mut write);

    let mut filter = Filter::new(40, 100);
    let _ = run_filter_over(&mut filter, &mut write, &mut default_cf);
    filter.finish(&mut write);

    assert_eq!(0, element_count(&write));
}

#[test]
fn test_gc() {
    let mut write = Column::new();
    let mut default_cf = Column::new();

    put_data(b"key1", b"value1", 10, 11, 10, false, &mut default_cf, &mut write);
    put_data(b"key1", b"value2", 12, 13, 12, false, &mut default_cf, &mut write);
    put_data(b"key1", b"value3", 14, 15, 14, false, &mut default_cf, &mut write);
    assert_eq!(3, element_count(&default_cf));
    assert_eq!(3, element_count(&write));

    // gc should not handle keys with a larger seqno than the oldest seqno
    let mut filter = Filter::new(13, 10);
    let _ = run_filter_over(&mut filter, &mut write, &mut default_cf);
    filter.finish(&mut write);
    assert_eq!(3, element_count(&default_cf));
    assert_eq!(3, element_count(&write));

    // gc will not remove the latest mvcc put below the safe point
    let mut filter = Filter::new(14, 100);
    let _ = run_filter_over(&mut filter, &mut write, &mut default_cf);
    filter.finish(&mut write);
    assert_eq!(2, element_count(&default_cf));
    assert_eq!(2, element_count(&write));

    let mut filter = Filter::new(16, 100);
    let _ = run_filter_over(&mut filter, &mut write, &mut default_cf);
    filter.finish(&mut write);
    assert_eq!(1, element_count(&default_cf));
    assert_eq!(1, element_count(&write));

    // a rollback does not make the first older version filtered
    rollback_data(b"key1", 17, 16, &mut write);
    let mut filter = Filter::new(17, 100);
    let _ = run_filter_over(&mut filter, &mut write, &mut default_cf);
    filter.finish(&mut write);
    assert_eq!(1, element_count(&default_cf));
    assert_eq!(1, element_count(&write));
    assert!(key_exist(&write, b"key1", 15));
    assert!(key_exist(&default_cf, b"key1", 14));

    // unlike an on-disk compaction filter, the latest mvcc delete below the
    // safe point is filtered
    delete_data(b"key1", 19, 18, &mut write);
    let mut filter = Filter::new(19, 100);
    let _ = run_filter_over(&mut filter, &mut write, &mut default_cf);
    filter.finish(&mut write);
    assert_eq!(0, element_count(&write));
    assert_eq!(0, element_count(&default_cf));
}

#[test]
fn test_gc_for_overwrite_write() {
    let mut write = Column::new();
    let mut default_cf = Column::new();

    // one put with a short value overwritten by one without
    put_data(b"key1", b"value1", 10, 11, 100, true, &mut default_cf, &mut write);
    put_data(b"key1", b"value2", 10, 11, 101, false, &mut default_cf, &mut write);

    assert_eq!(1, element_count(&default_cf));
    assert_eq!(2, element_count(&write));

    let mut filter = Filter::new(20, 200);
    let _ = run_filter_over(&mut filter, &mut write, &mut default_cf);
    filter.finish(&mut write);
    assert_eq!(1, filter.metrics.filtered);
    assert_eq!(1, element_count(&default_cf));
    assert_eq!(1, element_count(&write));
}

// Malformed keys and records are reported, not silently dropped.
#[test]
fn test_filter_rejects_malformed_input() {
    let mut write = Column::new();
    let mut default_cf = Column::new();
    let mut filter = Filter::new(50, 100);

    // an internal key too short for its trailer
    let r = filter.filter_key(&b"tiny".to_vec(), &b"".to_vec(), &mut write, &mut default_cf);
    assert!(r.is_err());

    // a user key too short for a timestamp suffix
    let bad_user = encode_key(&b"abc".to_vec(), 1, ValueType::Value);
    let r = filter.filter_key(&bad_user, &b"".to_vec(), &mut write, &mut default_cf);
    assert!(r.is_err());

    // a record that does not parse
    let good_key = encode_key(&append_ts(&b"key1".to_vec(), 7), 1, ValueType::Value);
    let r = filter.filter_key(&good_key, &b"junk".to_vec(), &mut write, &mut default_cf);
    assert!(r.is_err());
    assert_eq!(3, filter.metrics.total);
    assert_eq!(0, filter.metrics.filtered);
}

// Running the filter again at the same safe point has no additional effect.
#[test]
fn test_filter_idempotent_at_fixed_safe_point() {
    let mut write = Column::new();
    let mut default_cf = Column::new();

    put_data(b"key1", b"value1", 10, 15, 10, false, &mut default_cf, &mut write);
    put_data(b"key2", b"value21", 10, 15, 12, false, &mut default_cf, &mut write);
    put_data(b"key2", b"value22", 20, 25, 14, false, &mut default_cf, &mut write);
    put_data(b"key2", b"value23", 30, 35, 16, false, &mut default_cf, &mut write);
    delete_data(b"key3", 40, 22, &mut write);

    let mut filter = Filter::new(50, 100);
    filter.filter_keys_in_range(&b"".to_vec(), &b"z".to_vec(), &mut write, &mut default_cf);
    filter.finish(&mut write);

    let write_after: Vec<Vec<u8>> = (0..write.len()).map(|i| write.key_at(i).clone()).collect();
    let default_after: Vec<Vec<u8>> = (0..default_cf.len()).map(|i| default_cf.key_at(i).clone())
        .collect();

    let mut filter2 = Filter::new(50, 100);
    filter2.filter_keys_in_range(&b"".to_vec(), &b"z".to_vec(), &mut write, &mut default_cf);
    filter2.finish(&mut write);
    assert_eq!(0, filter2.metrics.filtered);

    let write_again: Vec<Vec<u8>> = (0..write.len()).map(|i| write.key_at(i).clone()).collect();
    let default_again: Vec<Vec<u8>> = (0..default_cf.len()).map(|i| default_cf.key_at(i)
        .clone()).collect();
    assert_eq!(write_after, write_again);
    assert_eq!(default_after, default_again);
}
