// The background core: GC rounds over regions, snapshots blocking GC,
// historical ranges, loading under memory limits, and region lifecycle.

use range_cache_engine::column::ColEntry;
use range_cache_engine::engine::ColumnFamily;
use range_cache_engine::gc::BackgroundRunnerCore;
use range_cache_engine::keys::{append_ts, encode_key, ValueType};
use range_cache_engine::loader::{LoadOutcome, SnapshotData};
use range_cache_engine::region::{EvictReason, Region, RegionState};
use range_cache_engine::tasks::BackgroundRunner;
use range_cache_engine::write_record::{WriteRecord, WriteType};

fn new_region(id: u64, start: &[u8], end: &[u8]) -> Region {
    Region::new(id, 0, start.to_vec(), end.to_vec())
}

fn new_core() -> BackgroundRunnerCore {
    BackgroundRunnerCore::new(u64::MAX, u64::MAX)
}

/// Registers a region and drives it to Active through the loader, with no
/// snapshot data.
fn activate_region(core: &mut BackgroundRunnerCore, r: &Region) {
    core.range_manager.load_region(r.clone_region()).unwrap();
    core.range_manager.mark_ready_to_load(r.id);
    let snap = SnapshotData {
        seq_no: 0,
        default_entries: Vec::new(),
        write_entries: Vec::new(),
        lock_entries: Vec::new(),
    };
    let outcome = core.load_region_snapshot(r, &snap, 0);
    assert!(matches!(outcome, LoadOutcome::Loaded));
    assert_eq!(core.range_manager.region_state(r.id), Some(RegionState::Active));
}

fn put_data(core: &mut BackgroundRunnerCore, key: &[u8], value: &[u8], start_ts: u64,
    commit_ts: u64, seq_num: u64) {
    let user_key = append_ts(&key.to_vec(), commit_ts);
    let write_k = encode_key(&user_key, seq_num, ValueType::Value);
    let record = WriteRecord::new(WriteType::Put, start_ts, None);
    core.engine.acquire_and_insert(ColumnFamily::CfWrite, write_k, record.encode());
    let default_user_key = append_ts(&key.to_vec(), start_ts);
    let default_k = encode_key(&default_user_key, seq_num + 1, ValueType::Value);
    core.engine.acquire_and_insert(ColumnFamily::CfDefault, default_k, value.to_vec());
}

fn write_len(core: &BackgroundRunnerCore) -> usize {
    core.engine.cf_handle(ColumnFamily::CfWrite).len()
}

fn default_len(core: &BackgroundRunnerCore) -> usize {
    core.engine.cf_handle(ColumnFamily::CfDefault).len()
}

// The GC of one region does not touch other regions' data.
#[test]
fn test_gc_one_range() {
    let mut core = new_core();
    let region1 = new_region(1, b"k00", b"k10");
    let region2 = new_region(2, b"k30", b"k40");
    activate_region(&mut core, &region1);
    activate_region(&mut core, &region2);

    put_data(&mut core, b"k05", b"val1", 10, 11, 10);
    put_data(&mut core, b"k05", b"val2", 12, 13, 14);
    put_data(&mut core, b"k05", b"val1", 14, 15, 18);
    put_data(&mut core, b"k35", b"val1", 10, 11, 12);
    put_data(&mut core, b"k35", b"val2", 12, 13, 16);
    put_data(&mut core, b"k35", b"val1", 14, 15, 20);

    assert_eq!(6, default_len(&core));
    assert_eq!(6, write_len(&core));

    let m = core.gc_region(&region1, 100, 100);
    assert_eq!(2, m.filtered);
    assert_eq!(4, default_len(&core));
    assert_eq!(4, write_len(&core));

    let m = core.gc_region(&region2, 100, 100);
    assert_eq!(2, m.filtered);
    assert_eq!(2, default_len(&core));
    assert_eq!(2, write_len(&core));
}

#[test]
fn test_snapshot_block_gc() {
    let mut core = new_core();
    let region = new_region(1, b"", b"z");
    activate_region(&mut core, &region);

    put_data(&mut core, b"key1", b"value1", 10, 11, 10);
    put_data(&mut core, b"key2", b"value21", 10, 11, 12);
    put_data(&mut core, b"key2", b"value22", 15, 16, 14);
    put_data(&mut core, b"key2", b"value23", 20, 21, 16);
    put_data(&mut core, b"key3", b"value31", 5, 6, 18);
    put_data(&mut core, b"key3", b"value32", 10, 11, 20);
    assert_eq!(6, default_len(&core));
    assert_eq!(6, write_len(&core));

    core.range_manager.acquire_snapshot(1, 10).unwrap();
    core.range_manager.acquire_snapshot(1, 11).unwrap();
    core.range_manager.acquire_snapshot(1, 20).unwrap();

    // nothing is removed: the oldest snapshot pins the safe point
    let m = core.gc_region(&region, 30, 100);
    assert_eq!(0, m.filtered);
    assert_eq!(6, default_len(&core));
    assert_eq!(6, write_len(&core));

    assert!(core.range_manager.remove_snapshot(1, 10));
    let m = core.gc_region(&region, 30, 100);
    assert_eq!(1, m.filtered);
    assert_eq!(5, default_len(&core));
    assert_eq!(5, write_len(&core));

    assert!(core.range_manager.remove_snapshot(1, 11));
    let m = core.gc_region(&region, 30, 100);
    assert_eq!(1, m.filtered);
    assert_eq!(4, default_len(&core));
    assert_eq!(4, write_len(&core));

    assert!(core.range_manager.remove_snapshot(1, 20));
    let m = core.gc_region(&region, 30, 100);
    assert_eq!(1, m.filtered);
    assert_eq!(3, default_len(&core));
    assert_eq!(3, write_len(&core));
}

// GC of regions covered by a historical range respects the snapshots the
// evicted range still holds open.
#[test]
fn test_gc_region_contained_in_historical_range() {
    let mut core = new_core();
    let region = new_region(1, b"", b"z");
    activate_region(&mut core, &region);

    put_data(&mut core, b"key1", b"value1", 9, 10, 10);
    put_data(&mut core, b"key1", b"value2", 11, 12, 11);
    put_data(&mut core, b"key1", b"value3", 30, 31, 20);
    put_data(&mut core, b"key9", b"value4", 13, 14, 12);
    put_data(&mut core, b"key9", b"value5", 14, 15, 13);
    put_data(&mut core, b"key9", b"value6", 30, 31, 21);

    core.range_manager.acquire_snapshot(1, 20).unwrap();
    core.range_manager.acquire_snapshot(1, 22).unwrap();
    core.range_manager.acquire_snapshot(1, 60).unwrap();

    // The old region is replaced: its snapshots move to the historical
    // list, its metadata leaves, and two smaller regions take over.
    let deleteable = core.range_manager.evict_region(&region, EvictReason::AutoEvict);
    assert_eq!(1, deleteable.len());
    core.range_manager.on_delete_regions(&deleteable);

    let region1 = new_region(1, b"", b"key5");
    let region3 = new_region(3, b"key8", b"z");
    activate_region(&mut core, &region1);
    activate_region(&mut core, &region3);

    assert_eq!(6, default_len(&core));
    assert_eq!(6, write_len(&core));

    let mut filtered = 0;
    filtered += core.gc_region(&region1, 50, 1000).filtered;
    filtered += core.gc_region(&region3, 50, 1000).filtered;
    assert_eq!(2, filtered);
    assert_eq!(4, default_len(&core));
    assert_eq!(4, write_len(&core));

    assert!(core.range_manager.remove_snapshot(1, 20));
    let mut filtered = 0;
    filtered += core.gc_region(&region1, 50, 1000).filtered;
    filtered += core.gc_region(&region3, 50, 1000).filtered;
    assert_eq!(0, filtered);
    assert_eq!(4, default_len(&core));
    assert_eq!(4, write_len(&core));

    assert!(core.range_manager.remove_snapshot(1, 22));
    let mut filtered = 0;
    filtered += core.gc_region(&region1, 50, 1000).filtered;
    filtered += core.gc_region(&region3, 50, 1000).filtered;
    assert_eq!(2, filtered);
    assert_eq!(2, default_len(&core));
    assert_eq!(2, write_len(&core));
}

#[test]
fn test_ranges_for_gc() {
    let mut core = new_core();
    let r1 = new_region(1, b"a", b"b");
    let r2 = new_region(2, b"b", b"c");
    activate_region(&mut core, &r1);
    activate_region(&mut core, &r2);

    let regions = core.regions_for_gc();
    assert_eq!(2, regions.len());

    // until the previous round finishes, no regions come back
    assert!(core.regions_for_gc().is_empty());
    core.on_gc_finished();

    let regions = core.regions_for_gc();
    assert_eq!(2, regions.len());
}

fn snapshot_entry(key: &[u8], value: &[u8]) -> ColEntry {
    ColEntry { key: key.to_vec(), value: value.to_vec() }
}

// The loader ingests exactly the snapshot its region was given.
#[test]
fn test_background_worker_load() {
    let mut core = new_core();
    let mut runner_data1: Vec<ColEntry> = Vec::new();
    let mut runner_data2: Vec<ColEntry> = Vec::new();
    for i in 10..15u32 {
        let key = format!("k{:08}", i).into_bytes();
        let value = format!("v{:08}", i).into_bytes();
        runner_data1.push(snapshot_entry(&key, &value));
    }
    for i in 15..20u32 {
        let key = format!("k{:08}", i).into_bytes();
        let value = format!("v{:08}", i).into_bytes();
        runner_data2.push(snapshot_entry(&key, &value));
    }
    let split_key = format!("k{:08}", 15).into_bytes();
    let region1 = new_region(1, b"k", &split_key);
    let region2 = new_region(2, &split_key, b"l");

    core.range_manager.load_region(region1.clone_region()).unwrap();
    core.range_manager.mark_ready_to_load(region1.id);
    let snap1 = SnapshotData {
        seq_no: 7,
        default_entries: runner_data1.iter().map(|e| snapshot_entry(&e.key, &e.value)).collect(),
        write_entries: runner_data1.iter().map(|e| snapshot_entry(&e.key, &e.value)).collect(),
        lock_entries: Vec::new(),
    };
    let outcome = core.load_region_snapshot(&region1, &snap1, 0);
    assert!(matches!(outcome, LoadOutcome::Loaded));

    core.range_manager.load_region(region2.clone_region()).unwrap();
    core.range_manager.mark_ready_to_load(region2.id);
    let snap2 = SnapshotData {
        seq_no: 7,
        default_entries: runner_data2.iter().map(|e| snapshot_entry(&e.key, &e.value)).collect(),
        write_entries: runner_data2.iter().map(|e| snapshot_entry(&e.key, &e.value)).collect(),
        lock_entries: Vec::new(),
    };
    let outcome = core.load_region_snapshot(&region2, &snap2, 0);
    assert!(matches!(outcome, LoadOutcome::Loaded));

    assert_eq!(10, write_len(&core));
    assert_eq!(10, default_len(&core));
    // a key outside both snapshots was never loaded
    let absent = append_ts(&format!("k{:08}", 20).into_bytes(), 0);
    let seek = encode_key(&absent, 0, ValueType::Value);
    let write_cf = core.engine.cf_handle(ColumnFamily::CfWrite);
    let pos = write_cf.seek(&seek);
    assert_eq!(pos, write_cf.len());
}

// Loading stops at the hard limit; raising it lets the region in.
#[test]
fn test_snapshot_load_reaching_limit() {
    let mut core = BackgroundRunnerCore::new(1000, 1500);
    // each entry charges 17 (key) + 8 (trailer) + 3 (value) + 112 = 140 bytes
    let mut entries_a: Vec<ColEntry> = Vec::new();
    let mut entries_b: Vec<ColEntry> = Vec::new();
    for i in 1..3u32 {
        let key = format!("k{:08}{:07}0", i, 10).into_bytes();
        assert_eq!(17, key.len());
        entries_a.push(snapshot_entry(&key, b"val"));
    }
    for i in 3..5u32 {
        let key = format!("k{:08}{:07}0", i, 10).into_bytes();
        entries_b.push(snapshot_entry(&key, b"val"));
    }

    let region1 = new_region(1, b"k00000001", b"k00000003");
    core.range_manager.load_region(region1.clone_region()).unwrap();
    core.range_manager.mark_ready_to_load(region1.id);
    let snap1 = SnapshotData {
        seq_no: 1,
        default_entries: entries_a.iter().map(|e| snapshot_entry(&e.key, &e.value)).collect(),
        write_entries: entries_a.iter().map(|e| snapshot_entry(&e.key, &e.value)).collect(),
        lock_entries: entries_a.iter().map(|e| snapshot_entry(&e.key, &e.value)).collect(),
    };
    let outcome = core.load_region_snapshot(&region1, &snap1, 0);
    assert!(matches!(outcome, LoadOutcome::Loaded));
    assert_eq!(840, core.engine.mem_usage());

    // loading region2 would cross the 1500-byte hard limit mid-way
    let region2 = new_region(2, b"k00000003", b"k00000005");
    core.range_manager.load_region(region2.clone_region()).unwrap();
    core.range_manager.mark_ready_to_load(region2.id);
    let snap2 = SnapshotData {
        seq_no: 1,
        default_entries: entries_b.iter().map(|e| snapshot_entry(&e.key, &e.value)).collect(),
        write_entries: entries_b.iter().map(|e| snapshot_entry(&e.key, &e.value)).collect(),
        lock_entries: entries_b.iter().map(|e| snapshot_entry(&e.key, &e.value)).collect(),
    };
    let outcome = core.load_region_snapshot(&region2, &snap2, 0);
    let removed = match outcome {
        LoadOutcome::FailedMidLoad(removed) => removed,
        _ => panic!("the load should fail at the hard limit"),
    };
    assert_eq!(1, removed.len());
    assert_eq!(RegionState::Evicting, core.range_manager.region_state(region2.id).unwrap());

    // the partial inserts leave with the region
    range_cache_engine::delete_range::DeleteRangeRunner::delete_regions(&mut core, &removed);
    assert_eq!(840, core.engine.mem_usage());
    assert!(core.range_manager.region_state(region2.id).is_none());
}

// Raising the hard limit lets a previously refused region load fully.
#[test]
fn test_soft_hard_limit_change() {
    let mut core = BackgroundRunnerCore::new(1000, 1500);
    let mut entries_a: Vec<ColEntry> = Vec::new();
    let mut entries_b: Vec<ColEntry> = Vec::new();
    for i in 1..3u32 {
        let key = format!("k{:08}{:07}0", i, 10).into_bytes();
        entries_a.push(snapshot_entry(&key, b"val"));
    }
    for i in 3..5u32 {
        let key = format!("k{:08}{:07}0", i, 10).into_bytes();
        entries_b.push(snapshot_entry(&key, b"val"));
    }

    let region1 = new_region(1, b"k00000001", b"k00000003");
    core.range_manager.load_region(region1.clone_region()).unwrap();
    core.range_manager.mark_ready_to_load(region1.id);
    let snap1 = SnapshotData {
        seq_no: 1,
        default_entries: entries_a.iter().map(|e| snapshot_entry(&e.key, &e.value)).collect(),
        write_entries: entries_a.iter().map(|e| snapshot_entry(&e.key, &e.value)).collect(),
        lock_entries: entries_a.iter().map(|e| snapshot_entry(&e.key, &e.value)).collect(),
    };
    assert!(matches!(core.load_region_snapshot(&region1, &snap1, 0), LoadOutcome::Loaded));
    assert_eq!(840, core.engine.mem_usage());

    let region2 = new_region(2, b"k00000003", b"k00000005");
    core.range_manager.load_region(region2.clone_region()).unwrap();
    core.range_manager.mark_ready_to_load(region2.id);
    let snap2 = SnapshotData {
        seq_no: 1,
        default_entries: entries_b.iter().map(|e| snapshot_entry(&e.key, &e.value)).collect(),
        write_entries: entries_b.iter().map(|e| snapshot_entry(&e.key, &e.value)).collect(),
        lock_entries: entries_b.iter().map(|e| snapshot_entry(&e.key, &e.value)).collect(),
    };
    let outcome = core.load_region_snapshot(&region2, &snap2, 0);
    let removed = match outcome {
        LoadOutcome::FailedMidLoad(removed) => removed,
        _ => panic!("the load should fail at the hard limit"),
    };
    range_cache_engine::delete_range::DeleteRangeRunner::delete_regions(&mut core, &removed);

    // the memory quota changes; region2 now fits
    core.engine.mem.set_limits(1000, 2000);
    core.range_manager.load_region(region2.clone_region()).unwrap();
    core.range_manager.mark_ready_to_load(region2.id);
    assert!(matches!(core.load_region_snapshot(&region2, &snap2, 0), LoadOutcome::Loaded));
    assert_eq!(1680, core.engine.mem_usage());
}

// A load canceled by a concurrent eviction completes as an eviction.
#[test]
fn test_load_canceled_by_evict() {
    let mut core = new_core();
    let region = new_region(1, b"a", b"b");
    core.range_manager.load_region(region.clone_region()).unwrap();
    core.range_manager.mark_ready_to_load(region.id);
    // the loader takes the region
    assert!(!core.range_manager.begin_load_region(region.id));

    // an eviction arrives while the load is in flight: the loader finishes it
    let deleteable = core.range_manager.evict_region(&region, EvictReason::AutoEvict);
    assert_eq!(0, deleteable.len());
    assert_eq!(RegionState::LoadingCanceled, core.range_manager.region_state(region.id)
        .unwrap());

    let snap = SnapshotData {
        seq_no: 1,
        default_entries: vec![snapshot_entry(b"a1", b"v")],
        write_entries: Vec::new(),
        lock_entries: Vec::new(),
    };
    let outcome = core.load_region_snapshot(&region, &snap, 0);
    let removed = match outcome {
        LoadOutcome::CanceledBeforeStart(removed) => removed,
        _ => panic!("the load should observe the cancellation"),
    };
    assert_eq!(1, removed.len());
    assert_eq!(RegionState::Evicting, core.range_manager.region_state(region.id).unwrap());
    assert_eq!(0, write_len(&core));
    assert_eq!(0, default_len(&core));
}

// The top-regions recomputation is single-flighted by the core's guard.
#[test]
fn test_top_regions_single_flight() {
    let mut core = new_core();
    let region = new_region(1, b"a", b"b");
    activate_region(&mut core, &region);

    // another recomputation holds the guard: this one is a no-op
    assert!(core.try_begin_top_regions_check());
    let to_add = vec![new_region(2, b"b", b"c")];
    let to_remove: Vec<Region> = Vec::new();
    let deleted = range_cache_engine::tasks::top_regions_load_evict(&mut core, &to_add,
        &to_remove);
    assert_eq!(0, deleted.len());
    assert!(core.range_manager.region_state(2).is_none());
    core.finish_top_regions_check();

    // with the guard free the promotion goes through
    let deleted = range_cache_engine::tasks::top_regions_load_evict(&mut core, &to_add,
        &to_remove);
    assert_eq!(0, deleted.len());
    assert_eq!(Some(RegionState::Pending), core.range_manager.region_state(2));
    assert!(!core.checking_top_regions);
}

// A stale lock-cleanup task is dropped; a fresh one records its sequence.
#[test]
fn test_clean_lock_tombstone_sequencing() {
    let mut runner = BackgroundRunner::new(u64::MAX, u64::MAX);
    assert_eq!(0, runner.last_seqno);
    let first = runner.handle_clean_lock_tombstone(10);
    assert!(first.is_some());
    assert_eq!(10, runner.last_seqno);
    // an older snapshot sequence is stale
    assert!(runner.handle_clean_lock_tombstone(9).is_none());
    assert_eq!(10, runner.last_seqno);
    // the same or a newer one runs and is recorded
    assert!(runner.handle_clean_lock_tombstone(12).is_some());
    assert_eq!(12, runner.last_seqno);
}

// A whole GC round is single-flighted and composes per-region passes.
#[test]
fn test_run_gc_round() {
    let mut runner = BackgroundRunner::new(u64::MAX, u64::MAX);
    let region = new_region(1, b"", b"z");
    activate_region(&mut runner.core, &region);
    put_data(&mut runner.core, b"key1", b"value1", 10, 11, 10);
    put_data(&mut runner.core, b"key1", b"value2", 12, 13, 12);

    // without a disk engine the task is dropped
    let m = runner.run_gc_round(20, 100);
    assert_eq!(0, m.total);
    assert_eq!(2, write_len(&runner.core));

    runner.set_rocks_engine();
    let m = runner.run_gc_round(20, 100);
    assert_eq!(1, m.filtered);
    assert_eq!(1, write_len(&runner.core));
}
