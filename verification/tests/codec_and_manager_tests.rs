// Key and record codecs, the region manager's lifecycle rules, memory
// accounting, lock cleanup, deletion deferral, and hint parsing.

use range_cache_engine::column::{ColEntry, Column, ENTRY_OVERHEAD};
use range_cache_engine::delete_range::DeleteRangeRunner;
use range_cache_engine::engine::ColumnFamily;
use range_cache_engine::gc::BackgroundRunnerCore;
use range_cache_engine::hint::{parse_hint_ranges, KeyRangeRule, LabelRule, RegionLabel};
use range_cache_engine::keys::{append_ts, decode_key, encode_key, split_ts, ValueType};
use range_cache_engine::loader::{LoadOutcome, SnapshotData};
use range_cache_engine::region::{EvictReason, Region, RegionState};
use range_cache_engine::region_manager::{LoadError, SnapshotError};
use range_cache_engine::tick::{compose_ts, gc_tick_safe_point, tso_timeout_ms};
use range_cache_engine::write_record::{parse_write, WriteRecord, WriteType};

fn new_region(id: u64, start: &[u8], end: &[u8]) -> Region {
    Region::new(id, 0, start.to_vec(), end.to_vec())
}

fn activate_region(core: &mut BackgroundRunnerCore, r: &Region) {
    core.range_manager.load_region(r.clone_region()).unwrap();
    core.range_manager.mark_ready_to_load(r.id);
    let snap = SnapshotData {
        seq_no: 0,
        default_entries: Vec::new(),
        write_entries: Vec::new(),
        lock_entries: Vec::new(),
    };
    let outcome = core.load_region_snapshot(r, &snap, 0);
    assert!(matches!(outcome, LoadOutcome::Loaded));
}

#[test]
fn test_internal_key_roundtrip() {
    let user_key = append_ts(&b"key1".to_vec(), 42);
    let k = encode_key(&user_key, 77, ValueType::Deletion);
    let decoded = decode_key(&k);
    assert_eq!(decoded.user_key, user_key);
    assert_eq!(decoded.sequence, 77);
    assert!(matches!(decoded.v_type, ValueType::Deletion));

    let (prefix, ts) = split_ts(&user_key).unwrap();
    assert_eq!(prefix, b"key1".to_vec());
    assert_eq!(ts, 42);

    // a user key too short for a timestamp suffix is rejected
    assert!(split_ts(&b"short".to_vec()).is_err());
}

#[test]
fn test_write_record_roundtrip() {
    let w = WriteRecord::new(WriteType::Put, 15, Some(b"inline".to_vec()));
    let bytes = w.encode();
    let parsed = parse_write(&bytes).unwrap();
    assert!(matches!(parsed.write_type, WriteType::Put));
    assert_eq!(parsed.start_ts, 15);
    assert_eq!(parsed.short_value, Some(b"inline".to_vec()));

    let w = WriteRecord::new(WriteType::Rollback, 9, None);
    let bytes = w.encode();
    let parsed = parse_write(&bytes).unwrap();
    assert!(matches!(parsed.write_type, WriteType::Rollback));
    assert_eq!(parsed.start_ts, 9);
    assert_eq!(parsed.short_value, None);

    // too short, unknown kind flag, and a bad short-value marker all fail
    assert!(parse_write(&b"x".to_vec()).is_err());
    let mut bad_flag = w.encode();
    bad_flag[0] = 99;
    assert!(parse_write(&bad_flag).is_err());
    let mut bad_marker = WriteRecord::new(WriteType::Put, 1, Some(b"v".to_vec())).encode();
    bad_marker[9] = 0;
    assert!(parse_write(&bad_marker).is_err());
}

#[test]
fn test_load_region_rejects_duplicates_and_overlap() {
    let mut core = BackgroundRunnerCore::new(u64::MAX, u64::MAX);
    core.range_manager.load_region(new_region(1, b"a", b"c")).unwrap();
    // the same id again
    assert_eq!(Err(LoadError::AlreadyExists), core.range_manager.load_region(new_region(1,
        b"x", b"y")));
    // an overlapping range under a fresh id
    assert_eq!(Err(LoadError::AlreadyExists), core.range_manager.load_region(new_region(2,
        b"b", b"d")));
    // a disjoint range is accepted
    core.range_manager.load_region(new_region(3, b"c", b"d")).unwrap();
    assert_eq!(Some(RegionState::Pending), core.range_manager.region_state(3));
}

#[test]
fn test_snapshot_requires_active_region() {
    let mut core = BackgroundRunnerCore::new(u64::MAX, u64::MAX);
    let r = new_region(1, b"a", b"c");
    core.range_manager.load_region(r.clone_region()).unwrap();
    // Pending regions serve no snapshots
    assert_eq!(Err(SnapshotError::RegionNotCached), core.range_manager.acquire_snapshot(1, 5));
    // unknown regions neither
    assert_eq!(Err(SnapshotError::RegionNotCached), core.range_manager.acquire_snapshot(9, 5));
    activate_region(&mut core, &new_region(2, b"x", b"z"));
    core.range_manager.acquire_snapshot(2, 5).unwrap();
    assert!(core.range_manager.remove_snapshot(2, 5));
    assert!(!core.range_manager.remove_snapshot(2, 5));
}

// Memory accounting follows every insert, replacement and erase exactly.
#[test]
fn test_memory_conservation() {
    let mut core = BackgroundRunnerCore::new(u64::MAX, u64::MAX);
    let k1 = encode_key(&append_ts(&b"a".to_vec(), 1), 1, ValueType::Value);
    let k1_len = k1.len() as u64;
    core.engine.acquire_and_insert(ColumnFamily::CfDefault, k1, b"xyz".to_vec());
    assert_eq!(k1_len + 3 + ENTRY_OVERHEAD, core.engine.mem_usage());

    // replacing the same key swaps the value's charge
    let k1 = encode_key(&append_ts(&b"a".to_vec(), 1), 1, ValueType::Value);
    core.engine.acquire_and_insert(ColumnFamily::CfDefault, k1, b"xy".to_vec());
    assert_eq!(k1_len + 2 + ENTRY_OVERHEAD, core.engine.mem_usage());

    let freed = core.engine.delete_range(&b"".to_vec(), &b"z".to_vec());
    assert_eq!(k1_len + 2 + ENTRY_OVERHEAD, freed);
    assert_eq!(0, core.engine.mem_usage());
}

// Loading, evicting with deletion, and loading again leaves the same
// contents as a single load.
#[test]
fn test_load_evict_load_roundtrip() {
    let mut core = BackgroundRunnerCore::new(u64::MAX, u64::MAX);
    let region = new_region(1, b"a", b"c");
    let entries = vec![
        ColEntry { key: b"a1".to_vec(), value: b"v1".to_vec() },
        ColEntry { key: b"a2".to_vec(), value: b"v2".to_vec() },
    ];
    let snap = SnapshotData {
        seq_no: 3,
        default_entries: entries.iter().map(|e| ColEntry {
            key: e.key.clone(),
            value: e.value.clone(),
        }).collect(),
        write_entries: Vec::new(),
        lock_entries: Vec::new(),
    };

    core.range_manager.load_region(region.clone_region()).unwrap();
    core.range_manager.mark_ready_to_load(region.id);
    assert!(matches!(core.load_region_snapshot(&region, &snap, 0), LoadOutcome::Loaded));
    let first: Vec<Vec<u8>> = {
        let cf = core.engine.cf_handle(ColumnFamily::CfDefault);
        (0..cf.len()).map(|i| cf.key_at(i).clone()).collect()
    };
    let first_usage = core.engine.mem_usage();

    let deleteable = core.range_manager.evict_region(&region, EvictReason::AutoEvict);
    DeleteRangeRunner::delete_regions(&mut core, &deleteable);
    assert_eq!(0, core.engine.cf_handle(ColumnFamily::CfDefault).len());
    assert_eq!(0, core.engine.mem_usage());

    core.range_manager.load_region(region.clone_region()).unwrap();
    core.range_manager.mark_ready_to_load(region.id);
    assert!(matches!(core.load_region_snapshot(&region, &snap, 0), LoadOutcome::Loaded));
    let second: Vec<Vec<u8>> = {
        let cf = core.engine.cf_handle(ColumnFamily::CfDefault);
        (0..cf.len()).map(|i| cf.key_at(i).clone()).collect()
    };
    assert_eq!(first, second);
    assert_eq!(first_usage, core.engine.mem_usage());
}

// Deletion defers while the region's range is being written or under GC.
#[test]
fn test_delete_range_defers_on_written_ranges() {
    let mut core = BackgroundRunnerCore::new(u64::MAX, u64::MAX);
    let region = new_region(1, b"a", b"c");
    activate_region(&mut core, &region);
    let deleteable = core.range_manager.evict_region(&region, EvictReason::AutoEvict);
    assert_eq!(1, deleteable.len());

    core.range_manager.add_range_being_written(b"b".to_vec(), b"bb".to_vec());
    let (delayed, now) = DeleteRangeRunner::partition_regions(&core, deleteable);
    assert_eq!(1, delayed.len());
    assert_eq!(0, now.len());

    // once the apply threads are done, the deletion may proceed
    core.range_manager.clear_ranges_being_written();
    let (delayed, now) = DeleteRangeRunner::partition_regions(&core, delayed);
    assert_eq!(0, delayed.len());
    assert_eq!(1, now.len());
    DeleteRangeRunner::delete_regions(&mut core, &now);
    assert!(core.range_manager.region_state(1).is_none());
}

// Deletion also defers while a GC pass still holds the region.
#[test]
fn test_delete_range_defers_during_gc() {
    let mut core = BackgroundRunnerCore::new(u64::MAX, u64::MAX);
    let region = new_region(1, b"a", b"c");
    activate_region(&mut core, &region);

    // a GC pass takes the region's guard
    assert!(core.range_manager.prepare_region_gc(&region, 10).is_some());
    let deleteable = core.range_manager.evict_region(&region, EvictReason::AutoEvict);
    assert_eq!(1, deleteable.len());

    let (delayed, now) = DeleteRangeRunner::partition_regions(&core, deleteable);
    assert_eq!(1, delayed.len());
    assert_eq!(0, now.len());

    core.range_manager.on_gc_region_finished(&region);
    let (delayed, now) = DeleteRangeRunner::partition_regions(&core, delayed);
    assert_eq!(0, delayed.len());
    assert_eq!(1, now.len());
    DeleteRangeRunner::delete_regions(&mut core, &now);
    assert!(core.range_manager.region_state(1).is_none());
}

#[test]
fn test_clean_lock_tombstone() {
    let mut core = BackgroundRunnerCore::new(u64::MAX, u64::MAX);
    // two versions of one lock key below the snapshot sequence, the newer
    // one a tombstone, plus one version above it
    let k_live = encode_key(&b"lock1".to_vec(), 30, ValueType::Value);
    let k_tomb = encode_key(&b"lock1".to_vec(), 8, ValueType::Deletion);
    let k_old = encode_key(&b"lock1".to_vec(), 5, ValueType::Value);
    let k_other = encode_key(&b"lock2".to_vec(), 6, ValueType::Value);
    core.engine.acquire_and_insert(ColumnFamily::CfLock, k_live, b"l".to_vec());
    core.engine.acquire_and_insert(ColumnFamily::CfLock, k_tomb, Vec::new());
    core.engine.acquire_and_insert(ColumnFamily::CfLock, k_old, b"l".to_vec());
    core.engine.acquire_and_insert(ColumnFamily::CfLock, k_other, b"l".to_vec());
    assert_eq!(4, core.engine.cf_handle(ColumnFamily::CfLock).len());

    let (removed, total) = core.clean_lock_tombstone(10);
    assert_eq!(4, total);
    // the old version goes; the tombstone leaves last; the version above
    // the sequence and the single live version of the other key stay
    assert_eq!(2, removed);
    assert_eq!(2, core.engine.cf_handle(ColumnFamily::CfLock).len());
}

#[test]
fn test_tick_computations() {
    assert_eq!(compose_ts(3, 1), 3 * 262144 + 1);
    assert_eq!(gc_tick_safe_point(1000, 100), 900 * 262144);
    assert_eq!(gc_tick_safe_point(50, 100), 0);
    assert_eq!(tso_timeout_ms(100), 100);
    assert_eq!(tso_timeout_ms(60000), 5000);
}

// The safe point a GC tick derives from the service's timestamp is a
// reasonable one: at or after the start of the window, and before now.
#[test]
fn test_gc_use_pd_tso() {
    let start_physical: u64 = 1_000_000;
    let gc_interval_ms: u64 = 100;
    let now_physical = start_physical + gc_interval_ms;
    let safe_point = gc_tick_safe_point(now_physical, gc_interval_ms);
    assert!(safe_point >= compose_ts(start_physical, 0));
    assert!(safe_point < compose_ts(now_physical, 0));
}

// The hint watcher decodes exactly the rules tagged for the cache; the
// decode round-trips with the hex encoding of the published rule.
#[test]
fn test_load_from_pd_hint_service() {
    let start = format!("k{:08}", 0).into_bytes();
    let end = format!("k{:08}", 20).into_bytes();
    let rule = LabelRule {
        labels: vec![RegionLabel { key: b"cache".to_vec(), value: b"always".to_vec() }],
        data: vec![KeyRangeRule {
            start_key: hex::encode(&start).into_bytes(),
            end_key: hex::encode(&end).into_bytes(),
        }],
    };
    let ranges = parse_hint_ranges(&rule);
    assert_eq!(1, ranges.len());
    assert_eq!(ranges[0].start, start);
    assert_eq!(ranges[0].end, end);

    // a rule without the always value requests nothing
    let rule = LabelRule {
        labels: vec![RegionLabel { key: b"cache".to_vec(), value: b"never".to_vec() }],
        data: vec![KeyRangeRule {
            start_key: hex::encode(&start).into_bytes(),
            end_key: hex::encode(&end).into_bytes(),
        }],
    };
    assert_eq!(0, parse_hint_ranges(&rule).len());

    // a malformed range is skipped, later ranges still decode
    let rule = LabelRule {
        labels: vec![RegionLabel { key: b"cache".to_vec(), value: b"always".to_vec() }],
        data: vec![
            KeyRangeRule { start_key: b"zz-not-hex".to_vec(), end_key: b"00".to_vec() },
            KeyRangeRule {
                start_key: hex::encode(&start).into_bytes(),
                end_key: hex::encode(&end).into_bytes(),
            },
        ],
    };
    let ranges = parse_hint_ranges(&rule);
    assert_eq!(1, ranges.len());
    assert_eq!(ranges[0].start, start);

    // a hinted region load lands in the manager
    let mut core = BackgroundRunnerCore::new(u64::MAX, u64::MAX);
    let region = new_region(1, &start, &end);
    range_cache_engine::hint::load_hint_regions(&mut core, vec![region]);
    assert_eq!(Some(RegionState::Pending), core.range_manager.region_state(1));
}

// A load that completes under a changed epoch settles every overlapping
// region instead of just its own id.
#[test]
fn test_load_finished_after_epoch_change() {
    let mut core = BackgroundRunnerCore::new(u64::MAX, u64::MAX);
    let region = new_region(1, b"a", b"c");
    core.range_manager.load_region(region.clone_region()).unwrap();
    core.range_manager.mark_ready_to_load(region.id);
    assert!(!core.range_manager.begin_load_region(region.id));

    // the loader's region observed a later epoch over the same range
    let later = Region::new(1, 1, b"a".to_vec(), b"c".to_vec());
    let removed = core.range_manager.on_snapshot_load_finished(&later, 7);
    assert_eq!(0, removed.len());
    assert_eq!(Some(RegionState::Active), core.range_manager.region_state(1));
}

// The memory check is single-flighted by the controller's flag.
#[test]
fn test_memory_check_single_flight() {
    let mut core = BackgroundRunnerCore::new(100, 200);
    let first = range_cache_engine::tasks::begin_memory_check(&mut core);
    assert_eq!(Some(false), first);
    // a second check while the first runs is refused
    assert_eq!(None, range_cache_engine::tasks::begin_memory_check(&mut core));
    range_cache_engine::tasks::finish_memory_check(&mut core);
    assert_eq!(Some(false), range_cache_engine::tasks::begin_memory_check(&mut core));
}

#[test]
fn test_evict_from_pending_and_active() {
    let mut core = BackgroundRunnerCore::new(u64::MAX, u64::MAX);
    let pending = new_region(1, b"a", b"b");
    core.range_manager.load_region(pending.clone_region()).unwrap();
    let active = new_region(2, b"b", b"c");
    activate_region(&mut core, &active);

    let deleteable = core.range_manager.evict_region(&pending, EvictReason::AutoEvict);
    assert_eq!(1, deleteable.len());
    assert_eq!(Some(RegionState::Evicting), core.range_manager.region_state(1));

    let deleteable = core.range_manager.evict_region(&active, EvictReason::MemoryLimitReached);
    assert_eq!(1, deleteable.len());
    assert_eq!(Some(RegionState::Evicting), core.range_manager.region_state(2));

    // evicting an already-evicting region is a no-op
    let deleteable = core.range_manager.evict_region(&active, EvictReason::AutoEvict);
    assert_eq!(0, deleteable.len());
}
