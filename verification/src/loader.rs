//! The memory-bounded snapshot loader: ingests a consistent on-disk
//! snapshot of one region into the in-memory columns, charging the memory
//! controller for every entry and aborting at the hard limit.

use vstd::prelude::*;

use crate::column::{col_insert, entry_size, has_key, spec_get, ColEntry, KvView};
use crate::engine::ColumnFamily;
use crate::filter::Filter;
use crate::gc::BackgroundRunnerCore;
use crate::keys::{spec_encode_key, ValueType, MAX_SEQUENCE_NUMBER};
use crate::memory::MemoryUsage;
use crate::region::{Region, RegionState};
use crate::column::ENTRY_OVERHEAD;
use crate::region_manager::{fail_removed, has_id, id_index, single_mode};

verus! {

/// The plain contents of one on-disk snapshot of a region: for each column,
/// the user keys and values the disk iterator yields, and the snapshot's
/// sequence number, under which every entry is inserted.
pub struct SnapshotData {
    pub seq_no: u64,
    pub default_entries: Vec<ColEntry>,
    pub write_entries: Vec<ColEntry>,
    pub lock_entries: Vec<ColEntry>,
}

/// How a load ended.
pub enum LoadOutcome {
    Loaded,
    CanceledBeforeStart(Vec<Region>),
    FailedMidLoad(Vec<Region>),
    CanceledAfterLoad(Vec<Region>),
}

/// The result of charging and inserting a run of entries: the new column
/// contents, the new usage, and how many entries went in before the hard
/// limit refused one.
pub ghost struct LoadColResult {
    pub col: Seq<KvView>,
    pub used: u64,
    pub inserted: int,
    pub ok: bool,
}

/// Charges and inserts entries one by one, stopping at the first entry the
/// hard limit refuses.
pub open spec fn load_col_fold(col: Seq<KvView>, used: u64, hard: u64, entries: Seq<KvView>,
    seq_no: u64) -> LoadColResult
    decreases entries.len(),
{
    if entries.len() == 0 {
        LoadColResult { col, used, inserted: 0, ok: true }
    } else {
        let enc = spec_encode_key(entries[0].0, seq_no, ValueType::Value);
        let size = entry_size((enc, entries[0].1));
        if used + size > hard {
            LoadColResult { col, used, inserted: 0, ok: false }
        } else {
            let back = if has_key(col, enc) {
                entry_size((enc, spec_get(col, enc)))
            } else {
                0
            };
            let rest = load_col_fold(col_insert(col, enc, entries[0].1), (used + size
                - back) as u64, hard, entries.skip(1), seq_no);
            LoadColResult { inserted: rest.inserted + 1, ..rest }
        }
    }
}

proof fn lemma_load_col_fold_push(col: Seq<KvView>, used: u64, hard: u64, entries: Seq<KvView>,
    e: KvView, seq_no: u64)
    requires
        load_col_fold(col, used, hard, entries, seq_no).ok,
    ensures
        load_col_fold(col, used, hard, entries.push(e), seq_no) == ({
            let mid = load_col_fold(col, used, hard, entries, seq_no);
            let enc = spec_encode_key(e.0, seq_no, ValueType::Value);
            let size = entry_size((enc, e.1));
            if mid.used + size > hard {
                LoadColResult { col: mid.col, used: mid.used, inserted: mid.inserted, ok: false }
            } else {
                let back = if has_key(mid.col, enc) {
                    entry_size((enc, spec_get(mid.col, enc)))
                } else {
                    0
                };
                LoadColResult {
                    col: col_insert(mid.col, enc, e.1),
                    used: (mid.used + size - back) as u64,
                    inserted: mid.inserted + 1,
                    ok: true,
                }
            }
        }),
    decreases entries.len(),
{
    if entries.len() == 0 {
        assert(entries.push(e)[0] == e);
        assert(entries.push(e).skip(1) =~= Seq::<KvView>::empty());
        let enc = spec_encode_key(e.0, seq_no, ValueType::Value);
        let size = entry_size((enc, e.1));
        assert(load_col_fold(col, used, hard, entries, seq_no) == (LoadColResult {
            col,
            used,
            inserted: 0,
            ok: true,
        }));
        if used + size <= hard {
            let back = if has_key(col, enc) {
                entry_size((enc, spec_get(col, enc)))
            } else {
                0
            };
            assert(load_col_fold(col_insert(col, enc, e.1), (used + size - back) as u64, hard,
                entries.push(e).skip(1), seq_no) == (LoadColResult {
                col: col_insert(col, enc, e.1),
                used: (used + size - back) as u64,
                inserted: 0,
                ok: true,
            }));
        }
    } else {
        assert(entries.push(e)[0] == entries[0]);
        assert(entries.push(e).skip(1) =~= entries.skip(1).push(e));
        let enc0 = spec_encode_key(entries[0].0, seq_no, ValueType::Value);
        let size0 = entry_size((enc0, entries[0].1));
        assert(used + size0 <= hard) by {
            if used + size0 > hard {
                assert(load_col_fold(col, used, hard, entries, seq_no) == (LoadColResult {
                    col,
                    used,
                    inserted: 0,
                    ok: false,
                }));
            }
        }
        let back0 = if has_key(col, enc0) {
            entry_size((enc0, spec_get(col, enc0)))
        } else {
            0
        };
        let col1 = col_insert(col, enc0, entries[0].1);
        let used1 = (used + size0 - back0) as u64;
        assert(load_col_fold(col, used, hard, entries, seq_no) == ({
            let rest = load_col_fold(col1, used1, hard, entries.skip(1), seq_no);
            LoadColResult { inserted: rest.inserted + 1, ..rest }
        }));
        assert(load_col_fold(col1, used1, hard, entries.skip(1), seq_no).ok);
        lemma_load_col_fold_push(col1, used1, hard, entries.skip(1), e, seq_no);
        assert(load_col_fold(col, used, hard, entries.push(e), seq_no) == ({
            let rest = load_col_fold(col1, used1, hard, entries.skip(1).push(e), seq_no);
            LoadColResult { inserted: rest.inserted + 1, ..rest }
        }));
    }
}


/// Once the hard limit refuses an entry, the fold over the whole run stops
/// there.
proof fn lemma_load_col_fold_fail_extend(col: Seq<KvView>, used: u64, hard: u64, entries: Seq<
    KvView,
>, i: int, seq_no: u64)
    requires
        0 <= i < entries.len(),
        load_col_fold(col, used, hard, entries.take(i), seq_no).ok,
        load_col_fold(col, used, hard, entries.take(i), seq_no).used + entry_size((
        spec_encode_key(entries[i].0, seq_no, ValueType::Value), entries[i].1)) > hard,
    ensures
        load_col_fold(col, used, hard, entries, seq_no) == (LoadColResult {
            col: load_col_fold(col, used, hard, entries.take(i), seq_no).col,
            used: load_col_fold(col, used, hard, entries.take(i), seq_no).used,
            inserted: load_col_fold(col, used, hard, entries.take(i), seq_no).inserted,
            ok: false,
        }),
    decreases i,
{
    if i == 0 {
        assert(entries.take(0) =~= Seq::<KvView>::empty());
        assert(load_col_fold(col, used, hard, entries.take(0), seq_no) == (LoadColResult {
            col,
            used,
            inserted: 0,
            ok: true,
        }));
    } else {
        let enc0 = spec_encode_key(entries[0].0, seq_no, ValueType::Value);
        let size0 = entry_size((enc0, entries[0].1));
        assert(entries.take(i)[0] == entries[0]);
        assert(used + size0 <= hard) by {
            if used + size0 > hard {
                assert(load_col_fold(col, used, hard, entries.take(i), seq_no).ok == false);
            }
        }
        let back0 = if has_key(col, enc0) {
            entry_size((enc0, spec_get(col, enc0)))
        } else {
            0
        };
        let col1 = col_insert(col, enc0, entries[0].1);
        let used1 = (used + size0 - back0) as u64;
        assert(entries.take(i).skip(1) =~= entries.skip(1).take(i - 1));
        assert(entries.skip(1)[i - 1] == entries[i]);
        assert(load_col_fold(col, used, hard, entries.take(i), seq_no) == ({
            let rest = load_col_fold(col1, used1, hard, entries.skip(1).take(i - 1), seq_no);
            LoadColResult { inserted: rest.inserted + 1, ..rest }
        }));
        lemma_load_col_fold_fail_extend(col1, used1, hard, entries.skip(1), i - 1, seq_no);
        assert(load_col_fold(col, used, hard, entries, seq_no) == ({
            let rest = load_col_fold(col1, used1, hard, entries.skip(1), seq_no);
            LoadColResult { inserted: rest.inserted + 1, ..rest }
        }));
    }
}

impl BackgroundRunnerCore {
    /// Charges and inserts one snapshot column, stopping at the first entry
    /// that the hard limit refuses; reports whether every entry went in.
    fn load_column(&mut self, cf: ColumnFamily, entries: &Vec<ColEntry>, seq_no: u64) -> (ok:
        bool)
        requires
            old(self).wf(),
            seq_no <= MAX_SEQUENCE_NUMBER,
            forall|j: int|
                0 <= j < entries@.len() ==> (#[trigger] entries@[j])@.0.len() + 8 + entries@[
                j]@.1.len() + ENTRY_OVERHEAD < u64::MAX,
        ensures
            final(self).wf(),
            final(self).range_manager == old(self).range_manager,
            final(self).engine.mem.spec_soft_limit() == old(self).engine.mem.spec_soft_limit(),
            final(self).engine.mem.spec_hard_limit() == old(self).engine.mem.spec_hard_limit(),
            forall|other: ColumnFamily| other != cf ==> final(self).engine.cf_view(other)
                == old(self).engine.cf_view(other),
            ({
                let r = load_col_fold(old(self).engine.cf_view(cf),
                    old(self).engine.mem.spec_used(), old(self).engine.mem.spec_hard_limit(),
                    entries@.map_values(|x: ColEntry| x@), seq_no);
                &&& ok == r.ok
                &&& final(self).engine.cf_view(cf) == r.col
                &&& final(self).engine.mem.spec_used() == r.used
            }),
    {
        let ghost es = entries@.map_values(|x: ColEntry| x@);
        let ghost col0 = self.engine.cf_view(cf);
        let ghost used0 = self.engine.mem.spec_used();
        let ghost hard = self.engine.mem.spec_hard_limit();
        let mut i: usize = 0;
        proof {
            assert(es.take(0) =~= Seq::<KvView>::empty());
        }
        while i < entries.len()
            invariant
                i <= es.len(),
                es == entries@.map_values(|x: ColEntry| x@),
                es.len() == entries@.len(),
                self.wf(),
                self.range_manager == old(self).range_manager,
                self.engine.mem.spec_soft_limit() == old(self).engine.mem.spec_soft_limit(),
                self.engine.mem.spec_hard_limit() == hard,
                forall|other: ColumnFamily| other != cf ==> self.engine.cf_view(other) == old(
                    self).engine.cf_view(other),
                load_col_fold(col0, used0, hard, es.take(i as int), seq_no) == (LoadColResult {
                    col: self.engine.cf_view(cf),
                    used: self.engine.mem.spec_used(),
                    inserted: i as int,
                    ok: true,
                }),
            decreases es.len() - i,
        {
            proof {
                assert(es.take(i as int + 1) =~= es.take(i as int).push(es[i as int]));
                lemma_load_col_fold_push(col0, used0, hard, es.take(i as int), es[i as int],
                    seq_no);
                assert(es[i as int] == entries@[i as int]@);
            }
            let e = &entries[i];
            let key = crate::column::clone_bytes(&e.key);
            let value = crate::column::clone_bytes(&e.value);
            let enc = crate::keys::encode_key(&key, seq_no, ValueType::Value);
            match self.engine.acquire_and_insert(cf, enc, value) {
                MemoryUsage::Acquired => {},
                MemoryUsage::HardLimitReached(_) => {
                    proof {
                        lemma_load_col_fold_fail_extend(col0, used0, hard, es, i as int,
                            seq_no);
                    }
                    return false;
                },
            }
            i = i + 1;
        }
        proof {
            assert(es.take(i as int) =~= es);
        }
        true
    }

    /// Loads one region from a disk snapshot. The load is skipped when it
    /// was canceled while queued or memory already sits at the soft limit;
    /// it aborts when the hard limit refuses an entry mid-way; otherwise
    /// the data of all three columns goes in, an initial GC pass runs at
    /// `initial_safe_point`, and the region becomes Active. Each outcome
    /// pins the columns, the byte accounting, and the region transition.
    pub fn load_region_snapshot(&mut self, region: &Region, snapshot: &SnapshotData,
        initial_safe_point: u64) -> (outcome: LoadOutcome)
        requires
            old(self).wf(),
            snapshot.seq_no <= MAX_SEQUENCE_NUMBER,
            single_mode(old(self).range_manager.regions_view(), region@),
            has_id(old(self).range_manager.regions_view(), region@.id),
            old(self).range_manager.regions_view()[id_index(old(
                self).range_manager.regions_view(), region@.id)].state
                == RegionState::ReadyToLoad || old(self).range_manager.regions_view()[id_index(
                old(self).range_manager.regions_view(), region@.id)].state
                == RegionState::LoadingCanceled,
            forall|j: int|
                0 <= j < snapshot.default_entries@.len() ==> (
                #[trigger] snapshot.default_entries@[j])@.0.len() + 8
                    + snapshot.default_entries@[j]@.1.len() + ENTRY_OVERHEAD
                    < u64::MAX,
            forall|j: int|
                0 <= j < snapshot.write_entries@.len() ==> (
                #[trigger] snapshot.write_entries@[j])@.0.len() + 8 + snapshot.write_entries@[
                j]@.1.len() + ENTRY_OVERHEAD < u64::MAX,
            forall|j: int|
                0 <= j < snapshot.lock_entries@.len() ==> (
                #[trigger] snapshot.lock_entries@[j])@.0.len() + 8 + snapshot.lock_entries@[
                j]@.1.len() + ENTRY_OVERHEAD < u64::MAX,
        ensures
            final(self).wf(),
            final(self).range_manager.hist_view() == old(self).range_manager.hist_view(),
            final(self).range_manager.written_view() == old(self).range_manager.written_view(),
            final(self).range_manager.spec_regions_in_gc() == old(
                self).range_manager.spec_regions_in_gc(),
            final(self).engine.mem.spec_soft_limit() == old(self).engine.mem.spec_soft_limit(),
            final(self).engine.mem.spec_hard_limit() == old(self).engine.mem.spec_hard_limit(),
            ({
                let s0 = old(self).range_manager.regions_view();
                let p = id_index(s0, region@.id);
                let was_canceled = s0[p].state == RegionState::LoadingCanceled;
                let at_soft = old(self).engine.mem.spec_used() >= old(
                    self).engine.mem.spec_soft_limit();
                let hard = old(self).engine.mem.spec_hard_limit();
                let fd = load_col_fold(old(self).engine.default_cf@,
                    old(self).engine.mem.spec_used(), hard, snapshot.default_entries@.map_values(
                    |x: ColEntry| x@), snapshot.seq_no);
                let fl = load_col_fold(old(self).engine.lock_cf@, fd.used, hard,
                    snapshot.lock_entries@.map_values(|x: ColEntry| x@), snapshot.seq_no);
                let fw = load_col_fold(old(self).engine.write_cf@, fl.used, hard,
                    snapshot.write_entries@.map_values(|x: ColEntry| x@), snapshot.seq_no);
                let pass = crate::gc::gc_pass_result(fw.col, fd.col, initial_safe_point,
                    u64::MAX, region@.start, region@.end);
                match outcome {
                    LoadOutcome::CanceledBeforeStart(removed) => {
                        &&& (was_canceled || at_soft)
                        &&& final(self).engine == old(self).engine
                        &&& removed@.map_values(|r: Region| r@) == fail_removed(s0, region@,
                            true)
                        &&& final(self).range_manager.regions_view() == s0.update(p,
                            crate::region_manager::spec_fail_meta(s0[p], false))
                    },
                    LoadOutcome::FailedMidLoad(removed) => {
                        &&& !was_canceled && !at_soft
                        &&& !(fd.ok && fl.ok && fw.ok)
                        &&& removed@.map_values(|r: Region| r@) == fail_removed(s0, region@,
                            true)
                        &&& final(self).range_manager.regions_view() == s0.update(p,
                            crate::region_manager::spec_fail_meta(s0[p], true))
                        &&& final(self).engine.default_cf@ == fd.col
                        &&& final(self).engine.lock_cf@ == if fd.ok {
                            fl.col
                        } else {
                            old(self).engine.lock_cf@
                        }
                        &&& final(self).engine.write_cf@ == if fd.ok && fl.ok {
                            fw.col
                        } else {
                            old(self).engine.write_cf@
                        }
                        &&& final(self).engine.mem.spec_used() == if !fd.ok {
                            fd.used
                        } else if !fl.ok {
                            fl.used
                        } else {
                            fw.used
                        }
                    },
                    LoadOutcome::Loaded => {
                        &&& !was_canceled && !at_soft
                        &&& fd.ok && fl.ok && fw.ok
                        &&& final(self).engine.lock_cf@ == fl.col
                        &&& final(self).engine.write_cf@ == pass.write_col
                        &&& final(self).engine.default_cf@ == pass.default_col
                        &&& final(self).engine.mem.spec_used() == fw.used - (
                        crate::column::col_size(fw.col) + crate::column::col_size(fd.col)
                            - crate::column::col_size(pass.write_col)
                            - crate::column::col_size(pass.default_col))
                        &&& final(self).range_manager.regions_view() == s0.update(p,
                            crate::region_manager::MetaView {
                                state: RegionState::Active,
                                safe_point: initial_safe_point,
                                ..s0[p]
                            })
                    },
                    LoadOutcome::CanceledAfterLoad(_) => false,
                }
            }),
    {
        let ghost s0 = self.range_manager.regions_view();
        let ghost t = region@;
        let ghost p0 = id_index(s0, t.id);
        let canceled = self.range_manager.begin_load_region(region.id);
        let ghost s1 = self.range_manager.regions_view();
        proof {
            if canceled {
                assert(s1 == s0);
            } else {
                assert(s1 == s0.update(p0, crate::region_manager::MetaView {
                    state: RegionState::Loading,
                    ..s0[p0]
                }));
            }
            crate::region_manager::lemma_id_index_props(s0, t.id);
            assert forall|j: int| 0 <= j < s0.len() implies (#[trigger] s1[j]).region == (
            #[trigger] s0[j]).region by {
                if canceled {
                    assert(s1[j] == s0[j]);
                } else if j == p0 {
                    assert(s1[p0] == (crate::region_manager::MetaView {
                        state: RegionState::Loading,
                        ..s0[p0]
                    }));
                } else {
                    assert(s1[j] == s0[j]);
                }
            }
            lemma_load_step_view(s0, s1, t, p0);
        }
        let at_soft_limit = self.engine.mem.reached_soft_limit();
        if canceled || at_soft_limit {
            proof {
                lemma_hit_only_at(s1, t, p0);
            }
            let removed = self.range_manager.on_snapshot_load_failed(region, false);
            proof {
                lemma_fail_removed_regions_only(s1, s0, t, true);
                lemma_fail_view_value(s0, s1, self.range_manager.regions_view(), t, p0, false,
                    canceled);
            }
            return LoadOutcome::CanceledBeforeStart(removed);
        }
        let ok_default = self.load_column(ColumnFamily::CfDefault, &snapshot.default_entries,
            snapshot.seq_no);
        let ok_lock = if ok_default {
            self.load_column(ColumnFamily::CfLock, &snapshot.lock_entries, snapshot.seq_no)
        } else {
            false
        };
        let ok_write = if ok_lock {
            self.load_column(ColumnFamily::CfWrite, &snapshot.write_entries, snapshot.seq_no)
        } else {
            false
        };
        if !ok_write {
            proof {
                lemma_hit_only_at(s1, t, p0);
            }
            let removed = self.range_manager.on_snapshot_load_failed(region, true);
            proof {
                lemma_fail_removed_regions_only(s1, s0, t, true);
                lemma_fail_view_value(s0, s1, self.range_manager.regions_view(), t, p0, true,
                    canceled);
                assert(self.engine.cf_view(ColumnFamily::CfDefault) == self.engine.default_cf@);
                assert(self.engine.cf_view(ColumnFamily::CfLock) == self.engine.lock_cf@);
                assert(self.engine.cf_view(ColumnFamily::CfWrite) == self.engine.write_cf@);
                assert(old(self).engine.cf_view(ColumnFamily::CfDefault) == old(
                    self).engine.default_cf@);
                assert(old(self).engine.cf_view(ColumnFamily::CfLock) == old(
                    self).engine.lock_cf@);
                assert(old(self).engine.cf_view(ColumnFamily::CfWrite) == old(
                    self).engine.write_cf@);
            }
            return LoadOutcome::FailedMidLoad(removed);
        }
        let mut filter = Filter::new(initial_safe_point, u64::MAX);
        let ghost w0 = self.engine.write_cf@;
        let ghost d0 = self.engine.default_cf@;
        let before_write = self.engine.write_cf.total_size();
        let before_default = self.engine.default_cf.total_size();
        filter.filter_keys_in_range(&region.start, &region.end, &mut self.engine.write_cf,
            &mut self.engine.default_cf);
        proof {
            crate::filter::lemma_filter_fold_size_le(crate::filter::initial_filter_state(w0,
                d0), crate::column::col_range(w0, region@.start, region@.end),
                initial_safe_point, u64::MAX);
        }
        filter.finish(&mut self.engine.write_cf);
        proof {
            crate::filter::lemma_flush_cached_size_le(crate::filter::filter_fold(
                crate::filter::initial_filter_state(w0, d0), crate::column::col_range(w0,
                    region@.start, region@.end), initial_safe_point, u64::MAX));
        }
        let after_write = self.engine.write_cf.total_size();
        let after_default = self.engine.default_cf.total_size();
        let freed = (before_write - after_write) + (before_default - after_default);
        self.engine.mem.release(freed);
        proof {
            lemma_hit_only_at(s1, t, p0);
            crate::region_manager::lemma_finish_removed_empty(s1, t, true);
        }
        let removed = self.range_manager.on_snapshot_load_finished(region, initial_safe_point);
        let ghost s2 = self.range_manager.regions_view();
        if removed.len() > 0 {
            return LoadOutcome::CanceledAfterLoad(removed);
        }
        proof {
            assert(crate::region_manager::load_hit(s1[p0], t, true));
            assert(s2 =~= s1.update(p0, crate::region_manager::spec_finish_meta(s1[p0],
                initial_safe_point))) by {
                assert forall|j: int| 0 <= j < s1.len() implies s2[j] == s1.update(p0,
                    crate::region_manager::spec_finish_meta(s1[p0], initial_safe_point))[j] by {
                    if crate::region_manager::load_hit(s1[j], t, true) {
                        assert(j == p0);
                        assert(s2[j] == crate::region_manager::spec_finish_meta(s1[j],
                            initial_safe_point));
                    } else {
                        assert(s2[j] == s1[j]);
                        assert(j != p0);
                    }
                }
            }
            assert(s1[p0].state == RegionState::Loading);
            assert(crate::region_manager::spec_finish_meta(s1[p0], initial_safe_point) == (
            crate::region_manager::MetaView {
                state: RegionState::Active,
                safe_point: initial_safe_point,
                ..s0[p0]
            }));
            assert(s2 =~= s0.update(p0, crate::region_manager::MetaView {
                state: RegionState::Active,
                safe_point: initial_safe_point,
                ..s0[p0]
            })) by {
                assert forall|j: int| 0 <= j < s0.len() implies s2[j] == s0.update(p0,
                    crate::region_manager::MetaView {
                        state: RegionState::Active,
                        safe_point: initial_safe_point,
                        ..s0[p0]
                    })[j] by {
                    if j != p0 {
                        assert(s1[j] == s0[j]);
                        assert(s2[j] == s1.update(p0, crate::region_manager::spec_finish_meta(
                            s1[p0], initial_safe_point))[j]);
                    }
                }
            }
        }
        LoadOutcome::Loaded
    }
}


/// The failed-load transition, as one value over the pre-load view: only
/// the caller's meta changes, to Evicting with the failure reason.
proof fn lemma_fail_view_value(s0: Seq<crate::region_manager::MetaView>, s1: Seq<
    crate::region_manager::MetaView,
>, s2: Seq<crate::region_manager::MetaView>, t: crate::region::RegionView, p0: int,
    started: bool, canceled: bool)
    requires
        0 <= p0 < s0.len(),
        s1.len() == s0.len(),
        s2.len() == s1.len(),
        single_mode(s1, t),
        forall|i: int, j: int| 0 <= i < j < s1.len() ==> (#[trigger] s1[i]).region.id != (
        #[trigger] s1[j]).region.id,
        p0 == id_index(s1, t.id),
        if canceled {
            s1 == s0
        } else {
            s1 == s0.update(p0, crate::region_manager::MetaView {
                state: crate::region::RegionState::Loading,
                ..s0[p0]
            })
        },
        forall|i: int| 0 <= i < s1.len() ==> s2[i] == if crate::region_manager::load_hit(
            #[trigger] s1[i], t, single_mode(s1, t)) {
            crate::region_manager::spec_fail_meta(s1[i], started)
        } else {
            s1[i]
        },
    ensures
        s2 == s0.update(p0, crate::region_manager::spec_fail_meta(s0[p0], started)),
{
    lemma_hit_only_at(s1, t, p0);
    crate::region_manager::lemma_id_index_props(s1, t.id);
    assert(crate::region_manager::load_hit(s1[p0], t, true));
    assert(crate::region_manager::spec_fail_meta(s1[p0], started)
        == crate::region_manager::spec_fail_meta(s0[p0], started));
    assert forall|j: int| 0 <= j < s2.len() implies s2[j] == s0.update(p0,
        crate::region_manager::spec_fail_meta(s0[p0], started))[j] by {
        if j == p0 {
        } else {
            assert(!crate::region_manager::load_hit(s1[j], t, true));
            assert(s2[j] == s1[j]);
            assert(s1[j] == s0[j]);
        }
    }
    assert(s2 =~= s0.update(p0, crate::region_manager::spec_fail_meta(s0[p0], started)));
}

/// In single mode, only the position of the caller's id is hit.
proof fn lemma_hit_only_at(s1: Seq<crate::region_manager::MetaView>, t: crate::region::RegionView,
    p0: int)
    requires
        single_mode(s1, t),
        p0 == id_index(s1, t.id),
        forall|i: int, j: int| 0 <= i < j < s1.len() ==> (#[trigger] s1[i]).region.id != (
        #[trigger] s1[j]).region.id,
    ensures
        forall|i: int|
            0 <= i < s1.len() && crate::region_manager::load_hit(#[trigger] s1[i], t,
                single_mode(s1, t)) ==> i == p0,
{
    crate::region_manager::lemma_id_index_props(s1, t.id);
    assert forall|i: int|
        0 <= i < s1.len() && crate::region_manager::load_hit(#[trigger] s1[i], t, single_mode(
            s1, t)) implies i == p0 by {
        if i != p0 {
            if i < p0 {
                assert(s1[i].region.id != s1[p0].region.id);
            } else {
                assert(s1[p0].region.id != s1[i].region.id);
            }
        }
    }
}

/// Touched regions depend only on the region fields, which a state change
/// keeps.
proof fn lemma_fail_removed_regions_only(sa: Seq<crate::region_manager::MetaView>, sb: Seq<
    crate::region_manager::MetaView,
>, t: crate::region::RegionView, single: bool)
    requires
        sa.len() == sb.len(),
        forall|j: int| 0 <= j < sa.len() ==> (#[trigger] sa[j]).region == (
        #[trigger] sb[j]).region,
    ensures
        fail_removed(sa, t, single) == fail_removed(sb, t, single),
    decreases sa.len(),
{
    if sa.len() > 0 {
        assert(sa[0].region == sb[0].region);
        assert forall|j: int| 0 <= j < sa.skip(1).len() implies (
        #[trigger] sa.skip(1)[j]).region == (#[trigger] sb.skip(1)[j]).region by {
            assert(sa.skip(1)[j] == sa[j + 1]);
            assert(sb.skip(1)[j] == sb[j + 1]);
        }
        lemma_fail_removed_regions_only(sa.skip(1), sb.skip(1), t, single);
    }
}

/// Taking a queued region into `Loading` keeps the caller's epoch current
/// and the hit position fixed.
proof fn lemma_load_step_view(s0: Seq<crate::region_manager::MetaView>, s1: Seq<
    crate::region_manager::MetaView,
>, t: crate::region::RegionView, p0: int)
    requires
        s1.len() == s0.len(),
        forall|j: int| 0 <= j < s0.len() ==> (#[trigger] s1[j]).region == (
        #[trigger] s0[j]).region,
        single_mode(s0, t),
        p0 == id_index(s0, t.id),
    ensures
        single_mode(s1, t),
        id_index(s1, t.id) == p0,
{
    assert forall|j: int| 0 <= j < s0.len() implies (#[trigger] s0[j]).region.id == (
    #[trigger] s1[j]).region.id by {
        assert(s1[j].region == s0[j].region);
    }
    crate::region_manager::lemma_id_index_same_ids(s0, s1, t.id);
    crate::region_manager::lemma_id_index_props(s0, t.id);
    assert(s1[p0].region == s0[p0].region);
}

} // verus!
