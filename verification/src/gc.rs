//! The background core: garbage collection of one region and the
//! single-flighting of a whole GC round.

use vstd::prelude::*;

use crate::column::{col_range, KvView};
use crate::engine::SkiplistEngine;
use crate::filter::{filter_fold, flush_cached, initial_filter_state, sat_inc, Filter,
    FilterMetrics, FilterStateView};
use crate::region::Region;
use crate::region_manager::{actives_of, effective_safe_point, has_id, id_index, spec_hist_min,
    MetaView, RegionManager};

verus! {

/// The mutable state the background tasks work on: the in-memory engine,
/// the region manager, and the single-flight guard of the top-regions
/// recomputation.
pub struct BackgroundRunnerCore {
    pub engine: SkiplistEngine,
    pub range_manager: RegionManager,
    pub checking_top_regions: bool,
}

/// The filter state a GC pass over `[start, end)` ends in.
pub open spec fn gc_pass_result(write0: Seq<KvView>, default0: Seq<KvView>, eff: u64,
    oldest_seqno: u64, start: Seq<u8>, end: Seq<u8>) -> FilterStateView {
    flush_cached(filter_fold(initial_filter_state(write0, default0), col_range(write0, start,
        end), eff, oldest_seqno))
}

impl BackgroundRunnerCore {
    pub open spec fn wf(&self) -> bool {
        &&& self.engine.wf()
        &&& self.range_manager.wf()
    }

    pub fn new(soft_limit: u64, hard_limit: u64) -> (c: BackgroundRunnerCore)
        requires
            soft_limit <= hard_limit,
        ensures
            c.wf(),
            c.engine.mem.spec_used() == 0,
            c.engine.mem.spec_soft_limit() == soft_limit,
            c.engine.mem.spec_hard_limit() == hard_limit,
            c.range_manager.regions_view() == Seq::<MetaView>::empty(),
            !c.range_manager.spec_regions_in_gc(),
            !c.checking_top_regions,
    {
        BackgroundRunnerCore {
            engine: SkiplistEngine::new(soft_limit, hard_limit),
            range_manager: RegionManager::new(),
            checking_top_regions: false,
        }
    }

    /// Takes the top-regions single-flight guard: succeeds only when no
    /// recomputation is running.
    pub fn try_begin_top_regions_check(&mut self) -> (r: bool)
        ensures
            final(self).engine == old(self).engine,
            final(self).range_manager == old(self).range_manager,
            r == !old(self).checking_top_regions,
            final(self).checking_top_regions,
    {
        let was = self.checking_top_regions;
        self.checking_top_regions = true;
        !was
    }

    /// Releases the top-regions guard.
    pub fn finish_top_regions_check(&mut self)
        ensures
            final(self).engine == old(self).engine,
            final(self).range_manager == old(self).range_manager,
            !final(self).checking_top_regions,
    {
        self.checking_top_regions = false;
    }

    /// The regions eligible for a GC round. Empty, and nothing changes,
    /// while a previous round still holds the guard; otherwise the guard is
    /// taken and every Active region is returned.
    pub fn regions_for_gc(&mut self) -> (regions: Vec<Region>)
        requires
            old(self).wf(),
        ensures
            final(self).wf(),
            final(self).engine == old(self).engine,
            final(self).range_manager.regions_view() == old(self).range_manager.regions_view(),
            final(self).range_manager.hist_view() == old(self).range_manager.hist_view(),
            final(self).range_manager.written_view() == old(self).range_manager.written_view(),
            if old(self).range_manager.spec_regions_in_gc() {
                regions@.len() == 0 && final(self).range_manager.spec_regions_in_gc()
            } else {
                final(self).range_manager.spec_regions_in_gc() && regions@.map_values(
                    |r: Region| r@) == actives_of(old(self).range_manager.regions_view())
            },
    {
        if !self.range_manager.try_set_regions_in_gc(true) {
            return Vec::new();
        }
        self.range_manager.active_regions()
    }

    /// Ends a GC round, releasing the guard; one must be running.
    pub fn on_gc_finished(&mut self)
        requires
            old(self).wf(),
            old(self).range_manager.spec_regions_in_gc(),
        ensures
            final(self).wf(),
            final(self).engine == old(self).engine,
            final(self).range_manager.regions_view() == old(self).range_manager.regions_view(),
            final(self).range_manager.hist_view() == old(self).range_manager.hist_view(),
            final(self).range_manager.written_view() == old(self).range_manager.written_view(),
            !final(self).range_manager.spec_regions_in_gc(),
    {
        let ok = self.range_manager.try_set_regions_in_gc(false);
    }

    /// Garbage-collects one region. The pass runs only when the region is
    /// Active, still covered by the caller's range, and the effective safe
    /// point — the requested one lowered to what open and historical
    /// snapshots allow — strictly advances; it then rewrites the write and
    /// default columns exactly as the filter model says, updates the
    /// region's safe point, and returns the pass's counters with one extra
    /// filtered entry per cached delete key flushed at the end. A region's
    /// safe point never decreases.
    pub fn gc_region(&mut self, region: &Region, safe_point: u64, oldest_seqno: u64) -> (m:
        FilterMetrics)
        requires
            old(self).wf(),
        ensures
            final(self).wf(),
            final(self).range_manager.hist_view() == old(self).range_manager.hist_view(),
            final(self).range_manager.written_view() == old(self).range_manager.written_view(),
            final(self).range_manager.spec_regions_in_gc() == old(
                self).range_manager.spec_regions_in_gc(),
            final(self).engine.lock_cf@ == old(self).engine.lock_cf@,
            final(self).engine.mem.spec_soft_limit() == old(self).engine.mem.spec_soft_limit(),
            final(self).engine.mem.spec_hard_limit() == old(self).engine.mem.spec_hard_limit(),
            final(self).range_manager.regions_view().len() == old(
                self).range_manager.regions_view().len(),
            forall|i: int| 0 <= i < old(self).range_manager.regions_view().len() ==> (
            #[trigger] final(self).range_manager.regions_view()[i]).safe_point >= old(
                self).range_manager.regions_view()[i].safe_point,
            ({
                let s = old(self).range_manager.regions_view();
                let p = id_index(s, region@.id);
                let eff = effective_safe_point(safe_point, s[p], spec_hist_min(
                    old(self).range_manager.hist_view(), region@.start, region@.end));
                let skipped = !has_id(s, region@.id) || s[p].state
                    != crate::region::RegionState::Active || !crate::region_manager::range_contains(
                    region@, s[p].region) || eff <= s[p].safe_point;
                if skipped {
                    &&& final(self).engine.write_cf@ == old(self).engine.write_cf@
                    &&& final(self).engine.default_cf@ == old(self).engine.default_cf@
                    &&& final(self).engine.mem.spec_used() == old(self).engine.mem.spec_used()
                    &&& final(self).range_manager.regions_view() == s
                    &&& m.total == 0 && m.versions == 0 && m.delete_versions == 0 && m.filtered
                        == 0 && m.unique_key == 0 && m.mvcc_rollback_and_locks == 0
                } else {
                    let pass = gc_pass_result(old(self).engine.write_cf@,
                        old(self).engine.default_cf@, eff, oldest_seqno, region@.start,
                        region@.end);
                    &&& final(self).engine.write_cf@ == pass.write_col
                    &&& final(self).engine.default_cf@ == pass.default_col
                    &&& m.total == pass.total && m.versions == pass.versions
                        && m.delete_versions == pass.delete_versions && m.unique_key
                        == pass.unique_key && m.mvcc_rollback_and_locks
                        == pass.mvcc_rollback_and_locks
                    &&& m.filtered == {
                        let f1 = if pass.cached_mvcc is Some {
                            sat_inc(pass.filtered)
                        } else {
                            pass.filtered
                        };
                        if pass.cached_skiplist is Some {
                            sat_inc(f1)
                        } else {
                            f1
                        }
                    }
                    &&& final(self).range_manager.regions_view() == s.update(p, MetaView {
                        safe_point: eff,
                        in_gc: false,
                        ..s[p]
                    })
                }
            }),
    {
        let prepared = self.range_manager.prepare_region_gc(region, safe_point);
        let eff = match prepared {
            Some(eff) => eff,
            None => {
                return FilterMetrics::new();
            },
        };
        let ghost w0 = self.engine.write_cf@;
        let ghost d0 = self.engine.default_cf@;
        let before_write = self.engine.write_cf.total_size();
        let before_default = self.engine.default_cf.total_size();
        let mut filter = Filter::new(eff, oldest_seqno);
        filter.filter_keys_in_range(&region.start, &region.end, &mut self.engine.write_cf,
            &mut self.engine.default_cf);
        proof {
            crate::filter::lemma_filter_fold_size_le(initial_filter_state(w0, d0), col_range(w0,
                region@.start, region@.end), eff, oldest_seqno);
        }
        let mut metrics = FilterMetrics::new();
        metrics.merge(&filter.metrics);
        if filter.has_cached_mvcc_delete() {
            metrics.filtered = crate::filter::sat_inc_exec(metrics.filtered);
        }
        if filter.has_cached_skiplist_delete() {
            metrics.filtered = crate::filter::sat_inc_exec(metrics.filtered);
        }
        filter.finish(&mut self.engine.write_cf);
        proof {
            crate::filter::lemma_flush_cached_size_le(filter_fold(initial_filter_state(w0, d0),
                col_range(w0, region@.start, region@.end), eff, oldest_seqno));
        }
        let after_write = self.engine.write_cf.total_size();
        let after_default = self.engine.default_cf.total_size();
        let freed = (before_write - after_write) + (before_default - after_default);
        self.engine.mem.release(freed);
        proof {
            let s = old(self).range_manager.regions_view();
            let p = id_index(s, region@.id);
            let upd = s.update(p, MetaView { safe_point: eff, in_gc: true, ..s[p] });
            assert(self.range_manager.regions_view() == upd);
            crate::region_manager::lemma_id_index_props(s, region@.id);
            assert forall|j: int| 0 <= j < upd.len() implies (#[trigger] upd[j]).region.id == (
            #[trigger] s[j]).region.id by {
                if j != p {
                    assert(upd[j] == s[j]);
                }
            }
            crate::region_manager::lemma_id_index_same_ids(upd, s, region@.id);
        }
        self.range_manager.on_gc_region_finished(region);
        proof {
            let s = old(self).range_manager.regions_view();
            let p = id_index(s, region@.id);
            let upd = s.update(p, MetaView { safe_point: eff, in_gc: true, ..s[p] });
            assert(self.range_manager.regions_view() =~= s.update(p, MetaView {
                safe_point: eff,
                in_gc: false,
                ..s[p]
            }));
            assert forall|i: int| 0 <= i < s.len() implies (
            #[trigger] self.range_manager.regions_view()[i]).safe_point >= s[i].safe_point by {
                if i != p {
                    assert(self.range_manager.regions_view()[i] == s[i]);
                }
            }
        }
        metrics
    }
}

} // verus!
