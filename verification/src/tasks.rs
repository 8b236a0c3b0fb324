//! Background tasks and the decisions of the dispatcher that multiplexes
//! them onto the worker pools.

use vstd::prelude::*;

use crate::filter::FilterMetrics;
use crate::gc::BackgroundRunnerCore;
use crate::region::{EvictReason, Region};
use crate::column::KvView;
use crate::filter::{sat_add, sat_inc};
use crate::gc::gc_pass_result;
use crate::region::RegionView;
use crate::region_manager::{effective_safe_point, evict_all, evict_deleteables, has_id,
    id_index, range_contains, spec_evict_meta, spec_hist_min, HistView, LoadError, MetaView};

verus! {

/// A garbage-collection request carrying the timestamp below which
/// obsolete MVCC versions may be discarded.
pub struct GcTask {
    pub safe_point: u64,
}

impl GcTask {
    pub fn new(safe_point: u64) -> (t: GcTask)
        ensures
            t.safe_point == safe_point,
    {
        GcTask { safe_point }
    }
}

/// The closed sum of tasks the background workers consume. Loading carries
/// only the region: the disk snapshot itself stays outside the cache and is
/// handed to the loader as plain column contents.
pub enum BackgroundTask {
    Gc(GcTask),
    LoadRegion(Region),
    MemoryCheckAndEvict,
    DeleteRegions(Vec<Region>),
    TopRegionsLoadEvict,
    CleanLockTombstone(u64),
    SetDiskEngine,
}

/// Which worker a task belongs to.
#[derive(Clone, Copy, PartialEq, Eq, Structural, Debug)]
pub enum TaskRoute {
    DeleteRangeWorker,
    ControlWorker,
}

impl BackgroundTask {
    /// Range deletions go to their own worker so that a long erase never
    /// blocks GC or loading; everything else shares the control worker.
    pub fn route(&self) -> (r: TaskRoute)
        ensures
            r == (if self is DeleteRegions {
                TaskRoute::DeleteRangeWorker
            } else {
                TaskRoute::ControlWorker
            }),
    {
        match self {
            BackgroundTask::DeleteRegions(_) => TaskRoute::DeleteRangeWorker,
            _ => TaskRoute::ControlWorker,
        }
    }
}

/// The dispatcher state that outlives single tasks: whether a disk engine
/// was installed, and the highest lock-cleanup sequence seen.
pub struct BackgroundRunner {
    pub core: BackgroundRunnerCore,
    pub rocks_engine_set: bool,
    pub last_seqno: u64,
}

impl BackgroundRunner {
    pub open spec fn wf(&self) -> bool {
        self.core.wf()
    }

    pub fn new(soft_limit: u64, hard_limit: u64) -> (r: BackgroundRunner)
        requires
            soft_limit <= hard_limit,
        ensures
            r.wf(),
            !r.rocks_engine_set,
            r.last_seqno == 0,
            !r.core.range_manager.spec_regions_in_gc(),
    {
        BackgroundRunner {
            core: BackgroundRunnerCore::new(soft_limit, hard_limit),
            rocks_engine_set: false,
            last_seqno: 0,
        }
    }

    /// Installs the disk engine handle (held outside the cache); GC tasks
    /// are dropped until one is set.
    pub fn set_rocks_engine(&mut self)
        requires
            old(self).wf(),
        ensures
            final(self).wf(),
            final(self).core == old(self).core,
            final(self).rocks_engine_set,
            final(self).last_seqno == old(self).last_seqno,
    {
        self.rocks_engine_set = true;
    }

    /// Runs one whole GC round: takes the round guard, collects the Active
    /// regions, garbage-collects each at the given safe point and oldest
    /// disk sequence, merges the counters, and releases the guard. With no
    /// disk engine set, or while another round holds the guard, nothing
    /// changes and the counters are zero; otherwise the round equals the
    /// per-region GC pass folded over the Active regions. No region's safe
    /// point ever decreases.
    pub fn run_gc_round(&mut self, safe_point: u64, oldest_seqno: u64) -> (m: FilterMetrics)
        requires
            old(self).wf(),
        ensures
            final(self).wf(),
            final(self).rocks_engine_set == old(self).rocks_engine_set,
            final(self).last_seqno == old(self).last_seqno,
            final(self).core.range_manager.spec_regions_in_gc() == old(
                self).core.range_manager.spec_regions_in_gc(),
            final(self).core.range_manager.hist_view() == old(
                self).core.range_manager.hist_view(),
            final(self).core.range_manager.written_view() == old(
                self).core.range_manager.written_view(),
            final(self).core.engine.lock_cf@ == old(self).core.engine.lock_cf@,
            final(self).core.engine.mem.spec_soft_limit() == old(
                self).core.engine.mem.spec_soft_limit(),
            final(self).core.engine.mem.spec_hard_limit() == old(
                self).core.engine.mem.spec_hard_limit(),
            if !old(self).rocks_engine_set || old(self).core.range_manager.spec_regions_in_gc() {
                &&& final(self).core.engine == old(self).core.engine
                &&& final(self).core.range_manager.regions_view() == old(
                    self).core.range_manager.regions_view()
                &&& m == zero_metrics()
            } else {
                let end = gc_round_fold(
                    GcRoundState {
                        write_col: old(self).core.engine.write_cf@,
                        default_col: old(self).core.engine.default_cf@,
                        regions: old(self).core.range_manager.regions_view(),
                        metrics: zero_metrics(),
                    },
                    old(self).core.range_manager.hist_view(),
                    crate::region_manager::actives_of(old(
                        self).core.range_manager.regions_view()),
                    safe_point,
                    oldest_seqno,
                );
                &&& final(self).core.engine.write_cf@ == end.write_col
                &&& final(self).core.engine.default_cf@ == end.default_col
                &&& final(self).core.range_manager.regions_view() == end.regions
                &&& m == end.metrics
            },
            final(self).core.range_manager.regions_view().len() == old(
                self).core.range_manager.regions_view().len(),
            forall|i: int| 0 <= i < old(self).core.range_manager.regions_view().len() ==> (
            #[trigger] final(self).core.range_manager.regions_view()[i]).safe_point >= old(
                self).core.range_manager.regions_view()[i].safe_point,
    {
        if !self.rocks_engine_set {
            return FilterMetrics::new();
        }
        let was_in_gc = self.gc_guard_held();
        let regions = self.core.regions_for_gc();
        let ghost h0 = self.core.range_manager.hist_view();
        let ghost mid = self.core.range_manager.regions_view();
        let ghost rsv = regions@.map_values(|r: Region| r@);
        let ghost init = GcRoundState {
            write_col: self.core.engine.write_cf@,
            default_col: self.core.engine.default_cf@,
            regions: mid,
            metrics: zero_metrics(),
        };
        let mut metrics = FilterMetrics::new();
        if was_in_gc {
            return metrics;
        }
        if regions.len() == 0 {
            self.core.on_gc_finished();
            proof {
                assert(gc_round_fold(init, h0, rsv, safe_point, oldest_seqno) == init);
            }
            return metrics;
        }
        let mut i: usize = 0;
        proof {
            assert(rsv.skip(0) =~= rsv);
        }
        while i < regions.len()
            invariant
                self.wf(),
                self.rocks_engine_set == old(self).rocks_engine_set,
                self.last_seqno == old(self).last_seqno,
                i <= rsv.len(),
                rsv == regions@.map_values(|r: Region| r@),
                rsv.len() == regions@.len(),
                self.core.range_manager.spec_regions_in_gc(),
                self.core.range_manager.hist_view() == h0,
                self.core.range_manager.written_view() == old(
                    self).core.range_manager.written_view(),
                self.core.engine.lock_cf@ == old(self).core.engine.lock_cf@,
                self.core.engine.mem.spec_soft_limit() == old(
                    self).core.engine.mem.spec_soft_limit(),
                self.core.engine.mem.spec_hard_limit() == old(
                    self).core.engine.mem.spec_hard_limit(),
                self.core.range_manager.regions_view().len() == mid.len(),
                forall|k: int| 0 <= k < mid.len() ==> (
                #[trigger] self.core.range_manager.regions_view()[k]).safe_point >= mid[
                k].safe_point,
                gc_round_fold(init, h0, rsv, safe_point, oldest_seqno) == gc_round_fold(
                    GcRoundState {
                        write_col: self.core.engine.write_cf@,
                        default_col: self.core.engine.default_cf@,
                        regions: self.core.range_manager.regions_view(),
                        metrics,
                    },
                    h0,
                    rsv.skip(i as int),
                    safe_point,
                    oldest_seqno,
                ),
            decreases regions.len() - i,
        {
            proof {
                assert(rsv.skip(i as int)[0] == rsv[i as int]);
                assert(rsv[i as int] == regions@[i as int]@);
                assert(rsv.skip(i as int).skip(1) =~= rsv.skip(i as int + 1));
            }
            let ghost before = GcRoundState {
                write_col: self.core.engine.write_cf@,
                default_col: self.core.engine.default_cf@,
                regions: self.core.range_manager.regions_view(),
                metrics,
            };
            let m = self.core.gc_region(&regions[i], safe_point, oldest_seqno);
            proof {
                assert forall|k: int| 0 <= k < mid.len() implies (
                #[trigger] self.core.range_manager.regions_view()[k]).safe_point >= mid[
                k].safe_point by {
                    assert(self.core.range_manager.regions_view()[k].safe_point >= before.regions[
                    k].safe_point);
                }
            }
            metrics.merge(&m);
            proof {
                assert(GcRoundState {
                    write_col: self.core.engine.write_cf@,
                    default_col: self.core.engine.default_cf@,
                    regions: self.core.range_manager.regions_view(),
                    metrics,
                } == spec_gc_region_step(before, h0, rsv[i as int], safe_point, oldest_seqno));
            }
            i = i + 1;
        }
        proof {
            assert(rsv.skip(rsv.len() as int) =~= Seq::<RegionView>::empty());
        }
        self.core.on_gc_finished();
        metrics
    }

    /// Whether this dispatcher currently holds the round guard.
    fn gc_guard_held(&self) -> (r: bool)
        ensures
            r == self.core.range_manager.spec_regions_in_gc(),
    {
        self.core.range_manager.regions_in_gc_flag()
    }
}


/// The engine and manager state one GC round threads through its regions,
/// with the merged counters so far.
pub ghost struct GcRoundState {
    pub write_col: Seq<KvView>,
    pub default_col: Seq<KvView>,
    pub regions: Seq<MetaView>,
    pub metrics: FilterMetrics,
}

/// Folding one pass's counters into the round's.
pub open spec fn merge_metrics(a: FilterMetrics, b: FilterMetrics) -> FilterMetrics {
    FilterMetrics {
        total: sat_add(a.total, b.total),
        versions: sat_add(a.versions, b.versions),
        delete_versions: sat_add(a.delete_versions, b.delete_versions),
        filtered: sat_add(a.filtered, b.filtered),
        unique_key: sat_add(a.unique_key, b.unique_key),
        mvcc_rollback_and_locks: sat_add(a.mvcc_rollback_and_locks,
            b.mvcc_rollback_and_locks),
    }
}

pub open spec fn zero_metrics() -> FilterMetrics {
    FilterMetrics {
        total: 0,
        versions: 0,
        delete_versions: 0,
        filtered: 0,
        unique_key: 0,
        mvcc_rollback_and_locks: 0,
    }
}

/// One region's GC pass inside a round: exactly `gc_region`'s effect.
pub open spec fn spec_gc_region_step(st: GcRoundState, h: Seq<HistView>, r: RegionView,
    safe_point: u64, oldest_seqno: u64) -> GcRoundState {
    let s = st.regions;
    let p = id_index(s, r.id);
    let eff = effective_safe_point(safe_point, s[p], spec_hist_min(h, r.start, r.end));
    let skipped = !has_id(s, r.id) || s[p].state != crate::region::RegionState::Active
        || !range_contains(r, s[p].region) || eff <= s[p].safe_point;
    if skipped {
        st
    } else {
        let pass = gc_pass_result(st.write_col, st.default_col, eff, oldest_seqno, r.start,
            r.end);
        let f1 = if pass.cached_mvcc is Some {
            sat_inc(pass.filtered)
        } else {
            pass.filtered
        };
        let f2 = if pass.cached_skiplist is Some {
            sat_inc(f1)
        } else {
            f1
        };
        let m = FilterMetrics {
            total: pass.total,
            versions: pass.versions,
            delete_versions: pass.delete_versions,
            filtered: f2,
            unique_key: pass.unique_key,
            mvcc_rollback_and_locks: pass.mvcc_rollback_and_locks,
        };
        GcRoundState {
            write_col: pass.write_col,
            default_col: pass.default_col,
            regions: s.update(p, MetaView { safe_point: eff, in_gc: false, ..s[p] }),
            metrics: merge_metrics(st.metrics, m),
        }
    }
}

/// A whole round: the passes folded over the regions in order.
pub open spec fn gc_round_fold(st: GcRoundState, h: Seq<HistView>, rs: Seq<RegionView>,
    safe_point: u64, oldest_seqno: u64) -> GcRoundState
    decreases rs.len(),
{
    if rs.len() == 0 {
        st
    } else {
        gc_round_fold(spec_gc_region_step(st, h, rs[0], safe_point, oldest_seqno), h,
            rs.skip(1), safe_point, oldest_seqno)
    }
}

/// What an eviction pass may do to one region's metadata: the range and
/// safe point stay; the state either stays or steps toward eviction.
pub open spec fn evict_only_change(before: MetaView, after: MetaView) -> bool {
    &&& after.region == before.region
    &&& after.safe_point == before.safe_point
    &&& (after.state == before.state || after.state == crate::region::RegionState::Evicting
        || after.state == crate::region::RegionState::LoadingCanceled)
}

/// The outcome of the soft-limit eviction pass over the candidates.
pub ghost struct SoftEvictOutcome {
    pub regions: Seq<MetaView>,
    pub remaining: u64,
    pub deleted: Seq<RegionView>,
}

/// The soft-limit eviction pass, candidate by candidate: while excess
/// memory remains, each candidate still cached is evicted, its deletable
/// regions collected, and the excess reduced by its approximate size.
pub open spec fn soft_evict_fold(s: Seq<MetaView>, remaining: u64, cands: Seq<(
    RegionView,
    u64,
)>) -> SoftEvictOutcome
    decreases cands.len(),
{
    if cands.len() == 0 || remaining == 0 {
        SoftEvictOutcome { regions: s, remaining, deleted: Seq::empty() }
    } else {
        let r = cands[0].0;
        let approx = cands[0].1;
        if has_id(s, r.id) {
            let dels = evict_deleteables(s, r);
            let s2 = evict_all(s, r, EvictReason::MemoryLimitReached);
            let rem2 = if dels.len() > 0 {
                if approx < remaining {
                    (remaining - approx) as u64
                } else {
                    0u64
                }
            } else {
                remaining
            };
            let rest = soft_evict_fold(s2, rem2, cands.skip(1));
            SoftEvictOutcome {
                regions: rest.regions,
                remaining: rest.remaining,
                deleted: dels + rest.deleted,
            }
        } else {
            soft_evict_fold(s, remaining, cands.skip(1))
        }
    }
}

/// Evicts candidate regions, best first, until usage falls back to the soft
/// limit or the candidates run out; the evicted regions' data is returned
/// for deletion. The pass follows `soft_evict_fold` exactly.
pub fn evict_on_soft_limit_reached(core: &mut BackgroundRunnerCore, candidates: &Vec<(
    Region,
    u64,
)>) -> (to_delete: Vec<Region>)
    requires
        old(core).wf(),
    ensures
        final(core).wf(),
        final(core).engine == old(core).engine,
        final(core).range_manager.written_view() == old(core).range_manager.written_view(),
        final(core).range_manager.spec_regions_in_gc() == old(
            core).range_manager.spec_regions_in_gc(),
        ({
            let rem0 = if old(core).engine.mem.spec_used() > old(
                core).engine.mem.spec_soft_limit() {
                (old(core).engine.mem.spec_used() - old(
                core).engine.mem.spec_soft_limit()) as u64
            } else {
                0u64
            };
            let out = soft_evict_fold(old(core).range_manager.regions_view(), rem0,
                candidates@.map_values(|c: (Region, u64)| (c.0@, c.1)));
            &&& final(core).range_manager.regions_view() == out.regions
            &&& to_delete@.map_values(|r: Region| r@) == out.deleted
        }),
        forall|i: int|
            0 <= i < old(core).range_manager.regions_view().len() ==> evict_only_change(
                old(core).range_manager.regions_view()[i], #[trigger] final(
                core).range_manager.regions_view()[i]),
{
    let usage = core.engine.mem.mem_usage();
    let soft = core.engine.mem.soft_limit_threshold();
    let mut remaining: u64 = if usage > soft {
        usage - soft
    } else {
        0
    };
    let ghost rem0 = remaining;
    let ghost s0 = core.range_manager.regions_view();
    let ghost cv = candidates@.map_values(|c: (Region, u64)| (c.0@, c.1));
    let mut to_delete: Vec<Region> = Vec::new();
    if remaining == 0 {
        proof {
            assert(to_delete@.map_values(|r: Region| r@) =~= Seq::<RegionView>::empty());
        }
        return to_delete;
    }
    let mut i: usize = 0;
    proof {
        assert(cv.skip(0) =~= cv);
    }
    while i < candidates.len()
        invariant
            core.wf(),
            core.engine == old(core).engine,
            core.range_manager.written_view() == old(core).range_manager.written_view(),
            core.range_manager.spec_regions_in_gc() == old(
                core).range_manager.spec_regions_in_gc(),
            i <= cv.len(),
            cv == candidates@.map_values(|c: (Region, u64)| (c.0@, c.1)),
            cv.len() == candidates@.len(),
            core.range_manager.regions_view().len() == s0.len(),
            forall|k: int| 0 <= k < s0.len() ==> evict_only_change(s0[k],
                #[trigger] core.range_manager.regions_view()[k]),
            soft_evict_fold(s0, rem0, cv) == ({
                let rest = soft_evict_fold(core.range_manager.regions_view(), remaining,
                    cv.skip(i as int));
                SoftEvictOutcome {
                    regions: rest.regions,
                    remaining: rest.remaining,
                    deleted: to_delete@.map_values(|r: Region| r@) + rest.deleted,
                }
            }),
        decreases candidates.len() - i,
    {
        if remaining == 0 {
            proof {
                lemma_outcome_done(core.range_manager.regions_view(), remaining,
                    cv.skip(i as int), to_delete@.map_values(|r: Region| r@));
            }
            return to_delete;
        }
        proof {
            assert(cv.skip(i as int)[0] == cv[i as int]);
            assert(cv[i as int] == (candidates@[i as int].0@, candidates@[i as int].1));
            assert(cv.skip(i as int).skip(1) =~= cv.skip(i as int + 1));
        }
        let (region, approx_size) = &candidates[i];
        let ghost dels_before = to_delete@.map_values(|r: Region| r@);
        if core.range_manager.contains_region(region.id) {
            let ghost before = core.range_manager.regions_view();
            let mut deleteable = core.range_manager.evict_region(region,
                EvictReason::MemoryLimitReached);
            proof {
                assert forall|k: int| 0 <= k < s0.len() implies evict_only_change(s0[k],
                    #[trigger] core.range_manager.regions_view()[k]) by {
                    assert(core.range_manager.regions_view()[k] == spec_evict_meta(before[k],
                        region@, EvictReason::MemoryLimitReached));
                    assert(evict_only_change(s0[k], before[k]));
                }
            }
            if deleteable.len() > 0 {
                remaining = if *approx_size < remaining {
                    remaining - *approx_size
                } else {
                    0
                };
            }
            let ghost dv = deleteable@.map_values(|r: Region| r@);
            to_delete.append(&mut deleteable);
            proof {
                assert(to_delete@.map_values(|r: Region| r@) =~= dels_before + dv);
                assert((dels_before + dv) + soft_evict_fold(
                    core.range_manager.regions_view(), remaining,
                    cv.skip(i as int + 1)).deleted =~= dels_before + (dv + soft_evict_fold(
                    core.range_manager.regions_view(), remaining,
                    cv.skip(i as int + 1)).deleted));
            }
        }
        i = i + 1;
    }
    proof {
        assert(cv.skip(cv.len() as int) =~= Seq::<(RegionView, u64)>::empty());
        lemma_outcome_done(core.range_manager.regions_view(), remaining,
            cv.skip(cv.len() as int), to_delete@.map_values(|r: Region| r@));
    }
    to_delete
}

/// A finished pass: the fold over nothing, or at zero excess, changes
/// nothing and collects nothing.
proof fn lemma_outcome_done(s: Seq<MetaView>, remaining: u64, cands: Seq<(RegionView, u64)>,
    collected: Seq<RegionView>)
    requires
        cands.len() == 0 || remaining == 0,
    ensures
        soft_evict_fold(s, remaining, cands) == (SoftEvictOutcome {
            regions: s,
            remaining,
            deleted: Seq::empty(),
        }),
        collected + Seq::<RegionView>::empty() == collected,
{
    assert(collected + Seq::<RegionView>::empty() =~= collected);
}

/// The cached set after evicting each region in order.
pub open spec fn evict_regions_fold(s: Seq<MetaView>, rs: Seq<RegionView>,
    reason: EvictReason) -> Seq<MetaView>
    decreases rs.len(),
{
    if rs.len() == 0 {
        s
    } else {
        evict_regions_fold(evict_all(s, rs[0], reason), rs.skip(1), reason)
    }
}

/// The deletable regions those evictions collect, in order.
pub open spec fn evict_regions_deleted(s: Seq<MetaView>, rs: Seq<RegionView>,
    reason: EvictReason) -> Seq<RegionView>
    decreases rs.len(),
{
    if rs.len() == 0 {
        Seq::empty()
    } else {
        evict_deleteables(s, rs[0]) + evict_regions_deleted(evict_all(s, rs[0], reason),
            rs.skip(1), reason)
    }
}

/// Applies one recomputation of the top cached regions, single-flighted by
/// the core's guard: a recomputation that observes one already running
/// returns with no effect. Otherwise, when usage sits at the soft limit
/// every demoted region is evicted, in order; each promoted region is then
/// offered to `load_region`; the evicted regions' data is returned for
/// deletion, and the guard is released before returning.
pub fn top_regions_load_evict(core: &mut BackgroundRunnerCore, to_add: &Vec<Region>,
    to_remove: &Vec<Region>) -> (to_delete: Vec<Region>)
    requires
        old(core).wf(),
    ensures
        final(core).wf(),
        final(core).engine == old(core).engine,
        if old(core).checking_top_regions {
            &&& final(core).range_manager == old(core).range_manager
            &&& final(core).checking_top_regions
            &&& to_delete@.len() == 0
        } else {
            let at_soft = old(core).engine.mem.spec_used() >= old(
                core).engine.mem.spec_soft_limit();
            let demoted = if at_soft {
                evict_regions_fold(old(core).range_manager.regions_view(),
                    to_remove@.map_values(|r: Region| r@), EvictReason::AutoEvict)
            } else {
                old(core).range_manager.regions_view()
            };
            &&& !final(core).checking_top_regions
            &&& final(core).range_manager.regions_view() == crate::region_manager::load_regions_fold(
                demoted, to_add@.map_values(|r: Region| r@))
            &&& to_delete@.map_values(|r: Region| r@) == if at_soft {
                evict_regions_deleted(old(core).range_manager.regions_view(),
                    to_remove@.map_values(|r: Region| r@), EvictReason::AutoEvict)
            } else {
                Seq::<RegionView>::empty()
            }
        },
        forall|i: int|
            0 <= i < old(core).range_manager.regions_view().len() ==> evict_only_change(
                old(core).range_manager.regions_view()[i], #[trigger] final(
                core).range_manager.regions_view()[i]),
{
    if !core.try_begin_top_regions_check() {
        return Vec::new();
    }
    let ghost s0 = core.range_manager.regions_view();
    let ghost rsv = to_remove@.map_values(|r: Region| r@);
    let ghost at_soft = core.engine.mem.spec_used() >= core.engine.mem.spec_soft_limit();
    let mut to_delete: Vec<Region> = Vec::new();
    let mut i: usize = 0;
    proof {
        assert(rsv.skip(0) =~= rsv);
        assert(to_delete@.map_values(|r: Region| r@) =~= Seq::<RegionView>::empty());
    }
    while i < to_remove.len()
        invariant
            core.wf(),
            core.engine == old(core).engine,
            i <= rsv.len(),
            rsv == to_remove@.map_values(|r: Region| r@),
            rsv.len() == to_remove@.len(),
            core.range_manager.regions_view().len() == s0.len(),
            forall|k: int| 0 <= k < s0.len() ==> evict_only_change(s0[k],
                #[trigger] core.range_manager.regions_view()[k]),
            at_soft == (old(core).engine.mem.spec_used() >= old(
                core).engine.mem.spec_soft_limit()),
            if at_soft {
                &&& evict_regions_fold(s0, rsv, EvictReason::AutoEvict) == evict_regions_fold(
                    core.range_manager.regions_view(), rsv.skip(i as int),
                    EvictReason::AutoEvict)
                &&& evict_regions_deleted(s0, rsv, EvictReason::AutoEvict) == to_delete@.map_values(
                    |r: Region| r@) + evict_regions_deleted(
                    core.range_manager.regions_view(), rsv.skip(i as int),
                    EvictReason::AutoEvict)
            } else {
                core.range_manager.regions_view() == s0 && to_delete@.len() == 0
            },
        decreases to_remove.len() - i,
    {
        proof {
            assert(rsv.skip(i as int)[0] == rsv[i as int]);
            assert(rsv[i as int] == to_remove@[i as int]@);
            assert(rsv.skip(i as int).skip(1) =~= rsv.skip(i as int + 1));
        }
        if core.engine.mem.reached_soft_limit() {
            let ghost before = core.range_manager.regions_view();
            let ghost dels_before = to_delete@.map_values(|r: Region| r@);
            let mut deleteable = core.range_manager.evict_region(&to_remove[i],
                EvictReason::AutoEvict);
            proof {
                assert forall|k: int| 0 <= k < s0.len() implies evict_only_change(s0[k],
                    #[trigger] core.range_manager.regions_view()[k]) by {
                    assert(core.range_manager.regions_view()[k] == spec_evict_meta(before[k],
                        to_remove@[i as int]@, EvictReason::AutoEvict));
                    assert(evict_only_change(s0[k], before[k]));
                }
            }
            let ghost dv = deleteable@.map_values(|r: Region| r@);
            to_delete.append(&mut deleteable);
            proof {
                assert(to_delete@.map_values(|r: Region| r@) =~= dels_before + dv);
                assert((dels_before + dv) + evict_regions_deleted(
                    core.range_manager.regions_view(), rsv.skip(i as int + 1),
                    EvictReason::AutoEvict) =~= dels_before + (dv + evict_regions_deleted(
                    core.range_manager.regions_view(), rsv.skip(i as int + 1),
                    EvictReason::AutoEvict)));
            }
        }
        i = i + 1;
    }
    proof {
        assert(rsv.skip(rsv.len() as int) =~= Seq::<RegionView>::empty());
        if at_soft {
            assert(to_delete@.map_values(|r: Region| r@) + Seq::<RegionView>::empty() =~=
                to_delete@.map_values(|r: Region| r@));
        }
    }
    let ghost mid = core.range_manager.regions_view();
    let ghost asv = to_add@.map_values(|r: Region| r@);
    let mut j: usize = 0;
    proof {
        assert(asv.skip(0) =~= asv);
    }
    while j < to_add.len()
        invariant
            core.wf(),
            core.engine == old(core).engine,
            j <= asv.len(),
            asv == to_add@.map_values(|r: Region| r@),
            asv.len() == to_add@.len(),
            core.range_manager.regions_view().len() >= mid.len(),
            forall|k: int| 0 <= k < mid.len() ==> #[trigger] core.range_manager.regions_view()[
            k] == mid[k],
            crate::region_manager::load_regions_fold(mid, asv)
                == crate::region_manager::load_regions_fold(core.range_manager.regions_view(),
                asv.skip(j as int)),
        decreases to_add.len() - j,
    {
        proof {
            assert(asv.skip(j as int)[0] == asv[j as int]);
            assert(asv[j as int] == to_add@[j as int]@);
            assert(asv.skip(j as int).skip(1) =~= asv.skip(j as int + 1));
        }
        let ghost cur = core.range_manager.regions_view();
        let r = to_add[j].clone_region();
        let outcome = core.range_manager.load_region(r);
        proof {
            assert(core.range_manager.regions_view()
                == crate::region_manager::spec_load_region(cur, asv[j as int]));
            assert forall|k: int| 0 <= k < mid.len() implies
                #[trigger] core.range_manager.regions_view()[k] == mid[k] by {
                assert(cur[k] == mid[k]);
                if !crate::region_manager::load_conflicts(cur, asv[j as int]) {
                    assert(core.range_manager.regions_view()[k] == cur[k]);
                }
            }
        }
        match outcome {
            Ok(()) => {},
            Err(LoadError::AlreadyExists) => {},
        }
        j = j + 1;
    }
    proof {
        assert(asv.skip(asv.len() as int) =~= Seq::<RegionView>::empty());
    }
    core.finish_top_regions_check();
    to_delete
}

/// Begins the single-flighted memory check: refused while one already
/// runs; otherwise the flag is taken and the check reports whether usage
/// sits above the soft limit, so that eviction should run.
pub fn begin_memory_check(core: &mut BackgroundRunnerCore) -> (r: Option<bool>)
    requires
        old(core).wf(),
    ensures
        final(core).wf(),
        final(core).range_manager == old(core).range_manager,
        final(core).engine.mem.spec_used() == old(core).engine.mem.spec_used(),
        match r {
            Some(needs_evict) => {
                &&& !old(core).engine.mem.spec_memory_checking()
                &&& final(core).engine.mem.spec_memory_checking()
                &&& needs_evict == (old(core).engine.mem.spec_used() > old(
                    core).engine.mem.spec_soft_limit())
            },
            None => {
                &&& old(core).engine.mem.spec_memory_checking()
                &&& final(core).engine.mem.spec_memory_checking()
            },
        },
{
    if !core.engine.mem.try_begin_memory_check() {
        return None;
    }
    let usage = core.engine.mem.mem_usage();
    let soft = core.engine.mem.soft_limit_threshold();
    Some(usage > soft)
}

/// Ends the memory check, releasing its single-flight flag.
pub fn finish_memory_check(core: &mut BackgroundRunnerCore)
    requires
        old(core).wf(),
    ensures
        final(core).wf(),
        final(core).range_manager == old(core).range_manager,
        final(core).engine.mem.spec_used() == old(core).engine.mem.spec_used(),
        !final(core).engine.mem.spec_memory_checking(),
{
    core.engine.mem.set_memory_checking(false);
}

} // verus!
