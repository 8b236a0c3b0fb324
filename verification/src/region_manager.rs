//! The region manager: the authoritative map from region id to region
//! metadata and state. All lifecycle transitions go through it, and its
//! well-formedness carries the library's central invariants: region ids are
//! unique, cached ranges never overlap, and only an Active region holds
//! open snapshots.

use vstd::prelude::*;

use crate::keys::lex_lt;
use crate::region::{has_ts, ranges_overlap, spec_snap_count, spec_snap_min,
    EvictReason, Region, RegionState, RegionView, SnapshotList};

verus! {

/// The metadata of one cached region.
pub struct RegionMeta {
    pub region: Region,
    pub state: RegionState,
    pub safe_point: u64,
    pub in_gc: bool,
    pub evict_reason: Option<EvictReason>,
    pub snapshots: SnapshotList,
}

/// The ghost form of a region's metadata.
pub ghost struct MetaView {
    pub region: RegionView,
    pub state: RegionState,
    pub safe_point: u64,
    pub in_gc: bool,
    pub evict_reason: Option<EvictReason>,
    pub snapshots: Seq<(u64, u64)>,
}

impl View for RegionMeta {
    type V = MetaView;

    open spec fn view(&self) -> MetaView {
        MetaView {
            region: self.region@,
            state: self.state,
            safe_point: self.safe_point,
            in_gc: self.in_gc,
            evict_reason: self.evict_reason,
            snapshots: self.snapshots@,
        }
    }
}

/// A record retained for an evicted or replaced region whose snapshots are
/// still open: GC of any overlapping range must respect their minimum.
pub struct HistRecord {
    pub region: Region,
    pub snapshots: SnapshotList,
}

pub ghost struct HistView {
    pub region: RegionView,
    pub snapshots: Seq<(u64, u64)>,
}

impl View for HistRecord {
    type V = HistView;

    open spec fn view(&self) -> HistView {
        HistView { region: self.region@, snapshots: self.snapshots@ }
    }
}

/// A key range that an apply thread is currently writing.
pub struct WrittenRange {
    pub start: Vec<u8>,
    pub end: Vec<u8>,
}

impl View for WrittenRange {
    type V = (Seq<u8>, Seq<u8>);

    open spec fn view(&self) -> (Seq<u8>, Seq<u8>) {
        (self.start@, self.end@)
    }
}

/// Refusals of `load_region`.
#[derive(Clone, Copy, PartialEq, Eq, Structural, Debug)]
pub enum LoadError {
    AlreadyExists,
}

/// Refusals of `acquire_snapshot`.
#[derive(Clone, Copy, PartialEq, Eq, Structural, Debug)]
pub enum SnapshotError {
    RegionNotCached,
}

/// The first position holding region id `id`, or `s.len()` when absent.
pub open spec fn id_index(s: Seq<MetaView>, id: u64) -> int
    decreases s.len(),
{
    if s.len() == 0 {
        0
    } else if s[0].region.id == id {
        0
    } else {
        1 + id_index(s.skip(1), id)
    }
}

pub open spec fn has_id(s: Seq<MetaView>, id: u64) -> bool {
    id_index(s, id) < s.len()
}

pub proof fn lemma_id_index_props(s: Seq<MetaView>, id: u64)
    ensures
        0 <= id_index(s, id) <= s.len(),
        forall|j: int| 0 <= j < id_index(s, id) ==> (#[trigger] s[j]).region.id != id,
        id_index(s, id) < s.len() ==> s[id_index(s, id)].region.id == id,
    decreases s.len(),
{
    if s.len() > 0 && s[0].region.id != id {
        lemma_id_index_props(s.skip(1), id);
        let p = id_index(s, id);
        assert forall|j: int| 0 <= j < p implies (#[trigger] s[j]).region.id != id by {
            if j > 0 {
                assert(s.skip(1)[j - 1] == s[j]);
            }
        }
        if p < s.len() {
            assert(s.skip(1)[p - 1] == s[p]);
        }
    }
}

pub proof fn lemma_id_index_from_props(s: Seq<MetaView>, id: u64, i: int)
    requires
        0 <= i <= s.len(),
        forall|j: int| 0 <= j < i ==> (#[trigger] s[j]).region.id != id,
        i < s.len() ==> s[i].region.id == id,
    ensures
        id_index(s, id) == i,
    decreases s.len(),
{
    if s.len() > 0 && i > 0 {
        assert(s[0].region.id != id);
        assert forall|j: int| 0 <= j < i - 1 implies (#[trigger] s.skip(1)[j]).region.id != id by {
            assert(s.skip(1)[j] == s[j + 1]);
        }
        if i - 1 < s.skip(1).len() {
            assert(s.skip(1)[i - 1] == s[i]);
        }
        lemma_id_index_from_props(s.skip(1), id, i - 1);
    }
}

/// Well-formedness carries over between managers with equal views.
pub proof fn lemma_wf_transfer(a: &RegionManager, b: &RegionManager)
    requires
        a.wf(),
        b.regions_view() == a.regions_view(),
        b.hist_view() == a.hist_view(),
    ensures
        b.wf(),
{
    let s = b.regions_view();
    assert(s == a.regions_view());
    assert forall|i: int| 0 <= i < b.hist_view().len() implies crate::region::snap_seq_wf(
        (#[trigger] b.hist_view()[i]).snapshots) && b.hist_view()[i].snapshots.len() > 0 by {
        assert(b.hist_view()[i] == a.hist_view()[i]);
    }
}

/// The manager of all cached regions.
pub struct RegionManager {
    regions: Vec<RegionMeta>,
    historical: Vec<HistRecord>,
    regions_in_gc: bool,
    ranges_being_written: Vec<WrittenRange>,
}

impl RegionManager {
    pub closed spec fn regions_view(&self) -> Seq<MetaView> {
        self.regions@.map_values(|m: RegionMeta| m@)
    }

    pub closed spec fn hist_view(&self) -> Seq<HistView> {
        self.historical@.map_values(|h: HistRecord| h@)
    }

    pub closed spec fn written_view(&self) -> Seq<(Seq<u8>, Seq<u8>)> {
        self.ranges_being_written@.map_values(|w: WrittenRange| w@)
    }

    pub closed spec fn spec_regions_in_gc(&self) -> bool {
        self.regions_in_gc
    }

    /// The manager's invariant: unique ids, pairwise disjoint ranges, the
    /// GC guard only on Active or Evicting regions, and open snapshots only
    /// on Active regions.
    pub open spec fn wf(&self) -> bool {
        let s = self.regions_view();
        &&& forall|i: int, j: int| 0 <= i < j < s.len() ==> (#[trigger] s[i]).region.id != (
        #[trigger] s[j]).region.id
        &&& forall|i: int, j: int| 0 <= i < j < s.len() ==> !ranges_overlap(
            (#[trigger] s[i]).region, (#[trigger] s[j]).region)
        &&& forall|i: int| 0 <= i < s.len() ==> ((#[trigger] s[i]).in_gc ==> (s[i].state
            == RegionState::Active || s[i].state == RegionState::Evicting))
        &&& forall|i: int| 0 <= i < s.len() ==> ((#[trigger] s[i]).snapshots.len() > 0 ==> s[
        i].state == RegionState::Active)
        &&& forall|i: int| 0 <= i < s.len() ==> crate::region::snap_seq_wf(
            (#[trigger] s[i]).snapshots)
        &&& forall|i: int| 0 <= i < self.hist_view().len() ==> crate::region::snap_seq_wf(
            (#[trigger] self.hist_view()[i]).snapshots)
        &&& forall|i: int| 0 <= i < self.hist_view().len() ==> (#[trigger] self.hist_view()[
        i]).snapshots.len() > 0
    }

    pub fn new() -> (m: RegionManager)
        ensures
            m.wf(),
            m.regions_view() == Seq::<MetaView>::empty(),
            m.hist_view() == Seq::<HistView>::empty(),
            m.written_view() == Seq::<(Seq<u8>, Seq<u8>)>::empty(),
            !m.spec_regions_in_gc(),
    {
        let m = RegionManager {
            regions: Vec::new(),
            historical: Vec::new(),
            regions_in_gc: false,
            ranges_being_written: Vec::new(),
        };
        proof {
            assert(m.regions_view() =~= Seq::<MetaView>::empty());
            assert(m.hist_view() =~= Seq::<HistView>::empty());
            assert(m.written_view() =~= Seq::<(Seq<u8>, Seq<u8>)>::empty());
        }
        m
    }

    pub fn regions_len(&self) -> (n: usize)
        ensures
            n == self.regions_view().len(),
    {
        self.regions.len()
    }

    pub fn contains_region(&self, id: u64) -> (r: bool)
        ensures
            r == has_id(self.regions_view(), id),
    {
        let ghost s = self.regions_view();
        let mut i: usize = 0;
        while i < self.regions.len()
            invariant
                i <= s.len(),
                s == self.regions@.map_values(|m: RegionMeta| m@),
                s.len() == self.regions@.len(),
                forall|j: int| 0 <= j < i ==> (#[trigger] s[j]).region.id != id,
            decreases s.len() - i,
        {
            if self.regions[i].region.id == id {
                proof {
                    lemma_id_index_from_props(s, id, i as int);
                }
                return true;
            }
            i = i + 1;
        }
        proof {
            lemma_id_index_from_props(s, id, s.len() as int);
        }
        false
    }

    /// The state of the region with this id.
    pub fn region_state(&self, id: u64) -> (r: Option<RegionState>)
        ensures
            match r {
                Some(st) => has_id(self.regions_view(), id) && st == self.regions_view()[id_index(
                    self.regions_view(), id)].state,
                None => !has_id(self.regions_view(), id),
            },
    {
        let ghost s = self.regions_view();
        let mut i: usize = 0;
        while i < self.regions.len()
            invariant
                i <= s.len(),
                s == self.regions@.map_values(|m: RegionMeta| m@),
                s.len() == self.regions@.len(),
                forall|j: int| 0 <= j < i ==> (#[trigger] s[j]).region.id != id,
            decreases s.len() - i,
        {
            if self.regions[i].region.id == id {
                proof {
                    lemma_id_index_from_props(s, id, i as int);
                }
                return Some(self.regions[i].state);
            }
            i = i + 1;
        }
        proof {
            lemma_id_index_from_props(s, id, s.len() as int);
        }
        None
    }

    /// The safe point of the region with this id.
    pub fn region_safe_point(&self, id: u64) -> (r: Option<u64>)
        ensures
            match r {
                Some(sp) => has_id(self.regions_view(), id) && sp == self.regions_view()[
                id_index(self.regions_view(), id)].safe_point,
                None => !has_id(self.regions_view(), id),
            },
    {
        let ghost s = self.regions_view();
        let mut i: usize = 0;
        while i < self.regions.len()
            invariant
                i <= s.len(),
                s == self.regions@.map_values(|m: RegionMeta| m@),
                s.len() == self.regions@.len(),
                forall|j: int| 0 <= j < i ==> (#[trigger] s[j]).region.id != id,
            decreases s.len() - i,
        {
            if self.regions[i].region.id == id {
                proof {
                    lemma_id_index_from_props(s, id, i as int);
                }
                return Some(self.regions[i].safe_point);
            }
            i = i + 1;
        }
        proof {
            lemma_id_index_from_props(s, id, s.len() as int);
        }
        None
    }

    /// Registers a new region for caching. Refused exactly when its id is
    /// already known or its range overlaps a cached region's range; accepted
    /// regions enter in `Pending`.
    pub fn load_region(&mut self, region: Region) -> (r: Result<(), LoadError>)
        requires
            old(self).wf(),
        ensures
            final(self).wf(),
            final(self).hist_view() == old(self).hist_view(),
            final(self).written_view() == old(self).written_view(),
            final(self).spec_regions_in_gc() == old(self).spec_regions_in_gc(),
            final(self).regions_view() == spec_load_region(old(self).regions_view(), region@),
            match r {
                Ok(()) => !load_conflicts(old(self).regions_view(), region@),
                Err(LoadError::AlreadyExists) => load_conflicts(old(self).regions_view(),
                    region@),
            },
    {
        let ghost s = self.regions_view();
        let mut i: usize = 0;
        while i < self.regions.len()
            invariant
                i <= s.len(),
                s == self.regions@.map_values(|m: RegionMeta| m@),
                s.len() == self.regions@.len(),
                forall|j: int| 0 <= j < i ==> !((#[trigger] s[j]).region.id == region@.id
                    || ranges_overlap(s[j].region, region@)),
            decreases s.len() - i,
        {
            let m = &self.regions[i];
            let id_hit = m.region.id == region.id;
            let overlap_hit = crate::keys::bytes_cmp_lt(&m.region.start, &region.end)
                && crate::keys::bytes_cmp_lt(&region.start, &m.region.end);
            if id_hit || overlap_hit {
                proof {
                    assert(s[i as int] == self.regions@[i as int]@);
                    assert(s[i as int].region.id == region@.id || ranges_overlap(
                        s[i as int].region, region@));
                }
                return Err(LoadError::AlreadyExists);
            }
            i = i + 1;
        }
        let meta = RegionMeta {
            region,
            state: RegionState::Pending,
            safe_point: 0,
            in_gc: false,
            evict_reason: None,
            snapshots: SnapshotList::new(),
        };
        let ghost mv = meta@;
        self.regions.push(meta);
        proof {
            assert(self.regions_view() =~= s.push(mv));
            let t = self.regions_view();
            assert forall|a: int, b: int| 0 <= a < b < t.len() implies (
            #[trigger] t[a]).region.id != (#[trigger] t[b]).region.id && !ranges_overlap(
                t[a].region, t[b].region) by {
                if b < s.len() {
                    assert(t[a] == s[a] && t[b] == s[b]);
                } else {
                    assert(t[a] == s[a] && t[b] == mv);
                }
            }
            assert(self.hist_view() =~= old(self).hist_view());
            assert forall|i: int| 0 <= i < self.hist_view().len() implies
                crate::region::snap_seq_wf((#[trigger] self.hist_view()[i]).snapshots)
                && self.hist_view()[i].snapshots.len() > 0 by {
                assert(self.hist_view()[i] == old(self).hist_view()[i]);
            }
        }
        Ok(())
    }

    /// The single-flight guard of a whole GC round: succeeds exactly when
    /// the guard is not already in the requested position.
    pub fn try_set_regions_in_gc(&mut self, v: bool) -> (r: bool)
        ensures
            final(self).regions_view() == old(self).regions_view(),
            final(self).hist_view() == old(self).hist_view(),
            final(self).written_view() == old(self).written_view(),
            r == (old(self).spec_regions_in_gc() != v),
            final(self).spec_regions_in_gc() == v,
            old(self).wf() ==> final(self).wf(),
    {
        let was = self.regions_in_gc;
        self.regions_in_gc = v;
        proof {
            if old(self).wf() {
                lemma_wf_transfer(old(self), self);
            }
        }
        was != v
    }

    /// Opens a read snapshot at `read_ts` on the region: allowed exactly
    /// while the region is `Active`.
    pub fn acquire_snapshot(&mut self, region_id: u64, read_ts: u64) -> (r: Result<
        (),
        SnapshotError,
    >)
        requires
            old(self).wf(),
            has_id(old(self).regions_view(), region_id) ==> spec_snap_count(
                old(self).regions_view()[id_index(old(self).regions_view(), region_id)].snapshots,
                read_ts) < u64::MAX,
        ensures
            final(self).wf(),
            final(self).hist_view() == old(self).hist_view(),
            final(self).written_view() == old(self).written_view(),
            final(self).spec_regions_in_gc() == old(self).spec_regions_in_gc(),
            match r {
                Ok(()) => {
                    let s = old(self).regions_view();
                    let p = id_index(s, region_id);
                    &&& has_id(s, region_id)
                    &&& s[p].state == RegionState::Active
                    &&& final(self).regions_view().len() == s.len()
                    &&& forall|j: int| 0 <= j < s.len() && j != p ==> final(self).regions_view()[
                    j] == s[j]
                    &&& {
                        let m = final(self).regions_view()[p];
                        &&& m.region == s[p].region
                        &&& m.state == s[p].state
                        &&& m.safe_point == s[p].safe_point
                        &&& m.in_gc == s[p].in_gc
                        &&& m.snapshots.len() > 0
                        &&& spec_snap_count(m.snapshots, read_ts) == spec_snap_count(
                            s[p].snapshots, read_ts) + 1
                        &&& spec_snap_min(m.snapshots) <= read_ts
                    }
                },
                Err(SnapshotError::RegionNotCached) => {
                    &&& !(has_id(old(self).regions_view(), region_id) && old(self).regions_view()[
                    id_index(old(self).regions_view(), region_id)].state == RegionState::Active)
                    &&& final(self).regions_view() == old(self).regions_view()
                },
            },
    {
        let ghost s = self.regions_view();
        let mut i: usize = 0;
        while i < self.regions.len()
            invariant
                i <= s.len(),
                s == old(self).regions_view(),
                self == old(self),
                s == self.regions@.map_values(|m: RegionMeta| m@),
                s.len() == self.regions@.len(),
                old(self).wf(),
                has_id(s, region_id) ==> spec_snap_count(s[id_index(s, region_id)].snapshots,
                    read_ts) < u64::MAX,
                forall|j: int| 0 <= j < i ==> (#[trigger] s[j]).region.id != region_id,
            decreases s.len() - i,
        {
            if self.regions[i].region.id == region_id {
                proof {
                    lemma_id_index_from_props(s, region_id, i as int);
                }
                if !matches!(self.regions[i].state, RegionState::Active) {
                    return Err(SnapshotError::RegionNotCached);
                }
                let mut meta = self.regions.remove(i);
                proof {
                    assert(s[i as int] == meta@);
                }
                meta.snapshots.add(read_ts);
                let ghost mv = meta@;
                self.regions.insert(i, meta);
                proof {
                    assert(self.regions_view() =~= s.update(i as int, mv));
                    assert(self.hist_view() =~= old(self).hist_view());
                    assert(self.written_view() =~= old(self).written_view());
                    let t = self.regions_view();
                    assert forall|a: int, b: int| 0 <= a < b < t.len() implies (
                    #[trigger] t[a]).region.id != (#[trigger] t[b]).region.id && !ranges_overlap(
                        t[a].region, t[b].region) by {
                        assert(s[a].region == t[a].region && s[b].region == t[b].region);
                    }
                    assert(self.hist_view() =~= old(self).hist_view());
                    assert(self.written_view() =~= old(self).written_view());
                }
                return Ok(());
            }
            i = i + 1;
        }
        proof {
            lemma_id_index_from_props(s, region_id, s.len() as int);
        }
        Err(SnapshotError::RegionNotCached)
    }
}


/// Whether region `r`'s range intersects the half-open byte range.
pub open spec fn region_range_overlaps(r: RegionView, start: Seq<u8>, end: Seq<u8>) -> bool {
    lex_lt(r.start, end) && lex_lt(start, r.end)
}

/// The least snapshot timestamp among historical records overlapping the
/// range; the top of the range when none does.
pub open spec fn spec_hist_min(h: Seq<HistView>, start: Seq<u8>, end: Seq<u8>) -> u64
    decreases h.len(),
{
    if h.len() == 0 {
        u64::MAX
    } else {
        let head = if region_range_overlaps(h[0].region, start, end) && h[0].snapshots.len() > 0 {
            spec_snap_min(h[0].snapshots)
        } else {
            u64::MAX
        };
        let rest = spec_hist_min(h.skip(1), start, end);
        if head <= rest {
            head
        } else {
            rest
        }
    }
}

proof fn lemma_hist_min_snoc(h: Seq<HistView>, start: Seq<u8>, end: Seq<u8>)
    requires
        h.len() >= 1,
    ensures
        spec_hist_min(h, start, end) == {
            let head = if region_range_overlaps(h.last().region, start, end)
                && h.last().snapshots.len() > 0 {
                spec_snap_min(h.last().snapshots)
            } else {
                u64::MAX
            };
            let rest = spec_hist_min(h.drop_last(), start, end);
            if head <= rest {
                head
            } else {
                rest
            }
        },
    decreases h.len(),
{
    if h.len() == 1 {
        assert(h.skip(1) =~= Seq::<HistView>::empty());
        assert(h.drop_last() =~= Seq::<HistView>::empty());
    } else {
        lemma_hist_min_snoc(h.skip(1), start, end);
        assert(h.skip(1).drop_last() =~= h.drop_last().skip(1));
        assert(h.skip(1).last() == h.last());
        assert(h.drop_last()[0] == h[0]);
    }
}

/// The containment of one range in another.
pub open spec fn range_contains(outer: RegionView, inner: RegionView) -> bool {
    crate::keys::lex_le(outer.start, inner.start) && crate::keys::lex_le(inner.end, outer.end)
}

/// The safe point a GC pass may actually use: the requested one, lowered to
/// the region's least open snapshot and the least overlapping historical
/// snapshot.
pub open spec fn effective_safe_point(requested: u64, m: MetaView, hist_min: u64) -> u64 {
    let snap_min = if m.snapshots.len() == 0 {
        u64::MAX
    } else {
        spec_snap_min(m.snapshots)
    };
    let a = if requested <= snap_min {
        requested
    } else {
        snap_min
    };
    if a <= hist_min {
        a
    } else {
        hist_min
    }
}

impl RegionManager {
    /// The least snapshot timestamp retained for evicted or replaced regions
    /// overlapping `[start, end)`.
    pub fn get_history_regions_min_ts(&self, start: &Vec<u8>, end: &Vec<u8>) -> (r: u64)
        ensures
            r == spec_hist_min(self.hist_view(), start@, end@),
    {
        let ghost h = self.hist_view();
        let mut best: u64 = u64::MAX;
        let mut i: usize = 0;
        proof {
            assert(h.take(0) =~= Seq::<HistView>::empty());
        }
        while i < self.historical.len()
            invariant
                i <= h.len(),
                h == self.historical@.map_values(|x: HistRecord| x@),
                h.len() == self.historical@.len(),
                best == spec_hist_min(h.take(i as int), start@, end@),
            decreases h.len() - i,
        {
            proof {
                lemma_hist_min_snoc(h.take(i as int + 1), start@, end@);
                assert(h.take(i as int + 1).drop_last() =~= h.take(i as int));
                assert(h.take(i as int + 1).last() == h[i as int]);
                assert(h[i as int] == self.historical@[i as int]@);
            }
            let rec = &self.historical[i];
            let overlaps = crate::keys::bytes_cmp_lt(&rec.region.start, end)
                && crate::keys::bytes_cmp_lt(start, &rec.region.end);
            if overlaps {
                match rec.snapshots.min_snapshot_ts() {
                    Some(m) => {
                        if m < best {
                            best = m;
                        }
                    },
                    None => {},
                }
            }
            i = i + 1;
        }
        proof {
            assert(h.take(i as int) =~= h);
        }
        best
    }

    /// Starts a GC pass over one region: checks that the region is Active
    /// and still covered by the caller's range, lowers the requested safe
    /// point to what open and historical snapshots allow, and installs it
    /// with the region's GC guard. Skipped, with nothing changed, when the
    /// effective safe point would not strictly advance. A region's safe
    /// point never decreases.
    pub fn prepare_region_gc(&mut self, region: &Region, requested: u64) -> (r: Option<u64>)
        requires
            old(self).wf(),
        ensures
            final(self).wf(),
            final(self).hist_view() == old(self).hist_view(),
            final(self).written_view() == old(self).written_view(),
            final(self).spec_regions_in_gc() == old(self).spec_regions_in_gc(),
            final(self).regions_view().len() == old(self).regions_view().len(),
            forall|i: int| 0 <= i < old(self).regions_view().len() ==> (#[trigger] final(
                self).regions_view()[i]).safe_point >= old(self).regions_view()[i].safe_point,
            match r {
                Some(eff) => {
                    let s = old(self).regions_view();
                    let p = id_index(s, region@.id);
                    &&& has_id(s, region@.id)
                    &&& s[p].state == RegionState::Active
                    &&& range_contains(region@, s[p].region)
                    &&& eff == effective_safe_point(requested, s[p], spec_hist_min(
                        old(self).hist_view(), region@.start, region@.end))
                    &&& eff > s[p].safe_point
                    &&& final(self).regions_view() == s.update(p, MetaView {
                        safe_point: eff,
                        in_gc: true,
                        ..s[p]
                    })
                },
                None => {
                    let s = old(self).regions_view();
                    let p = id_index(s, region@.id);
                    &&& final(self).regions_view() == s
                    &&& (!has_id(s, region@.id) || s[p].state != RegionState::Active
                        || !range_contains(region@, s[p].region) || effective_safe_point(
                        requested, s[p], spec_hist_min(old(self).hist_view(), region@.start,
                        region@.end)) <= s[p].safe_point)
                },
            },
    {
        let hist_min = self.get_history_regions_min_ts(&region.start, &region.end);
        let ghost s = self.regions_view();
        let mut i: usize = 0;
        while i < self.regions.len()
            invariant
                i <= s.len(),
                *self == *old(self),
                s == self.regions@.map_values(|m: RegionMeta| m@),
                s.len() == self.regions@.len(),
                forall|j: int| 0 <= j < i ==> (#[trigger] s[j]).region.id != region@.id,
            decreases s.len() - i,
        {
            if self.regions[i].region.id == region.id {
                proof {
                    lemma_id_index_from_props(s, region@.id, i as int);
                }
                if !matches!(self.regions[i].state, RegionState::Active) {
                    return None;
                }
                let contained = crate::keys::bytes_le(&region.start, &self.regions[i].region.start)
                    && crate::keys::bytes_le(&self.regions[i].region.end, &region.end);
                if !contained {
                    return None;
                }
                let snap_min = match self.regions[i].snapshots.min_snapshot_ts() {
                    Some(m) => m,
                    None => u64::MAX,
                };
                let mut eff = requested;
                if snap_min < eff {
                    eff = snap_min;
                }
                if hist_min < eff {
                    eff = hist_min;
                }
                if eff <= self.regions[i].safe_point {
                    return None;
                }
                let mut meta = self.regions.remove(i);
                meta.safe_point = eff;
                meta.in_gc = true;
                let ghost mv = meta@;
                self.regions.insert(i, meta);
                proof {
                    assert(self.regions_view() =~= s.update(i as int, mv));
                    assert(self.hist_view() =~= old(self).hist_view());
                    assert(self.written_view() =~= old(self).written_view());
                    let t = self.regions_view();
                    assert forall|a: int, b: int| 0 <= a < b < t.len() implies (
                    #[trigger] t[a]).region.id != (#[trigger] t[b]).region.id && !ranges_overlap(
                        t[a].region, t[b].region) by {
                        assert(s[a].region == t[a].region && s[b].region == t[b].region);
                    }
                    lemma_wf_views_helper(old(self), self);
                }
                return Some(eff);
            }
            i = i + 1;
        }
        proof {
            lemma_id_index_from_props(s, region@.id, s.len() as int);
        }
        None
    }

    /// Ends a GC pass over one region: clears its GC guard.
    pub fn on_gc_region_finished(&mut self, region: &Region)
        requires
            old(self).wf(),
        ensures
            final(self).wf(),
            final(self).hist_view() == old(self).hist_view(),
            final(self).written_view() == old(self).written_view(),
            final(self).spec_regions_in_gc() == old(self).spec_regions_in_gc(),
            final(self).regions_view() == if has_id(old(self).regions_view(), region@.id) {
                let s = old(self).regions_view();
                let p = id_index(s, region@.id);
                s.update(p, MetaView { in_gc: false, ..s[p] })
            } else {
                old(self).regions_view()
            },
    {
        let ghost s = self.regions_view();
        let mut i: usize = 0;
        while i < self.regions.len()
            invariant
                i <= s.len(),
                *self == *old(self),
                s == self.regions@.map_values(|m: RegionMeta| m@),
                s.len() == self.regions@.len(),
                forall|j: int| 0 <= j < i ==> (#[trigger] s[j]).region.id != region@.id,
            decreases s.len() - i,
        {
            if self.regions[i].region.id == region.id {
                proof {
                    lemma_id_index_from_props(s, region@.id, i as int);
                }
                let mut meta = self.regions.remove(i);
                meta.in_gc = false;
                let ghost mv = meta@;
                self.regions.insert(i, meta);
                proof {
                    assert(self.regions_view() =~= s.update(i as int, mv));
                    assert(self.hist_view() =~= old(self).hist_view());
                    assert(self.written_view() =~= old(self).written_view());
                    let t = self.regions_view();
                    assert forall|a: int, b: int| 0 <= a < b < t.len() implies (
                    #[trigger] t[a]).region.id != (#[trigger] t[b]).region.id && !ranges_overlap(
                        t[a].region, t[b].region) by {
                        assert(s[a].region == t[a].region && s[b].region == t[b].region);
                    }
                    lemma_wf_views_helper(old(self), self);
                }
                return ;
            }
            i = i + 1;
        }
        proof {
            lemma_id_index_from_props(s, region@.id, s.len() as int);
        }
    }

    /// Records that a load snapshot was captured: the region may now load.
    pub fn mark_ready_to_load(&mut self, region_id: u64)
        requires
            old(self).wf(),
            has_id(old(self).regions_view(), region_id),
            old(self).regions_view()[id_index(old(self).regions_view(), region_id)].state
                == RegionState::Pending,
        ensures
            final(self).wf(),
            final(self).hist_view() == old(self).hist_view(),
            final(self).written_view() == old(self).written_view(),
            final(self).spec_regions_in_gc() == old(self).spec_regions_in_gc(),
            final(self).regions_view() == {
                let s = old(self).regions_view();
                let p = id_index(s, region_id);
                s.update(p, MetaView { state: RegionState::ReadyToLoad, ..s[p] })
            },
    {
        let ghost s = self.regions_view();
        proof {
            lemma_id_index_props(s, region_id);
        }
        let mut i: usize = 0;
        while i < self.regions.len()
            invariant
                i <= s.len(),
                *self == *old(self),
                s == self.regions@.map_values(|m: RegionMeta| m@),
                s.len() == self.regions@.len(),
                forall|j: int| 0 <= j < i ==> (#[trigger] s[j]).region.id != region_id,
            decreases s.len() - i,
        {
            if self.regions[i].region.id == region_id {
                proof {
                    lemma_id_index_from_props(s, region_id, i as int);
                }
                let mut meta = self.regions.remove(i);
                meta.state = RegionState::ReadyToLoad;
                let ghost mv = meta@;
                self.regions.insert(i, meta);
                proof {
                    assert(self.regions_view() =~= s.update(i as int, mv));
                    assert(self.hist_view() =~= old(self).hist_view());
                    assert(self.written_view() =~= old(self).written_view());
                    let t = self.regions_view();
                    assert forall|a: int, b: int| 0 <= a < b < t.len() implies (
                    #[trigger] t[a]).region.id != (#[trigger] t[b]).region.id && !ranges_overlap(
                        t[a].region, t[b].region) by {
                        assert(s[a].region == t[a].region && s[b].region == t[b].region);
                    }
                    lemma_wf_views_helper(old(self), self);
                }
                return ;
            }
            i = i + 1;
        }
        proof {
            lemma_id_index_from_props(s, region_id, s.len() as int);
            assert(false);
        }
    }

    /// The loader takes the region: a ready region starts loading; a region
    /// whose load was canceled while queued is reported as canceled.
    pub fn begin_load_region(&mut self, region_id: u64) -> (canceled: bool)
        requires
            old(self).wf(),
            has_id(old(self).regions_view(), region_id),
            old(self).regions_view()[id_index(old(self).regions_view(), region_id)].state
                == RegionState::ReadyToLoad || old(self).regions_view()[id_index(
                old(self).regions_view(), region_id)].state == RegionState::LoadingCanceled,
        ensures
            final(self).wf(),
            final(self).hist_view() == old(self).hist_view(),
            final(self).written_view() == old(self).written_view(),
            final(self).spec_regions_in_gc() == old(self).spec_regions_in_gc(),
            canceled == (old(self).regions_view()[id_index(old(self).regions_view(),
                region_id)].state == RegionState::LoadingCanceled),
            final(self).regions_view() == if canceled {
                old(self).regions_view()
            } else {
                let s = old(self).regions_view();
                let p = id_index(s, region_id);
                s.update(p, MetaView { state: RegionState::Loading, ..s[p] })
            },
    {
        let ghost s = self.regions_view();
        proof {
            lemma_id_index_props(s, region_id);
        }
        let mut i: usize = 0;
        while i < self.regions.len()
            invariant
                i <= s.len(),
                *self == *old(self),
                s == self.regions@.map_values(|m: RegionMeta| m@),
                s.len() == self.regions@.len(),
                forall|j: int| 0 <= j < i ==> (#[trigger] s[j]).region.id != region_id,
            decreases s.len() - i,
        {
            if self.regions[i].region.id == region_id {
                proof {
                    lemma_id_index_from_props(s, region_id, i as int);
                }
                if matches!(self.regions[i].state, RegionState::LoadingCanceled) {
                    return true;
                }
                let mut meta = self.regions.remove(i);
                meta.state = RegionState::Loading;
                let ghost mv = meta@;
                self.regions.insert(i, meta);
                proof {
                    assert(self.regions_view() =~= s.update(i as int, mv));
                    assert(self.hist_view() =~= old(self).hist_view());
                    assert(self.written_view() =~= old(self).written_view());
                    let t = self.regions_view();
                    assert forall|a: int, b: int| 0 <= a < b < t.len() implies (
                    #[trigger] t[a]).region.id != (#[trigger] t[b]).region.id && !ranges_overlap(
                        t[a].region, t[b].region) by {
                        assert(s[a].region == t[a].region && s[b].region == t[b].region);
                    }
                    lemma_wf_views_helper(old(self), self);
                }
                return false;
            }
            i = i + 1;
        }
        proof {
            lemma_id_index_from_props(s, region_id, s.len() as int);
            assert(false);
        }
        false
    }

    /// Registers a range an apply thread is writing: range deletion defers
    /// while it stands.
    pub fn add_range_being_written(&mut self, start: Vec<u8>, end: Vec<u8>)
        requires
            old(self).wf(),
        ensures
            final(self).wf(),
            final(self).regions_view() == old(self).regions_view(),
            final(self).hist_view() == old(self).hist_view(),
            final(self).spec_regions_in_gc() == old(self).spec_regions_in_gc(),
            final(self).written_view() == old(self).written_view().push((start@, end@)),
    {
        self.ranges_being_written.push(WrittenRange { start, end });
        proof {
            assert(self.written_view() =~= old(self).written_view().push((start@, end@)));
            lemma_wf_views_helper(old(self), self);
        }
    }

    /// Clears the registry after the apply threads are done.
    pub fn clear_ranges_being_written(&mut self)
        requires
            old(self).wf(),
        ensures
            final(self).wf(),
            final(self).regions_view() == old(self).regions_view(),
            final(self).hist_view() == old(self).hist_view(),
            final(self).spec_regions_in_gc() == old(self).spec_regions_in_gc(),
            final(self).written_view() == Seq::<(Seq<u8>, Seq<u8>)>::empty(),
    {
        self.ranges_being_written.clear();
        proof {
            assert(self.written_view() =~= Seq::<(Seq<u8>, Seq<u8>)>::empty());
            lemma_wf_views_helper(old(self), self);
        }
    }

    /// Whether `[start, end)` intersects a range currently being written.
    pub fn is_overlapped_with_regions_being_written(&self, start: &Vec<u8>, end: &Vec<u8>) -> (r:
        bool)
        ensures
            r == exists|i: int|
                0 <= i < self.written_view().len() && lex_lt(
                    (#[trigger] self.written_view()[i]).0, end@) && lex_lt(start@,
                    self.written_view()[i].1),
    {
        let ghost w = self.written_view();
        let mut i: usize = 0;
        while i < self.ranges_being_written.len()
            invariant
                i <= w.len(),
                w == self.ranges_being_written@.map_values(|x: WrittenRange| x@),
                w.len() == self.ranges_being_written@.len(),
                forall|j: int| 0 <= j < i ==> !(lex_lt((#[trigger] w[j]).0, end@) && lex_lt(
                    start@, w[j].1)),
            decreases w.len() - i,
        {
            let rec = &self.ranges_being_written[i];
            if crate::keys::bytes_cmp_lt(&rec.start, end) && crate::keys::bytes_cmp_lt(start,
                &rec.end) {
                proof {
                    assert(w[i as int] == self.ranges_being_written@[i as int]@);
                }
                return true;
            }
            i = i + 1;
        }
        false
    }

    /// Whether the region with this id currently carries the GC guard.
    pub fn region_in_gc(&self, region_id: u64) -> (r: bool)
        ensures
            r == (has_id(self.regions_view(), region_id) && self.regions_view()[id_index(
                self.regions_view(), region_id)].in_gc),
    {
        let ghost s = self.regions_view();
        let mut i: usize = 0;
        while i < self.regions.len()
            invariant
                i <= s.len(),
                s == self.regions@.map_values(|m: RegionMeta| m@),
                s.len() == self.regions@.len(),
                forall|j: int| 0 <= j < i ==> (#[trigger] s[j]).region.id != region_id,
            decreases s.len() - i,
        {
            if self.regions[i].region.id == region_id {
                proof {
                    lemma_id_index_from_props(s, region_id, i as int);
                }
                return self.regions[i].in_gc;
            }
            i = i + 1;
        }
        proof {
            lemma_id_index_from_props(s, region_id, s.len() as int);
        }
        false
    }
}

/// Transfers the invariant clauses that only mention snapshot lists and
/// historical records between two managers whose region metadata agree
/// except possibly at snapshot-preserving positions.
proof fn lemma_wf_views_helper(a: &RegionManager, b: &RegionManager)
    requires
        a.wf(),
        b.hist_view() == a.hist_view(),
    ensures
        forall|i: int| 0 <= i < b.hist_view().len() ==> crate::region::snap_seq_wf(
            (#[trigger] b.hist_view()[i]).snapshots),
        forall|i: int| 0 <= i < b.hist_view().len() ==> (#[trigger] b.hist_view()[
        i]).snapshots.len() > 0,
{
    assert forall|i: int| 0 <= i < b.hist_view().len() implies crate::region::snap_seq_wf(
        (#[trigger] b.hist_view()[i]).snapshots) && b.hist_view()[i].snapshots.len() > 0 by {
        assert(b.hist_view()[i] == a.hist_view()[i]);
    }
}


/// Whether the eviction of `t` touches meta `m`: same region id or an
/// intersecting range.
pub open spec fn evict_touches(m: MetaView, t: RegionView) -> bool {
    m.region.id == t.id || ranges_overlap(m.region, t)
}

/// Whether a region in this state may be evicted at all.
pub open spec fn evictable_state(st: RegionState) -> bool {
    st == RegionState::Pending || st == RegionState::ReadyToLoad || st == RegionState::Loading
        || st == RegionState::Active
}

/// One meta after an eviction of `t` for `reason`: a loading region is only
/// marked canceled (the loader finishes the eviction); other evictable
/// regions go to `Evicting` and shed their snapshots into the historical
/// list; anything else is untouched.
pub open spec fn spec_evict_meta(m: MetaView, t: RegionView, reason: EvictReason) -> MetaView {
    if !evict_touches(m, t) || !evictable_state(m.state) {
        m
    } else if m.state == RegionState::Loading {
        MetaView { state: RegionState::LoadingCanceled, evict_reason: Some(reason), ..m }
    } else {
        MetaView {
            state: RegionState::Evicting,
            evict_reason: Some(reason),
            snapshots: Seq::empty(),
            ..m
        }
    }
}


/// Every meta after an eviction of `t`, as one value.
pub open spec fn evict_all(s: Seq<MetaView>, t: RegionView, reason: EvictReason) -> Seq<
    MetaView,
> {
    Seq::new(s.len(), |i: int| spec_evict_meta(s[i], t, reason))
}

/// The regions an eviction makes physically deleteable, in scan order:
/// the touched regions that move to `Evicting` now.
pub open spec fn evict_deleteables(s: Seq<MetaView>, t: RegionView) -> Seq<RegionView>
    decreases s.len(),
{
    if s.len() == 0 {
        Seq::empty()
    } else {
        let rest = evict_deleteables(s.skip(1), t);
        if evict_touches(s[0], t) && evictable_state(s[0].state) && s[0].state
            != RegionState::Loading {
            seq![s[0].region] + rest
        } else {
            rest
        }
    }
}

/// The historical records an eviction retains, in scan order: the open
/// snapshots of each region that moves to `Evicting`.
pub open spec fn evict_hist_added(s: Seq<MetaView>, t: RegionView) -> Seq<HistView>
    decreases s.len(),
{
    if s.len() == 0 {
        Seq::empty()
    } else {
        let rest = evict_hist_added(s.skip(1), t);
        if evict_touches(s[0], t) && evictable_state(s[0].state) && s[0].state
            != RegionState::Loading && s[0].snapshots.len() > 0 {
            seq![HistView { region: s[0].region, snapshots: s[0].snapshots }] + rest
        } else {
            rest
        }
    }
}

proof fn lemma_evict_deleteables_push(s: Seq<MetaView>, e: MetaView, t: RegionView)
    ensures
        evict_deleteables(s.push(e), t) == if evict_touches(e, t) && evictable_state(e.state)
            && e.state != RegionState::Loading {
            evict_deleteables(s, t).push(e.region)
        } else {
            evict_deleteables(s, t)
        },
    decreases s.len(),
{
    if s.len() == 0 {
        assert(s.push(e)[0] == e);
        assert(s.push(e).skip(1) =~= Seq::<MetaView>::empty());
        assert(evict_deleteables(s.push(e).skip(1), t) == Seq::<RegionView>::empty());
        assert(evict_deleteables(s, t) == Seq::<RegionView>::empty());
        if evict_touches(e, t) && evictable_state(e.state) && e.state != RegionState::Loading {
            assert(seq![e.region] + Seq::<RegionView>::empty() =~= Seq::<
                RegionView,
            >::empty().push(e.region));
        }
    } else {
        assert(s.push(e)[0] == s[0]);
        assert(s.push(e).skip(1) =~= s.skip(1).push(e));
        lemma_evict_deleteables_push(s.skip(1), e, t);
        if evict_touches(s[0], t) && evictable_state(s[0].state) && s[0].state
            != RegionState::Loading {
            if evict_touches(e, t) && evictable_state(e.state) && e.state
                != RegionState::Loading {
                assert(seq![s[0].region] + evict_deleteables(s.skip(1), t).push(e.region) =~= (
                seq![s[0].region] + evict_deleteables(s.skip(1), t)).push(e.region));
            }
        }
    }
}

proof fn lemma_evict_hist_added_push(s: Seq<MetaView>, e: MetaView, t: RegionView)
    ensures
        evict_hist_added(s.push(e), t) == if evict_touches(e, t) && evictable_state(e.state)
            && e.state != RegionState::Loading && e.snapshots.len() > 0 {
            evict_hist_added(s, t).push(HistView { region: e.region, snapshots: e.snapshots })
        } else {
            evict_hist_added(s, t)
        },
    decreases s.len(),
{
    if s.len() == 0 {
        assert(s.push(e)[0] == e);
        assert(s.push(e).skip(1) =~= Seq::<MetaView>::empty());
        assert(evict_hist_added(s.push(e).skip(1), t) == Seq::<HistView>::empty());
        assert(evict_hist_added(s, t) == Seq::<HistView>::empty());
        if evict_touches(e, t) && evictable_state(e.state) && e.state != RegionState::Loading
            && e.snapshots.len() > 0 {
            assert(seq![HistView { region: e.region, snapshots: e.snapshots }] + Seq::<
                HistView,
            >::empty() =~= Seq::<HistView>::empty().push(HistView {
                region: e.region,
                snapshots: e.snapshots,
            }));
        }
    } else {
        assert(s.push(e)[0] == s[0]);
        assert(s.push(e).skip(1) =~= s.skip(1).push(e));
        lemma_evict_hist_added_push(s.skip(1), e, t);
        if evict_touches(s[0], t) && evictable_state(s[0].state) && s[0].state
            != RegionState::Loading && s[0].snapshots.len() > 0 {
            if evict_touches(e, t) && evictable_state(e.state) && e.state
                != RegionState::Loading && e.snapshots.len() > 0 {
                assert(seq![HistView { region: s[0].region, snapshots: s[0].snapshots }]
                    + evict_hist_added(s.skip(1), t).push(HistView {
                    region: e.region,
                    snapshots: e.snapshots,
                }) =~= (seq![HistView { region: s[0].region, snapshots: s[0].snapshots }]
                    + evict_hist_added(s.skip(1), t)).push(HistView {
                    region: e.region,
                    snapshots: e.snapshots,
                }));
            }
        }
    }
}

impl RegionManager {
    /// Evicts every cached region that `region`'s range or id touches.
    /// Loading regions are marked canceled for the loader to finish; other
    /// evictable regions move to `Evicting`, retain their open snapshots as
    /// historical records, and come back as the list of regions whose data
    /// may now be erased.
    pub fn evict_region(&mut self, region: &Region, reason: EvictReason) -> (deleteable: Vec<
        Region,
    >)
        requires
            old(self).wf(),
        ensures
            final(self).wf(),
            final(self).written_view() == old(self).written_view(),
            final(self).spec_regions_in_gc() == old(self).spec_regions_in_gc(),
            final(self).regions_view().len() == old(self).regions_view().len(),
            forall|i: int| 0 <= i < old(self).regions_view().len() ==> final(
                self).regions_view()[i] == spec_evict_meta(#[trigger] old(self).regions_view()[
            i], region@, reason),
            final(self).regions_view() == evict_all(old(self).regions_view(), region@, reason),
            deleteable@.map_values(|r: Region| r@) == evict_deleteables(
                old(self).regions_view(), region@),
            final(self).hist_view() == old(self).hist_view() + evict_hist_added(
                old(self).regions_view(), region@),
    {
        let ghost s = self.regions_view();
        let ghost t = region@;
        let ghost h0 = self.hist_view();
        let mut deleteable: Vec<Region> = Vec::new();
        let mut i: usize = 0;
        proof {
            assert(s.take(0) =~= Seq::<MetaView>::empty());
            assert(h0 + evict_hist_added(s.take(0), t) =~= h0);
        }
        while i < self.regions.len()
            invariant
                i <= s.len(),
                s.len() == self.regions@.len(),
                self.regions_view().len() == s.len(),
                forall|j: int| 0 <= j < i ==> self.regions_view()[j] == spec_evict_meta(
                    #[trigger] s[j], t, reason),
                forall|j: int| i <= j < s.len() ==> self.regions_view()[j] == #[trigger] s[j],
                deleteable@.map_values(|r: Region| r@) == evict_deleteables(s.take(i as int), t),
                self.hist_view() == h0 + evict_hist_added(s.take(i as int), t),
                self.written_view() == old(self).written_view(),
                self.spec_regions_in_gc() == old(self).spec_regions_in_gc(),
                forall|j: int| 0 <= j < self.hist_view().len() ==> crate::region::snap_seq_wf(
                    (#[trigger] self.hist_view()[j]).snapshots) && self.hist_view()[
                j].snapshots.len() > 0,
            decreases s.len() - i,
        {
            let ghost dels = deleteable@.map_values(|r: Region| r@);
            let ghost cur = self.regions_view();
            let ghost hcur = self.hist_view();
            proof {
                assert(s.take(i as int + 1) =~= s.take(i as int).push(s[i as int]));
                lemma_evict_deleteables_push(s.take(i as int), s[i as int], t);
                lemma_evict_hist_added_push(s.take(i as int), s[i as int], t);
                assert(cur[i as int] == s[i as int]);
                assert(self.regions@[i as int]@ == cur[i as int]);
            }
            let meta_ref = &self.regions[i];
            let touches = meta_ref.region.id == region.id || (crate::keys::bytes_cmp_lt(
                &meta_ref.region.start, &region.end) && crate::keys::bytes_cmp_lt(&region.start,
                &meta_ref.region.end));
            let evictable = matches!(meta_ref.state, RegionState::Pending)
                || matches!(meta_ref.state, RegionState::ReadyToLoad)
                || matches!(meta_ref.state, RegionState::Loading)
                || matches!(meta_ref.state, RegionState::Active);
            proof {
                assert(touches == evict_touches(s[i as int], t));
                assert(evictable == evictable_state(s[i as int].state));
            }
            if touches && evictable {
                let meta = self.regions.remove(i);
                proof {
                    assert(meta@ == s[i as int]);
                }
                let RegionMeta { region: mregion, state, safe_point, in_gc, evict_reason: _,
                    snapshots } = meta;
                if matches!(state, RegionState::Loading) {
                    let new_meta = RegionMeta {
                        region: mregion,
                        state: RegionState::LoadingCanceled,
                        safe_point,
                        in_gc,
                        evict_reason: Some(reason),
                        snapshots,
                    };
                    let ghost mv = new_meta@;
                    self.regions.insert(i, new_meta);
                    proof {
                        assert(self.regions_view() =~= cur.update(i as int, mv));
                        assert(mv == spec_evict_meta(s[i as int], t, reason));
                        assert(self.hist_view() =~= hcur);
                        assert(deleteable@.map_values(|r: Region| r@) =~= evict_deleteables(
                            s.take(i as int + 1), t));
                        assert(self.written_view() =~= old(self).written_view());
                    }
                } else {
                    deleteable.push(mregion.clone_region());
                    proof {
                        assert(deleteable@.map_values(|r: Region| r@) =~= dels.push(
                            s[i as int].region));
                    }
                    if !snapshots.is_empty() {
                        let ghost snaps_v = snapshots@;
                        self.historical.push(HistRecord {
                            region: mregion.clone_region(),
                            snapshots,
                        });
                        let new_meta = RegionMeta {
                            region: mregion,
                            state: RegionState::Evicting,
                            safe_point,
                            in_gc,
                            evict_reason: Some(reason),
                            snapshots: SnapshotList::new(),
                        };
                        let ghost mv = new_meta@;
                        self.regions.insert(i, new_meta);
                        proof {
                            assert(self.regions_view() =~= cur.update(i as int, mv));
                            assert(mv.snapshots =~= Seq::<(u64, u64)>::empty());
                            assert(mv == spec_evict_meta(s[i as int], t, reason));
                            assert(self.hist_view() =~= hcur.push(HistView {
                                region: s[i as int].region,
                                snapshots: s[i as int].snapshots,
                            }));
                            assert(h0 + evict_hist_added(s.take(i as int + 1), t) =~= (h0
                                + evict_hist_added(s.take(i as int), t)).push(HistView {
                                region: s[i as int].region,
                                snapshots: s[i as int].snapshots,
                            }));
                            assert forall|j: int| 0 <= j < self.hist_view().len() implies
                                crate::region::snap_seq_wf(
                                (#[trigger] self.hist_view()[j]).snapshots) && self.hist_view()[
                            j].snapshots.len() > 0 by {
                                if j < hcur.len() {
                                    assert(self.hist_view()[j] == hcur[j]);
                                } else {
                                    assert(self.hist_view()[j].snapshots == s[i as int].snapshots);
                                }
                            }
                            assert(self.written_view() =~= old(self).written_view());
                        }
                    } else {
                        let new_meta = RegionMeta {
                            region: mregion,
                            state: RegionState::Evicting,
                            safe_point,
                            in_gc,
                            evict_reason: Some(reason),
                            snapshots,
                        };
                        let ghost mv = new_meta@;
                        self.regions.insert(i, new_meta);
                        proof {
                            assert(self.regions_view() =~= cur.update(i as int, mv));
                            assert(s[i as int].snapshots.len() == 0);
                            assert(mv.snapshots =~= Seq::<(u64, u64)>::empty());
                            assert(s[i as int].snapshots =~= Seq::<(u64, u64)>::empty());
                            assert(mv == spec_evict_meta(s[i as int], t, reason));
                            assert(self.hist_view() =~= hcur);
                            assert(self.written_view() =~= old(self).written_view());
                        }
                    }
                }
            } else {
                proof {
                    assert(deleteable@.map_values(|r: Region| r@) =~= evict_deleteables(
                        s.take(i as int + 1), t));
                    assert(self.hist_view() =~= h0 + evict_hist_added(s.take(i as int + 1), t));
                    assert(spec_evict_meta(s[i as int], t, reason) == s[i as int]);
                }
            }
            i = i + 1;
        }
        proof {
            assert(s.take(i as int) =~= s);
            let u = self.regions_view();
            assert forall|a: int, b: int| 0 <= a < b < u.len() implies (
            #[trigger] u[a]).region.id != (#[trigger] u[b]).region.id && !ranges_overlap(
                u[a].region, u[b].region) by {
                assert(u[a].region == s[a].region && u[b].region == s[b].region);
            }
            assert forall|a: int| 0 <= a < u.len() implies ((#[trigger] u[a]).in_gc ==> (
            u[a].state == RegionState::Active || u[a].state == RegionState::Evicting)) && (
            u[a].snapshots.len() > 0 ==> u[a].state == RegionState::Active)
                && crate::region::snap_seq_wf(u[a].snapshots) by {
                assert(u[a] == spec_evict_meta(s[a], t, reason));
                assert(s[a].in_gc ==> (s[a].state == RegionState::Active || s[a].state
                    == RegionState::Evicting));
                assert(s[a].snapshots.len() > 0 ==> s[a].state == RegionState::Active);
                assert(crate::region::snap_seq_wf(s[a].snapshots));
            }
            assert(u =~= evict_all(s, t, reason));
        }
        deleteable
    }
}


/// Whether the caller's region still names the same epoch as the cached
/// meta with its id: then only that meta is affected; otherwise every
/// overlapping meta is (the region was split or merged while loading).
pub open spec fn single_mode(s: Seq<MetaView>, t: RegionView) -> bool {
    has_id(s, t.id) && s[id_index(s, t.id)].region.epoch_version == t.epoch_version
}

/// Whether a load completion touches meta `m`.
pub open spec fn load_hit(m: MetaView, t: RegionView, single: bool) -> bool {
    if single {
        m.region.id == t.id
    } else {
        ranges_overlap(m.region, t)
    }
}

/// One meta when its load finishes: a still-loading region becomes Active
/// at the new safe point; a canceled one moves on to Evicting.
pub open spec fn spec_finish_meta(m: MetaView, safe_point: u64) -> MetaView
    recommends
        m.state == RegionState::Loading || m.state == RegionState::LoadingCanceled,
{
    if m.state == RegionState::Loading {
        MetaView { state: RegionState::Active, safe_point, ..m }
    } else {
        MetaView {
            state: RegionState::Evicting,
            evict_reason: Some(EvictReason::LoadFailed),
            ..m
        }
    }
}

/// One meta when its load fails.
pub open spec fn spec_fail_meta(m: MetaView, started: bool) -> MetaView {
    MetaView {
        state: RegionState::Evicting,
        evict_reason: Some(if started {
            EvictReason::LoadFailed
        } else {
            EvictReason::LoadFailedWithoutStart
        }),
        ..m
    }
}

/// The touched regions that a load completion sends to deletion: those
/// whose load had been canceled.
pub open spec fn finish_removed(s: Seq<MetaView>, t: RegionView, single: bool) -> Seq<RegionView>
    decreases s.len(),
{
    if s.len() == 0 {
        Seq::empty()
    } else {
        let rest = finish_removed(s.skip(1), t, single);
        if load_hit(s[0], t, single) && s[0].state == RegionState::LoadingCanceled {
            seq![s[0].region] + rest
        } else {
            rest
        }
    }
}

/// All touched regions: a failed load sends every one of them to deletion.
pub open spec fn fail_removed(s: Seq<MetaView>, t: RegionView, single: bool) -> Seq<RegionView>
    decreases s.len(),
{
    if s.len() == 0 {
        Seq::empty()
    } else {
        let rest = fail_removed(s.skip(1), t, single);
        if load_hit(s[0], t, single) {
            seq![s[0].region] + rest
        } else {
            rest
        }
    }
}

proof fn lemma_finish_removed_push(s: Seq<MetaView>, e: MetaView, t: RegionView, single: bool)
    ensures
        finish_removed(s.push(e), t, single) == if load_hit(e, t, single) && e.state
            == RegionState::LoadingCanceled {
            finish_removed(s, t, single).push(e.region)
        } else {
            finish_removed(s, t, single)
        },
    decreases s.len(),
{
    if s.len() == 0 {
        assert(s.push(e)[0] == e);
        assert(s.push(e).skip(1) =~= Seq::<MetaView>::empty());
        assert(finish_removed(s.push(e).skip(1), t, single) == Seq::<RegionView>::empty());
        assert(finish_removed(s, t, single) == Seq::<RegionView>::empty());
        if load_hit(e, t, single) && e.state == RegionState::LoadingCanceled {
            assert(seq![e.region] + Seq::<RegionView>::empty() =~= Seq::<
                RegionView,
            >::empty().push(e.region));
        }
    } else {
        assert(s.push(e)[0] == s[0]);
        assert(s.push(e).skip(1) =~= s.skip(1).push(e));
        lemma_finish_removed_push(s.skip(1), e, t, single);
        if load_hit(s[0], t, single) && s[0].state == RegionState::LoadingCanceled {
            if load_hit(e, t, single) && e.state == RegionState::LoadingCanceled {
                assert(seq![s[0].region] + finish_removed(s.skip(1), t, single).push(e.region)
                    =~= (seq![s[0].region] + finish_removed(s.skip(1), t, single)).push(
                    e.region));
            }
        }
    }
}

proof fn lemma_fail_removed_push(s: Seq<MetaView>, e: MetaView, t: RegionView, single: bool)
    ensures
        fail_removed(s.push(e), t, single) == if load_hit(e, t, single) {
            fail_removed(s, t, single).push(e.region)
        } else {
            fail_removed(s, t, single)
        },
    decreases s.len(),
{
    if s.len() == 0 {
        assert(s.push(e)[0] == e);
        assert(s.push(e).skip(1) =~= Seq::<MetaView>::empty());
        assert(fail_removed(s.push(e).skip(1), t, single) == Seq::<RegionView>::empty());
        assert(fail_removed(s, t, single) == Seq::<RegionView>::empty());
        if load_hit(e, t, single) {
            assert(seq![e.region] + Seq::<RegionView>::empty() =~= Seq::<
                RegionView,
            >::empty().push(e.region));
        }
    } else {
        assert(s.push(e)[0] == s[0]);
        assert(s.push(e).skip(1) =~= s.skip(1).push(e));
        lemma_fail_removed_push(s.skip(1), e, t, single);
        if load_hit(s[0], t, single) {
            if load_hit(e, t, single) {
                assert(seq![s[0].region] + fail_removed(s.skip(1), t, single).push(e.region)
                    =~= (seq![s[0].region] + fail_removed(s.skip(1), t, single)).push(e.region));
            }
        }
    }
}

/// The Active regions, in scan order.
pub open spec fn actives_of(s: Seq<MetaView>) -> Seq<RegionView>
    decreases s.len(),
{
    if s.len() == 0 {
        Seq::empty()
    } else {
        let rest = actives_of(s.skip(1));
        if s[0].state == RegionState::Active {
            seq![s[0].region] + rest
        } else {
            rest
        }
    }
}

proof fn lemma_actives_of_push(s: Seq<MetaView>, e: MetaView)
    ensures
        actives_of(s.push(e)) == if e.state == RegionState::Active {
            actives_of(s).push(e.region)
        } else {
            actives_of(s)
        },
    decreases s.len(),
{
    if s.len() == 0 {
        assert(s.push(e)[0] == e);
        assert(s.push(e).skip(1) =~= Seq::<MetaView>::empty());
        assert(actives_of(s.push(e).skip(1)) == Seq::<RegionView>::empty());
        assert(actives_of(s) == Seq::<RegionView>::empty());
        if e.state == RegionState::Active {
            assert(seq![e.region] + Seq::<RegionView>::empty() =~= Seq::<
                RegionView,
            >::empty().push(e.region));
        }
    } else {
        assert(s.push(e)[0] == s[0]);
        assert(s.push(e).skip(1) =~= s.skip(1).push(e));
        lemma_actives_of_push(s.skip(1), e);
        if s[0].state == RegionState::Active {
            if e.state == RegionState::Active {
                assert(seq![s[0].region] + actives_of(s.skip(1)).push(e.region) =~= (seq![
                    s[0].region] + actives_of(s.skip(1))).push(e.region));
            }
        }
    }
}

/// Whether the listed regions carry this id.
pub open spec fn ids_contain(l: Seq<RegionView>, id: u64) -> bool {
    exists|k: int| 0 <= k < l.len() && (#[trigger] l[k]).id == id
}

/// The metas that survive a deletion list.
pub open spec fn metas_not_listed(s: Seq<MetaView>, l: Seq<RegionView>) -> Seq<MetaView>
    decreases s.len(),
{
    if s.len() == 0 {
        Seq::empty()
    } else {
        let rest = metas_not_listed(s.skip(1), l);
        if ids_contain(l, s[0].region.id) {
            rest
        } else {
            seq![s[0]] + rest
        }
    }
}

proof fn lemma_metas_not_listed_contains(s: Seq<MetaView>, l: Seq<RegionView>)
    ensures
        forall|x: MetaView| metas_not_listed(s, l).contains(x) ==> s.contains(x),
    decreases s.len(),
{
    if s.len() > 0 {
        lemma_metas_not_listed_contains(s.skip(1), l);
        assert forall|x: MetaView| metas_not_listed(s, l).contains(x) implies s.contains(x) by {
            let r = metas_not_listed(s, l);
            if ids_contain(l, s[0].region.id) {
                assert(metas_not_listed(s.skip(1), l).contains(x));
                assert(s.skip(1).contains(x));
                let j = choose|j: int|
                    0 <= j < s.skip(1).len() && s.skip(1)[j] == x;
                assert(s[j + 1] == x);
            } else {
                let i = choose|i: int| 0 <= i < r.len() && r[i] == x;
                if i == 0 {
                    assert(s[0int] == x);
                } else {
                    assert(metas_not_listed(s.skip(1), l).contains(x)) by {
                        assert(r[i] == metas_not_listed(s.skip(1), l)[i - 1]);
                    }
                    assert(s.skip(1).contains(x));
                    let j = choose|j: int|
                        0 <= j < s.skip(1).len() && s.skip(1)[j] == x;
                    assert(s[j + 1] == x);
                }
            }
        }
    }
}

proof fn lemma_metas_not_listed_pair(s: Seq<MetaView>, l: Seq<RegionView>, a: int, b: int)
    requires
        forall|i: int, j: int| 0 <= i < j < s.len() ==> (#[trigger] s[i]).region.id != (
        #[trigger] s[j]).region.id,
        forall|i: int, j: int| 0 <= i < j < s.len() ==> !ranges_overlap(
            (#[trigger] s[i]).region, (#[trigger] s[j]).region),
        0 <= a < b < metas_not_listed(s, l).len(),
    ensures
        metas_not_listed(s, l)[a].region.id != metas_not_listed(s, l)[b].region.id,
        !ranges_overlap(metas_not_listed(s, l)[a].region, metas_not_listed(s, l)[b].region),
    decreases s.len(),
{
    if s.len() > 0 {
        assert(forall|j: int| 1 <= j < s.len() ==> s[j] == #[trigger] s.skip(1)[j - 1]);
        if ids_contain(l, s[0].region.id) {
            lemma_metas_not_listed_pair(s.skip(1), l, a, b);
        } else {
            let r = metas_not_listed(s, l);
            let r1 = metas_not_listed(s.skip(1), l);
            assert(r == seq![s[0]] + r1);
            if a == 0 {
                assert(r[b] == r1[b - 1]);
                lemma_metas_not_listed_contains(s.skip(1), l);
                assert(r1.contains(r1[b - 1]));
                assert(s.skip(1).contains(r1[b - 1]));
                let j = choose|j: int| 0 <= j < s.skip(1).len() && s.skip(1)[j] == r1[b - 1];
                assert(s[j + 1] == r1[b - 1]);
            } else {
                assert(r[a] == r1[a - 1] && r[b] == r1[b - 1]);
                lemma_metas_not_listed_pair(s.skip(1), l, a - 1, b - 1);
            }
        }
    }
}


impl RegionManager {
    /// Whether the cached meta with this region's id still carries its
    /// epoch version.
    fn epoch_matches(&self, region: &Region) -> (r: bool)
        ensures
            r == single_mode(self.regions_view(), region@),
    {
        let ghost sv = self.regions_view();
        let mut i: usize = 0;
        while i < self.regions.len()
            invariant
                i <= sv.len(),
                sv == self.regions@.map_values(|m: RegionMeta| m@),
                sv.len() == self.regions@.len(),
                forall|j: int| 0 <= j < i ==> (#[trigger] sv[j]).region.id != region@.id,
            decreases sv.len() - i,
        {
            if self.regions[i].region.id == region.id {
                proof {
                    lemma_id_index_from_props(sv, region@.id, i as int);
                }
                return self.regions[i].region.epoch_version == region.epoch_version;
            }
            i = i + 1;
        }
        proof {
            lemma_id_index_from_props(sv, region@.id, sv.len() as int);
        }
        false
    }

    /// Finishes a load: when the caller's epoch still matches, only its own
    /// meta completes; after a split or merge, every overlapping meta does.
    /// A still-loading region becomes Active at the given safe point; one
    /// whose load was canceled moves to Evicting, and is returned so that
    /// its data can be deleted.
    pub fn on_snapshot_load_finished(&mut self, region: &Region, safe_point: u64) -> (removed:
        Vec<Region>)
        requires
            old(self).wf(),
            forall|i: int|
                0 <= i < old(self).regions_view().len() && load_hit(
                    #[trigger] old(self).regions_view()[i], region@, single_mode(
                    old(self).regions_view(), region@)) ==> (old(self).regions_view()[i].state
                    == RegionState::Loading || old(self).regions_view()[i].state
                    == RegionState::LoadingCanceled),
            !single_mode(old(self).regions_view(), region@) ==> forall|i: int|
                0 <= i < old(self).regions_view().len() && load_hit(
                    #[trigger] old(self).regions_view()[i], region@, false) ==> range_contains(
                    region@, old(self).regions_view()[i].region),
        ensures
            final(self).wf(),
            final(self).hist_view() == old(self).hist_view(),
            final(self).written_view() == old(self).written_view(),
            final(self).spec_regions_in_gc() == old(self).spec_regions_in_gc(),
            final(self).regions_view().len() == old(self).regions_view().len(),
            forall|i: int| 0 <= i < old(self).regions_view().len() ==> final(
                self).regions_view()[i] == if load_hit(#[trigger] old(self).regions_view()[i],
                region@, single_mode(old(self).regions_view(), region@)) {
                spec_finish_meta(old(self).regions_view()[i], safe_point)
            } else {
                old(self).regions_view()[i]
            },
            removed@.map_values(|r: Region| r@) == finish_removed(old(self).regions_view(),
                region@, single_mode(old(self).regions_view(), region@)),
    {
        let ghost sv = self.regions_view();
        let ghost t = region@;
        let single = self.epoch_matches(region);
        let ghost sm = single_mode(sv, t);
        let mut removed: Vec<Region> = Vec::new();
        let mut i: usize = 0;
        proof {
            assert(sv.take(0) =~= Seq::<MetaView>::empty());
        }
        while i < self.regions.len()
            invariant
                i <= sv.len(),
                sv.len() == self.regions@.len(),
                self.regions_view().len() == sv.len(),
                single == sm,
                forall|j: int| 0 <= j < i ==> self.regions_view()[j] == if load_hit(
                    #[trigger] sv[j], t, sm) {
                    spec_finish_meta(sv[j], safe_point)
                } else {
                    sv[j]
                },
                forall|j: int| i <= j < sv.len() ==> self.regions_view()[j] == #[trigger] sv[j],
                removed@.map_values(|r: Region| r@) == finish_removed(sv.take(i as int), t, sm),
                self.hist_view() == old(self).hist_view(),
                self.written_view() == old(self).written_view(),
                self.spec_regions_in_gc() == old(self).spec_regions_in_gc(),
            decreases sv.len() - i,
        {
            let ghost rems = removed@.map_values(|r: Region| r@);
            let ghost cur = self.regions_view();
            proof {
                assert(sv.take(i as int + 1) =~= sv.take(i as int).push(sv[i as int]));
                lemma_finish_removed_push(sv.take(i as int), sv[i as int], t, sm);
                assert(cur[i as int] == sv[i as int]);
                assert(self.regions@[i as int]@ == cur[i as int]);
            }
            let meta_ref = &self.regions[i];
            let hit = if single {
                meta_ref.region.id == region.id
            } else {
                crate::keys::bytes_cmp_lt(&meta_ref.region.start, &region.end)
                    && crate::keys::bytes_cmp_lt(&region.start, &meta_ref.region.end)
            };
            proof {
                assert(hit == load_hit(sv[i as int], t, sm));
            }
            if hit {
                let mut meta = self.regions.remove(i);
                proof {
                    assert(meta@ == sv[i as int]);
                }
                if matches!(meta.state, RegionState::Loading) {
                    meta.state = RegionState::Active;
                    meta.safe_point = safe_point;
                } else {
                    meta.state = RegionState::Evicting;
                    meta.evict_reason = Some(EvictReason::LoadFailed);
                    removed.push(meta.region.clone_region());
                    proof {
                        assert(removed@.map_values(|r: Region| r@) =~= rems.push(
                            sv[i as int].region));
                    }
                }
                let ghost mv = meta@;
                self.regions.insert(i, meta);
                proof {
                    assert(self.regions_view() =~= cur.update(i as int, mv));
                    assert(mv == spec_finish_meta(sv[i as int], safe_point));
                    assert(self.hist_view() =~= old(self).hist_view());
                    assert(self.written_view() =~= old(self).written_view());
                    assert(removed@.map_values(|r: Region| r@) =~= finish_removed(
                        sv.take(i as int + 1), t, sm));
                }
            } else {
                proof {
                    assert(removed@.map_values(|r: Region| r@) =~= finish_removed(
                        sv.take(i as int + 1), t, sm));
                }
            }
            i = i + 1;
        }
        proof {
            assert(sv.take(i as int) =~= sv);
            let u = self.regions_view();
            assert forall|a: int, b: int| 0 <= a < b < u.len() implies (
            #[trigger] u[a]).region.id != (#[trigger] u[b]).region.id && !ranges_overlap(
                u[a].region, u[b].region) by {
                assert(u[a].region == sv[a].region && u[b].region == sv[b].region);
            }
            assert forall|a: int| 0 <= a < u.len() implies ((#[trigger] u[a]).in_gc ==> (
            u[a].state == RegionState::Active || u[a].state == RegionState::Evicting)) && (
            u[a].snapshots.len() > 0 ==> u[a].state == RegionState::Active)
                && crate::region::snap_seq_wf(u[a].snapshots) by {
                assert(sv[a].in_gc ==> (sv[a].state == RegionState::Active || sv[a].state
                    == RegionState::Evicting));
                assert(sv[a].snapshots.len() > 0 ==> sv[a].state == RegionState::Active);
                assert(crate::region::snap_seq_wf(sv[a].snapshots));
                if load_hit(sv[a], t, sm) {
                    assert(u[a] == spec_finish_meta(sv[a], safe_point));
                    assert(sv[a].state == RegionState::Loading || sv[a].state
                        == RegionState::LoadingCanceled);
                }
            }
        }
        removed
    }

    /// Fails a load: every touched meta moves to Evicting, with the reason
    /// recording whether any data had been inserted, and is returned so
    /// that its data can be deleted.
    pub fn on_snapshot_load_failed(&mut self, region: &Region, started: bool) -> (removed: Vec<
        Region,
    >)
        requires
            old(self).wf(),
            forall|i: int|
                0 <= i < old(self).regions_view().len() && load_hit(
                    #[trigger] old(self).regions_view()[i], region@, single_mode(
                    old(self).regions_view(), region@)) ==> (old(self).regions_view()[i].state
                    == RegionState::Loading || old(self).regions_view()[i].state
                    == RegionState::LoadingCanceled),
            !single_mode(old(self).regions_view(), region@) ==> forall|i: int|
                0 <= i < old(self).regions_view().len() && load_hit(
                    #[trigger] old(self).regions_view()[i], region@, false) ==> range_contains(
                    region@, old(self).regions_view()[i].region),
        ensures
            final(self).wf(),
            final(self).hist_view() == old(self).hist_view(),
            final(self).written_view() == old(self).written_view(),
            final(self).spec_regions_in_gc() == old(self).spec_regions_in_gc(),
            final(self).regions_view().len() == old(self).regions_view().len(),
            forall|i: int| 0 <= i < old(self).regions_view().len() ==> final(
                self).regions_view()[i] == if load_hit(#[trigger] old(self).regions_view()[i],
                region@, single_mode(old(self).regions_view(), region@)) {
                spec_fail_meta(old(self).regions_view()[i], started)
            } else {
                old(self).regions_view()[i]
            },
            removed@.map_values(|r: Region| r@) == fail_removed(old(self).regions_view(),
                region@, single_mode(old(self).regions_view(), region@)),
    {
        let ghost sv = self.regions_view();
        let ghost t = region@;
        let single = self.epoch_matches(region);
        let ghost sm = single_mode(sv, t);
        let mut removed: Vec<Region> = Vec::new();
        let mut i: usize = 0;
        proof {
            assert(sv.take(0) =~= Seq::<MetaView>::empty());
        }
        while i < self.regions.len()
            invariant
                i <= sv.len(),
                sv.len() == self.regions@.len(),
                self.regions_view().len() == sv.len(),
                single == sm,
                forall|j: int| 0 <= j < i ==> self.regions_view()[j] == if load_hit(
                    #[trigger] sv[j], t, sm) {
                    spec_fail_meta(sv[j], started)
                } else {
                    sv[j]
                },
                forall|j: int| i <= j < sv.len() ==> self.regions_view()[j] == #[trigger] sv[j],
                removed@.map_values(|r: Region| r@) == fail_removed(sv.take(i as int), t, sm),
                self.hist_view() == old(self).hist_view(),
                self.written_view() == old(self).written_view(),
                self.spec_regions_in_gc() == old(self).spec_regions_in_gc(),
            decreases sv.len() - i,
        {
            let ghost rems = removed@.map_values(|r: Region| r@);
            let ghost cur = self.regions_view();
            proof {
                assert(sv.take(i as int + 1) =~= sv.take(i as int).push(sv[i as int]));
                lemma_fail_removed_push(sv.take(i as int), sv[i as int], t, sm);
                assert(cur[i as int] == sv[i as int]);
                assert(self.regions@[i as int]@ == cur[i as int]);
            }
            let meta_ref = &self.regions[i];
            let hit = if single {
                meta_ref.region.id == region.id
            } else {
                crate::keys::bytes_cmp_lt(&meta_ref.region.start, &region.end)
                    && crate::keys::bytes_cmp_lt(&region.start, &meta_ref.region.end)
            };
            proof {
                assert(hit == load_hit(sv[i as int], t, sm));
            }
            if hit {
                let mut meta = self.regions.remove(i);
                proof {
                    assert(meta@ == sv[i as int]);
                }
                meta.state = RegionState::Evicting;
                meta.evict_reason = Some(if started {
                    EvictReason::LoadFailed
                } else {
                    EvictReason::LoadFailedWithoutStart
                });
                removed.push(meta.region.clone_region());
                proof {
                    assert(removed@.map_values(|r: Region| r@) =~= rems.push(
                        sv[i as int].region));
                }
                let ghost mv = meta@;
                self.regions.insert(i, meta);
                proof {
                    assert(self.regions_view() =~= cur.update(i as int, mv));
                    assert(mv == spec_fail_meta(sv[i as int], started));
                    assert(self.hist_view() =~= old(self).hist_view());
                    assert(self.written_view() =~= old(self).written_view());
                    assert(removed@.map_values(|r: Region| r@) =~= fail_removed(
                        sv.take(i as int + 1), t, sm));
                }
            } else {
                proof {
                    assert(removed@.map_values(|r: Region| r@) =~= fail_removed(
                        sv.take(i as int + 1), t, sm));
                }
            }
            i = i + 1;
        }
        proof {
            assert(sv.take(i as int) =~= sv);
            let u = self.regions_view();
            assert forall|a: int, b: int| 0 <= a < b < u.len() implies (
            #[trigger] u[a]).region.id != (#[trigger] u[b]).region.id && !ranges_overlap(
                u[a].region, u[b].region) by {
                assert(u[a].region == sv[a].region && u[b].region == sv[b].region);
            }
            assert forall|a: int| 0 <= a < u.len() implies ((#[trigger] u[a]).in_gc ==> (
            u[a].state == RegionState::Active || u[a].state == RegionState::Evicting)) && (
            u[a].snapshots.len() > 0 ==> u[a].state == RegionState::Active)
                && crate::region::snap_seq_wf(u[a].snapshots) by {
                assert(sv[a].in_gc ==> (sv[a].state == RegionState::Active || sv[a].state
                    == RegionState::Evicting));
                assert(sv[a].snapshots.len() > 0 ==> sv[a].state == RegionState::Active);
                assert(crate::region::snap_seq_wf(sv[a].snapshots));
                if load_hit(sv[a], t, sm) {
                    assert(u[a] == spec_fail_meta(sv[a], started));
                    assert(sv[a].state == RegionState::Loading || sv[a].state
                        == RegionState::LoadingCanceled);
                }
            }
        }
        removed
    }

    /// Forgets the listed regions after their data was physically erased.
    /// Every listed region must still be known, Evicting, and at the same
    /// epoch version.
    pub fn on_delete_regions(&mut self, list: &Vec<Region>)
        requires
            old(self).wf(),
            forall|k: int|
                0 <= k < list@.len() ==> has_id(old(self).regions_view(), (#[trigger] list@[
                k])@.id) && old(self).regions_view()[id_index(old(self).regions_view(),
                    list@[k]@.id)].state == RegionState::Evicting && old(self).regions_view()[
            id_index(old(self).regions_view(), list@[k]@.id)].region.epoch_version == list@[
            k]@.epoch_version,
        ensures
            final(self).wf(),
            final(self).hist_view() == old(self).hist_view(),
            final(self).written_view() == old(self).written_view(),
            final(self).spec_regions_in_gc() == old(self).spec_regions_in_gc(),
            final(self).regions_view() == metas_not_listed(old(self).regions_view(),
                list@.map_values(|r: Region| r@)),
    {
        let ghost sv = self.regions_view();
        let ghost l = list@.map_values(|r: Region| r@);
        let mut kept: Vec<RegionMeta> = Vec::new();
        let ghost consumed: int = 0;
        proof {
            assert(sv.take(0) =~= Seq::<MetaView>::empty());
        }
        while self.regions.len() > 0
            invariant
                0 <= consumed <= sv.len(),
                self.regions@.len() == sv.len() - consumed,
                forall|j: int| 0 <= j < sv.len() - consumed ==> self.regions_view()[j]
                    == #[trigger] sv[j + consumed],
                kept@.map_values(|m: RegionMeta| m@) == metas_not_listed(sv.take(consumed), l),
                self.hist_view() == old(self).hist_view(),
                self.written_view() == old(self).written_view(),
                self.spec_regions_in_gc() == old(self).spec_regions_in_gc(),
            decreases self.regions@.len(),
        {
            let ghost keeps = kept@.map_values(|m: RegionMeta| m@);
            let ghost cur = self.regions_view();
            proof {
                assert(sv.take(consumed + 1) =~= sv.take(consumed).push(sv[consumed]));
                lemma_metas_not_listed_snoc(sv.take(consumed), sv[consumed], l);
                assert(cur[0] == sv[0 + consumed]);
                assert(cur[0] == sv[consumed]);
                assert(self.regions@[0]@ == cur[0]);
            }
            let meta = self.regions.remove(0);
            proof {
                assert(meta@ == sv[consumed]);
                assert forall|j: int| 0 <= j < sv.len() - (consumed + 1) implies
                    self.regions_view()[j] == #[trigger] sv[j + (consumed + 1)] by {
                    assert(self.regions_view()[j] == cur[j + 1]);
                    assert(cur[j + 1] == sv[(j + 1) + consumed]);
                    assert((j + 1) + consumed == j + (consumed + 1));
                }
            }
            let mut listed = false;
            let mut k: usize = 0;
            while k < list.len()
                invariant
                    k <= list@.len(),
                    l == list@.map_values(|r: Region| r@),
                    l.len() == list@.len(),
                    listed ==> ids_contain(l, meta@.region.id),
                    !listed ==> forall|j: int| 0 <= j < k ==> (#[trigger] l[j]).id
                        != meta@.region.id,
                decreases list@.len() - k,
            {
                if list[k].id == meta.region.id {
                    proof {
                        assert(l[k as int].id == meta@.region.id);
                    }
                    listed = true;
                }
                k = k + 1;
            }
            if !listed {
                kept.push(meta);
                proof {
                    assert(!ids_contain(l, sv[consumed].region.id));
                    assert(kept@.map_values(|m: RegionMeta| m@) =~= keeps.push(sv[consumed]));
                }
            } else {
                proof {
                    assert(kept@.map_values(|m: RegionMeta| m@) =~= metas_not_listed(
                        sv.take(consumed + 1), l));
                }
            }
            proof {
                consumed = consumed + 1;
            }
        }
        self.regions = kept;
        proof {
            assert(sv.take(consumed) =~= sv);
            let u = self.regions_view();
            assert(u == metas_not_listed(sv, l));
            lemma_metas_not_listed_contains(sv, l);
            assert forall|a: int, b: int| 0 <= a < b < u.len() implies (
            #[trigger] u[a]).region.id != (#[trigger] u[b]).region.id && !ranges_overlap(
                u[a].region, u[b].region) by {
                lemma_metas_not_listed_pair(sv, l, a, b);
            }
            assert forall|a: int| 0 <= a < u.len() implies ((#[trigger] u[a]).in_gc ==> (
            u[a].state == RegionState::Active || u[a].state == RegionState::Evicting)) && (
            u[a].snapshots.len() > 0 ==> u[a].state == RegionState::Active)
                && crate::region::snap_seq_wf(u[a].snapshots) by {
                assert(u.contains(u[a]));
                assert(sv.contains(u[a]));
                let w = choose|w: int| 0 <= w < sv.len() && sv[w] == u[a];
                assert(sv[w].in_gc ==> (sv[w].state == RegionState::Active || sv[w].state
                    == RegionState::Evicting));
                assert(sv[w].snapshots.len() > 0 ==> sv[w].state == RegionState::Active);
                assert(crate::region::snap_seq_wf(sv[w].snapshots));
            }
        }
    }

    /// The regions currently serving reads, in scan order.
    pub fn active_regions(&self) -> (out: Vec<Region>)
        ensures
            out@.map_values(|r: Region| r@) == actives_of(self.regions_view()),
    {
        let ghost sv = self.regions_view();
        let mut out: Vec<Region> = Vec::new();
        let mut i: usize = 0;
        proof {
            assert(sv.take(0) =~= Seq::<MetaView>::empty());
        }
        while i < self.regions.len()
            invariant
                i <= sv.len(),
                sv == self.regions@.map_values(|m: RegionMeta| m@),
                sv.len() == self.regions@.len(),
                out@.map_values(|r: Region| r@) == actives_of(sv.take(i as int)),
            decreases sv.len() - i,
        {
            let ghost outs = out@.map_values(|r: Region| r@);
            proof {
                assert(sv.take(i as int + 1) =~= sv.take(i as int).push(sv[i as int]));
                lemma_actives_of_push(sv.take(i as int), sv[i as int]);
                assert(sv[i as int] == self.regions@[i as int]@);
            }
            if matches!(self.regions[i].state, RegionState::Active) {
                out.push(self.regions[i].region.clone_region());
                proof {
                    assert(out@.map_values(|r: Region| r@) =~= outs.push(sv[i as int].region));
                }
            }
            i = i + 1;
        }
        proof {
            assert(sv.take(i as int) =~= sv);
        }
        out
    }
}

proof fn lemma_metas_not_listed_snoc(s: Seq<MetaView>, e: MetaView, l: Seq<RegionView>)
    ensures
        metas_not_listed(s.push(e), l) == if ids_contain(l, e.region.id) {
            metas_not_listed(s, l)
        } else {
            metas_not_listed(s, l).push(e)
        },
    decreases s.len(),
{
    if s.len() == 0 {
        assert(s.push(e)[0] == e);
        assert(s.push(e).skip(1) =~= Seq::<MetaView>::empty());
        assert(metas_not_listed(s.push(e).skip(1), l) == Seq::<MetaView>::empty());
        assert(metas_not_listed(s, l) == Seq::<MetaView>::empty());
        if !ids_contain(l, e.region.id) {
            assert(seq![e] + Seq::<MetaView>::empty() =~= Seq::<MetaView>::empty().push(e));
        }
    } else {
        assert(s.push(e)[0] == s[0]);
        assert(s.push(e).skip(1) =~= s.skip(1).push(e));
        lemma_metas_not_listed_snoc(s.skip(1), e, l);
        if !ids_contain(l, s[0].region.id) {
            if !ids_contain(l, e.region.id) {
                assert(seq![s[0]] + metas_not_listed(s.skip(1), l).push(e) =~= (seq![s[0]]
                    + metas_not_listed(s.skip(1), l)).push(e));
            }
        }
    }
}


/// The first historical record of this region id holding timestamp `ts`,
/// or `h.len()` when none does.
pub open spec fn hist_snap_index(h: Seq<HistView>, id: u64, ts: u64) -> int
    decreases h.len(),
{
    if h.len() == 0 {
        0
    } else if h[0].region.id == id && crate::region::has_ts(h[0].snapshots, ts) {
        0
    } else {
        1 + hist_snap_index(h.skip(1), id, ts)
    }
}

proof fn lemma_hist_snap_index_from_props(h: Seq<HistView>, id: u64, ts: u64, i: int)
    requires
        0 <= i <= h.len(),
        forall|j: int|
            0 <= j < i ==> !((#[trigger] h[j]).region.id == id && crate::region::has_ts(
                h[j].snapshots, ts)),
        i < h.len() ==> (h[i].region.id == id && crate::region::has_ts(h[i].snapshots, ts)),
    ensures
        hist_snap_index(h, id, ts) == i,
    decreases h.len(),
{
    if h.len() > 0 && i > 0 {
        assert(!(h[0].region.id == id && crate::region::has_ts(h[0].snapshots, ts)));
        assert forall|j: int|
            0 <= j < i - 1 implies !((#[trigger] h.skip(1)[j]).region.id == id
            && crate::region::has_ts(h.skip(1)[j].snapshots, ts)) by {
            assert(h.skip(1)[j] == h[j + 1]);
        }
        if i - 1 < h.skip(1).len() {
            assert(h.skip(1)[i - 1] == h[i]);
        }
        lemma_hist_snap_index_from_props(h.skip(1), id, ts, i - 1);
    }
}

impl RegionManager {
    /// Closes one read snapshot at `read_ts`. The live region with this id
    /// gives a reference back first; otherwise the first historical record
    /// of this id holding the timestamp does, and a record whose last
    /// snapshot closes is dropped. Reports whether a reference was found.
    pub fn remove_snapshot(&mut self, region_id: u64, read_ts: u64) -> (r: bool)
        requires
            old(self).wf(),
        ensures
            final(self).wf(),
            final(self).written_view() == old(self).written_view(),
            final(self).spec_regions_in_gc() == old(self).spec_regions_in_gc(),
            ({
                let sv = old(self).regions_view();
                let p = id_index(sv, region_id);
                let h = old(self).hist_view();
                let q = hist_snap_index(h, region_id, read_ts);
                if has_id(sv, region_id) && crate::region::has_ts(sv[p].snapshots, read_ts) {
                    &&& r == true
                    &&& final(self).regions_view() == sv.update(p, MetaView {
                        snapshots: crate::region::spec_snap_remove(sv[p].snapshots, read_ts),
                        ..sv[p]
                    })
                    &&& final(self).hist_view() == h
                } else if q < h.len() {
                    &&& r == true
                    &&& final(self).regions_view() == sv
                    &&& final(self).hist_view() == if crate::region::spec_snap_remove(
                        h[q].snapshots, read_ts).len() == 0 {
                        h.remove(q)
                    } else {
                        h.update(q, HistView {
                            region: h[q].region,
                            snapshots: crate::region::spec_snap_remove(h[q].snapshots, read_ts),
                        })
                    }
                } else {
                    &&& r == false
                    &&& final(self).regions_view() == sv
                    &&& final(self).hist_view() == h
                }
            }),
    {
        let ghost sv = self.regions_view();
        let ghost h = self.hist_view();
        let mut i: usize = 0;
        while i < self.regions.len()
            invariant
                i <= sv.len(),
                *self == *old(self),
                sv == self.regions@.map_values(|m: RegionMeta| m@),
                sv.len() == self.regions@.len(),
                forall|j: int| 0 <= j < i ==> (#[trigger] sv[j]).region.id != region_id,
            decreases sv.len() - i,
        {
            if self.regions[i].region.id == region_id {
                proof {
                    lemma_id_index_from_props(sv, region_id, i as int);
                }
                let mut meta = self.regions.remove(i);
                proof {
                    assert(meta@ == sv[i as int]);
                }
                let had = meta.snapshots.remove(read_ts);
                if had {
                    let ghost mv = meta@;
                    self.regions.insert(i, meta);
                    proof {
                        assert(self.regions_view() =~= sv.update(i as int, mv));
                        assert(self.hist_view() =~= old(self).hist_view());
                        assert(self.written_view() =~= old(self).written_view());
                        let t = self.regions_view();
                        assert forall|a: int, b: int| 0 <= a < b < t.len() implies (
                        #[trigger] t[a]).region.id != (#[trigger] t[b]).region.id
                            && !ranges_overlap(t[a].region, t[b].region) by {
                            assert(sv[a].region == t[a].region && sv[b].region == t[b].region);
                        }
                        lemma_wf_views_helper(old(self), self);
                    }
                    return true;
                }
                let ghost mv = meta@;
                self.regions.insert(i, meta);
                proof {
                    assert(mv == sv[i as int]);
                    assert(self.regions_view() =~= sv);
                    assert(self.hist_view() =~= old(self).hist_view());
                    assert(self.written_view() =~= old(self).written_view());
                }
                return self.remove_snapshot_from_history(region_id, read_ts);
            }
            i = i + 1;
        }
        proof {
            lemma_id_index_from_props(sv, region_id, sv.len() as int);
        }
        self.remove_snapshot_from_history(region_id, read_ts)
    }

    /// The historical half of `remove_snapshot`.
    fn remove_snapshot_from_history(&mut self, region_id: u64, read_ts: u64) -> (r: bool)
        requires
            old(self).wf(),
        ensures
            final(self).wf(),
            final(self).regions_view() == old(self).regions_view(),
            final(self).written_view() == old(self).written_view(),
            final(self).spec_regions_in_gc() == old(self).spec_regions_in_gc(),
            ({
                let h = old(self).hist_view();
                let q = hist_snap_index(h, region_id, read_ts);
                if q < h.len() {
                    &&& r == true
                    &&& final(self).hist_view() == if crate::region::spec_snap_remove(
                        h[q].snapshots, read_ts).len() == 0 {
                        h.remove(q)
                    } else {
                        h.update(q, HistView {
                            region: h[q].region,
                            snapshots: crate::region::spec_snap_remove(h[q].snapshots, read_ts),
                        })
                    }
                } else {
                    &&& r == false
                    &&& final(self).hist_view() == h
                }
            }),
    {
        let ghost h = self.hist_view();
        let mut i: usize = 0;
        while i < self.historical.len()
            invariant
                i <= h.len(),
                self.regions_view() == old(self).regions_view(),
                self.written_view() == old(self).written_view(),
                self.spec_regions_in_gc() == old(self).spec_regions_in_gc(),
                self.wf(),
                h == self.historical@.map_values(|x: HistRecord| x@),
                h.len() == self.historical@.len(),
                forall|j: int|
                    0 <= j < i ==> !((#[trigger] h[j]).region.id == region_id
                        && crate::region::has_ts(h[j].snapshots, read_ts)),
            decreases h.len() - i,
        {
            let ghost hv_i = h[i as int];
            proof {
                assert(h[i as int] == self.historical@[i as int]@);
            }
            let id_hit = self.historical[i].region.id == region_id;
            let mut rec = self.historical.remove(i);
            proof {
                assert(rec@ == h[i as int]);
            }
            let had = if id_hit {
                rec.snapshots.remove(read_ts)
            } else {
                false
            };
            if had {
                proof {
                    lemma_hist_snap_index_from_props(h, region_id, read_ts, i as int);
                }
                if rec.snapshots.is_empty() {
                    proof {
                        assert(self.hist_view() =~= h.remove(i as int));
                        assert(self.regions_view() =~= old(self).regions_view());
                        assert(self.written_view() =~= old(self).written_view());
                        let u = self.hist_view();
                        assert forall|j: int| 0 <= j < u.len() implies
                            crate::region::snap_seq_wf((#[trigger] u[j]).snapshots) && u[
                        j].snapshots.len() > 0 by {
                            let j0 = if j < i { j } else { j + 1 };
                            assert(u[j] == h[j0]);
                        }
                    }
                    return true;
                }
                let ghost rv = rec@;
                self.historical.insert(i, rec);
                proof {
                    assert(self.hist_view() =~= h.update(i as int, rv));
                    assert(self.regions_view() =~= old(self).regions_view());
                    assert(self.written_view() =~= old(self).written_view());
                    let u = self.hist_view();
                    assert forall|j: int| 0 <= j < u.len() implies crate::region::snap_seq_wf(
                        (#[trigger] u[j]).snapshots) && u[j].snapshots.len() > 0 by {
                        if j != i {
                            assert(u[j] == h[j]);
                        }
                    }
                }
                return true;
            }
            let ghost rv = rec@;
            self.historical.insert(i, rec);
            proof {
                assert(rv == h[i as int]);
                assert(self.hist_view() =~= h);
                assert(self.regions_view() =~= old(self).regions_view());
                assert(self.written_view() =~= old(self).written_view());
                if id_hit {
                    assert(!crate::region::has_ts(h[i as int].snapshots, read_ts));
                }
            }
            i = i + 1;
        }
        proof {
            lemma_hist_snap_index_from_props(h, region_id, read_ts, h.len() as int);
        }
        false
    }
}


/// Two meta sequences with the same region ids position-for-position index
/// alike.
pub proof fn lemma_id_index_same_ids(s1: Seq<MetaView>, s2: Seq<MetaView>, id: u64)
    requires
        s1.len() == s2.len(),
        forall|j: int| 0 <= j < s1.len() ==> (#[trigger] s1[j]).region.id == (
        #[trigger] s2[j]).region.id,
    ensures
        id_index(s1, id) == id_index(s2, id),
    decreases s1.len(),
{
    if s1.len() > 0 {
        assert(s1[0].region.id == s2[0].region.id);
        if s1[0].region.id != id {
            assert forall|j: int| 0 <= j < s1.skip(1).len() implies (
            #[trigger] s1.skip(1)[j]).region.id == (#[trigger] s2.skip(1)[j]).region.id by {
                assert(s1.skip(1)[j] == s1[j + 1]);
                assert(s2.skip(1)[j] == s2[j + 1]);
            }
            lemma_id_index_same_ids(s1.skip(1), s2.skip(1), id);
        }
    }
}


impl RegionManager {
    /// Whether a GC round currently holds the guard.
    pub fn regions_in_gc_flag(&self) -> (r: bool)
        ensures
            r == self.spec_regions_in_gc(),
    {
        self.regions_in_gc
    }
}


/// Whether registering `r` conflicts with the cached set: its id is known
/// or its range overlaps a cached range.
pub open spec fn load_conflicts(s: Seq<MetaView>, r: RegionView) -> bool {
    exists|i: int|
        0 <= i < s.len() && ((#[trigger] s[i]).region.id == r.id || ranges_overlap(s[i].region,
            r))
}

/// The fresh Pending metadata of a newly registered region.
pub open spec fn pending_meta(r: RegionView) -> MetaView {
    MetaView {
        region: r,
        state: RegionState::Pending,
        safe_point: 0,
        in_gc: false,
        evict_reason: None,
        snapshots: Seq::empty(),
    }
}

/// The cached set after offering `r` to `load_region`.
pub open spec fn spec_load_region(s: Seq<MetaView>, r: RegionView) -> Seq<MetaView> {
    if load_conflicts(s, r) {
        s
    } else {
        s.push(pending_meta(r))
    }
}

/// The cached set after offering every region, in order.
pub open spec fn load_regions_fold(s: Seq<MetaView>, rs: Seq<RegionView>) -> Seq<MetaView>
    decreases rs.len(),
{
    if rs.len() == 0 {
        s
    } else {
        load_regions_fold(spec_load_region(s, rs[0]), rs.skip(1))
    }
}

/// A load completion removes nothing when no touched region was canceled.
pub proof fn lemma_finish_removed_empty(s: Seq<MetaView>, t: RegionView, single: bool)
    requires
        forall|i: int|
            0 <= i < s.len() && load_hit(#[trigger] s[i], t, single) ==> s[i].state
                != RegionState::LoadingCanceled,
    ensures
        finish_removed(s, t, single).len() == 0,
    decreases s.len(),
{
    if s.len() > 0 {
        assert forall|i: int|
            0 <= i < s.skip(1).len() && load_hit(#[trigger] s.skip(1)[i], t, single) implies
            s.skip(1)[i].state != RegionState::LoadingCanceled by {
            assert(s.skip(1)[i] == s[i + 1]);
        }
        lemma_finish_removed_empty(s.skip(1), t, single);
    }
}

impl RegionManager {
    /// The epoch version of the region with this id.
    pub fn region_epoch_version(&self, id: u64) -> (r: Option<u64>)
        ensures
            match r {
                Some(v) => has_id(self.regions_view(), id) && v == self.regions_view()[id_index(
                    self.regions_view(), id)].region.epoch_version,
                None => !has_id(self.regions_view(), id),
            },
    {
        let ghost s = self.regions_view();
        let mut i: usize = 0;
        while i < self.regions.len()
            invariant
                i <= s.len(),
                s == self.regions@.map_values(|m: RegionMeta| m@),
                s.len() == self.regions@.len(),
                forall|j: int| 0 <= j < i ==> (#[trigger] s[j]).region.id != id,
            decreases s.len() - i,
        {
            if self.regions[i].region.id == id {
                proof {
                    lemma_id_index_from_props(s, id, i as int);
                }
                return Some(self.regions[i].region.epoch_version);
            }
            i = i + 1;
        }
        proof {
            lemma_id_index_from_props(s, id, s.len() as int);
        }
        None
    }
}

} // verus!
