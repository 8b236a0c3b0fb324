//! The delete-range runner: physically erases evicted regions' data, and
//! defers any region that a GC pass still holds or that overlaps a range an
//! apply thread is writing.

use vstd::prelude::*;

use crate::column::{col_delete_range, KvView};
use crate::gc::BackgroundRunnerCore;
use crate::keys::lex_lt;
use crate::region::{Region, RegionState, RegionView};
use crate::region_manager::{has_id, id_index, metas_not_listed, MetaView};

verus! {

/// Whether deleting `r` must wait: a GC pass still holds the region, or its
/// range overlaps one being written.
pub open spec fn delete_deferred(s: Seq<MetaView>, w: Seq<(Seq<u8>, Seq<u8>)>, r: RegionView)
    -> bool {
    ||| (has_id(s, r.id) && s[id_index(s, r.id)].in_gc)
    ||| exists|i: int|
        0 <= i < w.len() && lex_lt((#[trigger] w[i]).0, r.end) && lex_lt(r.start, w[i].1)
}

/// The regions of `rs` that must wait, in order.
pub open spec fn deferred_of(s: Seq<MetaView>, w: Seq<(Seq<u8>, Seq<u8>)>, rs: Seq<RegionView>)
    -> Seq<RegionView>
    decreases rs.len(),
{
    if rs.len() == 0 {
        Seq::empty()
    } else {
        let rest = deferred_of(s, w, rs.skip(1));
        if delete_deferred(s, w, rs[0]) {
            seq![rs[0]] + rest
        } else {
            rest
        }
    }
}

/// The regions of `rs` whose data may be erased now, in order.
pub open spec fn deletable_of(s: Seq<MetaView>, w: Seq<(Seq<u8>, Seq<u8>)>, rs: Seq<RegionView>)
    -> Seq<RegionView>
    decreases rs.len(),
{
    if rs.len() == 0 {
        Seq::empty()
    } else {
        let rest = deletable_of(s, w, rs.skip(1));
        if delete_deferred(s, w, rs[0]) {
            rest
        } else {
            seq![rs[0]] + rest
        }
    }
}

proof fn lemma_deferred_split_push(s: Seq<MetaView>, w: Seq<(Seq<u8>, Seq<u8>)>, rs: Seq<
    RegionView,
>, e: RegionView)
    ensures
        deferred_of(s, w, rs.push(e)) == if delete_deferred(s, w, e) {
            deferred_of(s, w, rs).push(e)
        } else {
            deferred_of(s, w, rs)
        },
        deletable_of(s, w, rs.push(e)) == if delete_deferred(s, w, e) {
            deletable_of(s, w, rs)
        } else {
            deletable_of(s, w, rs).push(e)
        },
    decreases rs.len(),
{
    if rs.len() == 0 {
        assert(rs.push(e)[0] == e);
        assert(rs.push(e).skip(1) =~= Seq::<RegionView>::empty());
        assert(deferred_of(s, w, rs.push(e).skip(1)) == Seq::<RegionView>::empty());
        assert(deferred_of(s, w, rs) == Seq::<RegionView>::empty());
        assert(deletable_of(s, w, rs.push(e).skip(1)) == Seq::<RegionView>::empty());
        assert(deletable_of(s, w, rs) == Seq::<RegionView>::empty());
        if delete_deferred(s, w, e) {
            assert(seq![e] + Seq::<RegionView>::empty() =~= Seq::<RegionView>::empty().push(e));
        } else {
            assert(seq![e] + Seq::<RegionView>::empty() =~= Seq::<RegionView>::empty().push(e));
        }
    } else {
        assert(rs.push(e)[0] == rs[0]);
        assert(rs.push(e).skip(1) =~= rs.skip(1).push(e));
        lemma_deferred_split_push(s, w, rs.skip(1), e);
        if delete_deferred(s, w, rs[0]) {
            if delete_deferred(s, w, e) {
                assert(seq![rs[0]] + deferred_of(s, w, rs.skip(1)).push(e) =~= (seq![rs[0]]
                    + deferred_of(s, w, rs.skip(1))).push(e));
            }
        } else {
            if !delete_deferred(s, w, e) {
                assert(seq![rs[0]] + deletable_of(s, w, rs.skip(1)).push(e) =~= (seq![rs[0]]
                    + deletable_of(s, w, rs.skip(1))).push(e));
            }
        }
    }
}

/// The columns after erasing each region's range in order.
pub open spec fn cols_after_deletes(d: Seq<KvView>, wcol: Seq<KvView>, l: Seq<KvView>, rs: Seq<
    RegionView,
>) -> (Seq<KvView>, Seq<KvView>, Seq<KvView>)
    decreases rs.len(),
{
    if rs.len() == 0 {
        (d, wcol, l)
    } else {
        cols_after_deletes(col_delete_range(d, rs[0].start, rs[0].end), col_delete_range(wcol,
            rs[0].start, rs[0].end), col_delete_range(l, rs[0].start, rs[0].end), rs.skip(1))
    }
}

proof fn lemma_cols_after_deletes_push(d: Seq<KvView>, wcol: Seq<KvView>, l: Seq<KvView>,
    rs: Seq<RegionView>, e: RegionView)
    ensures
        cols_after_deletes(d, wcol, l, rs.push(e)) == ({
            let mid = cols_after_deletes(d, wcol, l, rs);
            (col_delete_range(mid.0, e.start, e.end), col_delete_range(mid.1, e.start, e.end),
            col_delete_range(mid.2, e.start, e.end))
        }),
    decreases rs.len(),
{
    if rs.len() == 0 {
        assert(rs.push(e)[0] == e);
        assert(rs.push(e).skip(1) =~= Seq::<RegionView>::empty());
        assert(cols_after_deletes(col_delete_range(d, e.start, e.end), col_delete_range(wcol,
            e.start, e.end), col_delete_range(l, e.start, e.end), rs.push(e).skip(1)) == (
        col_delete_range(d, e.start, e.end), col_delete_range(wcol, e.start, e.end),
        col_delete_range(l, e.start, e.end)));
        assert(cols_after_deletes(d, wcol, l, rs) == (d, wcol, l));
    } else {
        assert(rs.push(e)[0] == rs[0]);
        assert(rs.push(e).skip(1) =~= rs.skip(1).push(e));
        lemma_cols_after_deletes_push(col_delete_range(d, rs[0].start, rs[0].end),
            col_delete_range(wcol, rs[0].start, rs[0].end), col_delete_range(l, rs[0].start,
            rs[0].end), rs.skip(1), e);
    }
}

/// The runner: deferred regions wait here for the next timer pass.
pub struct DeleteRangeRunner {
    pub delay_regions: Vec<Region>,
}

impl DeleteRangeRunner {
    pub fn new() -> (r: DeleteRangeRunner)
        ensures
            r.delay_regions@.len() == 0,
    {
        DeleteRangeRunner { delay_regions: Vec::new() }
    }

    /// Splits the regions whose deletion was requested into those that must
    /// wait and those whose data may be erased now. Nothing is erased while
    /// a region overlaps a range being written or is still held by GC.
    pub fn partition_regions(core: &BackgroundRunnerCore, regions: Vec<Region>) -> (r: (Vec<
        Region,
    >, Vec<Region>))
        ensures
            r.0@.map_values(|x: Region| x@) == deferred_of(core.range_manager.regions_view(),
                core.range_manager.written_view(), regions@.map_values(|x: Region| x@)),
            r.1@.map_values(|x: Region| x@) == deletable_of(core.range_manager.regions_view(),
                core.range_manager.written_view(), regions@.map_values(|x: Region| x@)),
            forall|k: int|
                0 <= k < r.1@.len() ==> !delete_deferred(core.range_manager.regions_view(),
                    core.range_manager.written_view(), (#[trigger] r.1@[k])@),
    {
        let ghost sv = core.range_manager.regions_view();
        let ghost wv = core.range_manager.written_view();
        let ghost rsv = regions@.map_values(|x: Region| x@);
        let mut delayed: Vec<Region> = Vec::new();
        let mut deletable: Vec<Region> = Vec::new();
        let mut i: usize = 0;
        proof {
            assert(rsv.take(0) =~= Seq::<RegionView>::empty());
        }
        while i < regions.len()
            invariant
                i <= rsv.len(),
                rsv == regions@.map_values(|x: Region| x@),
                rsv.len() == regions@.len(),
                delayed@.map_values(|x: Region| x@) == deferred_of(sv, wv, rsv.take(i as int)),
                deletable@.map_values(|x: Region| x@) == deletable_of(sv, wv,
                    rsv.take(i as int)),
                forall|k: int| 0 <= k < deletable@.len() ==> !delete_deferred(sv, wv, (
                #[trigger] deletable@[k])@),
            decreases rsv.len() - i,
        {
            let ghost dels = delayed@.map_values(|x: Region| x@);
            let ghost dbls = deletable@.map_values(|x: Region| x@);
            proof {
                assert(rsv.take(i as int + 1) =~= rsv.take(i as int).push(rsv[i as int]));
                lemma_deferred_split_push(sv, wv, rsv.take(i as int), rsv[i as int]);
                assert(rsv[i as int] == regions@[i as int]@);
            }
            let r = &regions[i];
            let in_gc = core.range_manager.region_in_gc(r.id);
            let overlapped = core.range_manager.is_overlapped_with_regions_being_written(
                &r.start, &r.end);
            if in_gc || overlapped {
                delayed.push(r.clone_region());
                proof {
                    assert(delayed@.map_values(|x: Region| x@) =~= dels.push(rsv[i as int]));
                }
            } else {
                deletable.push(r.clone_region());
                proof {
                    assert(deletable@.map_values(|x: Region| x@) =~= dbls.push(rsv[i as int]));
                }
            }
            i = i + 1;
        }
        proof {
            assert(rsv.take(i as int) =~= rsv);
        }
        (delayed, deletable)
    }

    /// Erases the listed regions' data from every column and forgets their
    /// metadata. Every listed region must be known, Evicting, at its
    /// recorded epoch, and not deferred: deletion never runs for a region a
    /// GC pass still holds or whose range overlaps one being written.
    pub fn delete_regions(core: &mut BackgroundRunnerCore, regions: &Vec<Region>)
        requires
            old(core).wf(),
            forall|k: int|
                0 <= k < regions@.len() ==> has_id(old(core).range_manager.regions_view(), (
                #[trigger] regions@[k])@.id) && old(core).range_manager.regions_view()[id_index(
                    old(core).range_manager.regions_view(), regions@[k]@.id)].state
                    == RegionState::Evicting && old(core).range_manager.regions_view()[id_index(
                    old(core).range_manager.regions_view(),
                    regions@[k]@.id)].region.epoch_version == regions@[k]@.epoch_version,
            forall|k: int|
                0 <= k < regions@.len() ==> !delete_deferred(
                    old(core).range_manager.regions_view(),
                    old(core).range_manager.written_view(), (#[trigger] regions@[k])@),
        ensures
            final(core).wf(),
            ({
                let after = cols_after_deletes(old(core).engine.default_cf@,
                    old(core).engine.write_cf@, old(core).engine.lock_cf@, regions@.map_values(
                    |x: Region| x@));
                &&& final(core).engine.default_cf@ == after.0
                &&& final(core).engine.write_cf@ == after.1
                &&& final(core).engine.lock_cf@ == after.2
            }),
            final(core).range_manager.regions_view() == metas_not_listed(
                old(core).range_manager.regions_view(), regions@.map_values(|x: Region| x@)),
            final(core).range_manager.hist_view() == old(core).range_manager.hist_view(),
            final(core).range_manager.written_view() == old(core).range_manager.written_view(),
    {
        let ghost rsv = regions@.map_values(|x: Region| x@);
        let ghost d0 = core.engine.default_cf@;
        let ghost w0 = core.engine.write_cf@;
        let ghost l0 = core.engine.lock_cf@;
        let mut i: usize = 0;
        proof {
            assert(rsv.take(0) =~= Seq::<RegionView>::empty());
        }
        while i < regions.len()
            invariant
                i <= rsv.len(),
                rsv == regions@.map_values(|x: Region| x@),
                rsv.len() == regions@.len(),
                core.wf(),
                core.range_manager == old(core).range_manager,
                cols_after_deletes(d0, w0, l0, rsv.take(i as int)) == (core.engine.default_cf@,
                    core.engine.write_cf@, core.engine.lock_cf@),
            decreases rsv.len() - i,
        {
            proof {
                assert(rsv.take(i as int + 1) =~= rsv.take(i as int).push(rsv[i as int]));
                lemma_cols_after_deletes_push(d0, w0, l0, rsv.take(i as int), rsv[i as int]);
                assert(rsv[i as int] == regions@[i as int]@);
            }
            let r = &regions[i];
            let _ = core.engine.delete_range(&r.start, &r.end);
            i = i + 1;
        }
        proof {
            assert(rsv.take(i as int) =~= rsv);
        }
        core.range_manager.on_delete_regions(regions);
    }
}

} // verus!
