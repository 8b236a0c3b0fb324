//! The library's cross-cutting guarantees, stated and proved over the
//! models that the function contracts use.

use vstd::prelude::*;

use crate::column::{col_delete_range, col_insert, col_remove, col_size, entries_sorted,
    has_key, in_byte_range, lower_bound, spec_get, KvView, lemma_lower_bound_props,
    lemma_lower_bound_from_props};
use crate::loader::load_col_fold;
use crate::engine::SkiplistEngine;
use crate::filter::{filter_fold, filter_step, flush_cached, FilterStateView};
use crate::write_record::write_parseable;
use crate::keys::{key_decodable, lex_le, lex_lt, spec_commit_ts, spec_sequence, spec_user_key,
    lemma_lex_asymmetric};
use crate::region::{ranges_overlap, RegionState, lemma_snap_min_props};
use crate::region_manager::{effective_safe_point, MetaView, RegionManager};

verus! {

/// Removing one key from a sorted column keeps it sorted.
pub proof fn lemma_sorted_col_remove(s: Seq<KvView>, k: Seq<u8>)
    requires
        entries_sorted(s),
    ensures
        entries_sorted(col_remove(s, k)),
{
    if has_key(s, k) {
        let p = lower_bound(s, k);
        lemma_lower_bound_props(s, k);
        let t = s.remove(p);
        assert forall|i: int, j: int| 0 <= i < j < t.len() implies lex_lt(#[trigger] t[i].0,
            #[trigger] t[j].0) by {
            let i0 = if i < p {
                i
            } else {
                i + 1
            };
            let j0 = if j < p {
                j
            } else {
                j + 1
            };
            assert(t[i] == s[i0] && t[j] == s[j0]);
            assert(lex_lt(s[i0].0, s[j0].0));
        }
    }
}

/// Removing one key from a sorted column leaves every other key in place,
/// with its value.
pub proof fn lemma_col_remove_preserves_other(s: Seq<KvView>, removed: Seq<u8>, k: Seq<u8>)
    requires
        entries_sorted(s),
        k != removed,
    ensures
        has_key(col_remove(s, removed), k) == has_key(s, k),
        has_key(s, k) ==> spec_get(col_remove(s, removed), k) == spec_get(s, k),
{
    if has_key(s, removed) {
        let p = lower_bound(s, removed);
        lemma_lower_bound_props(s, removed);
        let t = s.remove(p);
        lemma_lower_bound_props(s, k);
        let q = lower_bound(s, k);
        if has_key(s, k) {
            assert(q != p);
            let q2 = if q < p {
                q
            } else {
                q - 1
            };
            assert(t[q2] == s[q]);
            assert forall|j: int| 0 <= j < q2 implies !lex_le(k, (#[trigger] t[j]).0) by {
                let j0 = if j < p {
                    j
                } else {
                    j + 1
                };
                assert(t[j] == s[j0]);
                if j0 >= q {
                    assert(lex_lt(s[q].0, s[j0].0) || q == j0);
                    if q != j0 {
                        assert(lex_le(k, s[q].0));
                        assert(s[q].0 == k);
                        lemma_lex_asymmetric(s[q].0, s[j0].0);
                        assert(false);
                    } else {
                        assert(false);
                    }
                }
            }
            lemma_lower_bound_from_props(t, k, q2);
            assert(has_key(t, k));
            assert(spec_get(t, k) == s[q].1);
        } else {
            if has_key(t, k) {
                let w = lower_bound(t, k);
                lemma_lower_bound_props(t, k);
                let w0 = if w < p {
                    w
                } else {
                    w + 1
                };
                assert(t[w] == s[w0]);
                assert(s[w0].0 == k);
                lemma_lower_bound_props(s, k);
                if w0 < q {
                    assert(!lex_le(k, s[w0].0));
                } else if w0 == q {
                    assert(false);
                } else {
                    assert(lex_le(k, s[q].0));
                    assert(s[q].0 != k);
                    assert(lex_lt(s[q].0, s[w0].0));
                    crate::keys::lemma_lex_le_lt_trans(k, s[q].0, s[w0].0);
                    assert(lex_lt(k, s[w0].0));
                    lemma_lex_asymmetric(k, s[w0].0);
                    assert(false);
                }
            }
        }
    }
}

/// An entry the filter may never touch: its insertion sequence is above the
/// oldest outstanding disk snapshot, or its commit timestamp is above the
/// pass's safe point.
pub open spec fn gc_protected(k: Seq<u8>, safe_point: u64, oldest_seqno: u64) -> bool {
    &&& key_decodable(k)
    &&& (spec_sequence(k) > oldest_seqno || (spec_user_key(k).len() >= 8 && spec_commit_ts(
        spec_user_key(k)) > safe_point))
}

/// The filter's cached delete keys always sit at or below both bounds.
pub open spec fn cached_unprotected(f: FilterStateView, safe_point: u64, oldest_seqno: u64)
    -> bool {
    &&& match f.cached_skiplist {
        Some(c) => !gc_protected(c, safe_point, oldest_seqno),
        None => true,
    }
    &&& match f.cached_mvcc {
        Some(c) => !gc_protected(c, safe_point, oldest_seqno),
        None => true,
    }
}

/// One filter step removes nothing protected from the write column.
pub proof fn lemma_filter_step_protects(f: FilterStateView, key: Seq<u8>, value: Seq<u8>,
    safe_point: u64, oldest_seqno: u64, k: Seq<u8>)
    requires
        entries_sorted(f.write_col),
        cached_unprotected(f, safe_point, oldest_seqno),
        gc_protected(k, safe_point, oldest_seqno),
        has_key(f.write_col, k),
    ensures
        entries_sorted(filter_step(f, key, value, safe_point, oldest_seqno).write_col),
        cached_unprotected(filter_step(f, key, value, safe_point, oldest_seqno), safe_point,
            oldest_seqno),
        has_key(filter_step(f, key, value, safe_point, oldest_seqno).write_col, k),
        spec_get(filter_step(f, key, value, safe_point, oldest_seqno).write_col, k) == spec_get(
            f.write_col, k),
{
    let w = f.write_col;
    if !gc_protected(key, safe_point, oldest_seqno) {
        assert(k != key);
    }
    match f.cached_skiplist {
        Some(csd) => {
            assert(k != csd);
            lemma_col_remove_preserves_other(w, csd, k);
            lemma_sorted_col_remove(w, csd);
            let w1 = col_remove(w, csd);
            if !gc_protected(key, safe_point, oldest_seqno) {
                lemma_col_remove_preserves_other(w, key, k);
                lemma_sorted_col_remove(w, key);
                lemma_col_remove_preserves_other(w1, key, k);
                lemma_sorted_col_remove(w1, key);
                match f.cached_mvcc {
                    Some(cmd) => {
                        assert(k != cmd);
                        lemma_col_remove_preserves_other(w1, cmd, k);
                        lemma_sorted_col_remove(w1, cmd);
                        lemma_col_remove_preserves_other(col_remove(w1, cmd), key, k);
                        lemma_sorted_col_remove(col_remove(w1, cmd), key);
                    },
                    None => {},
                }
            }
        },
        None => {
            if !gc_protected(key, safe_point, oldest_seqno) {
                lemma_col_remove_preserves_other(w, key, k);
                lemma_sorted_col_remove(w, key);
                match f.cached_mvcc {
                    Some(cmd) => {
                        assert(k != cmd);
                        lemma_col_remove_preserves_other(w, cmd, k);
                        lemma_sorted_col_remove(w, cmd);
                        lemma_col_remove_preserves_other(col_remove(w, cmd), key, k);
                        lemma_sorted_col_remove(col_remove(w, cmd), key);
                    },
                    None => {},
                }
            }
        },
    }
}

/// Sequence-number and safe-point protection over a whole pass: an entry
/// whose sequence is above the oldest outstanding disk snapshot, or whose
/// commit timestamp is above the safe point, survives the scan in the
/// write column, with its value.
pub proof fn lemma_filter_fold_protects(f: FilterStateView, entries: Seq<KvView>,
    safe_point: u64, oldest_seqno: u64, k: Seq<u8>)
    requires
        entries_sorted(f.write_col),
        cached_unprotected(f, safe_point, oldest_seqno),
        gc_protected(k, safe_point, oldest_seqno),
        has_key(f.write_col, k),
    ensures
        entries_sorted(filter_fold(f, entries, safe_point, oldest_seqno).write_col),
        cached_unprotected(filter_fold(f, entries, safe_point, oldest_seqno), safe_point,
            oldest_seqno),
        has_key(filter_fold(f, entries, safe_point, oldest_seqno).write_col, k),
        spec_get(filter_fold(f, entries, safe_point, oldest_seqno).write_col, k) == spec_get(
            f.write_col, k),
    decreases entries.len(),
{
    if entries.len() > 0 {
        lemma_filter_step_protects(f, entries[0].0, entries[0].1, safe_point, oldest_seqno, k);
        lemma_filter_fold_protects(filter_step(f, entries[0].0, entries[0].1, safe_point,
            oldest_seqno), entries.skip(1), safe_point, oldest_seqno, k);
    }
}

/// Protection holds through the end of the pass, when the cached delete
/// keys are flushed.
pub proof fn lemma_filter_pass_protects(f: FilterStateView, entries: Seq<KvView>,
    safe_point: u64, oldest_seqno: u64, k: Seq<u8>)
    requires
        entries_sorted(f.write_col),
        cached_unprotected(f, safe_point, oldest_seqno),
        gc_protected(k, safe_point, oldest_seqno),
        has_key(f.write_col, k),
    ensures
        has_key(flush_cached(filter_fold(f, entries, safe_point, oldest_seqno)).write_col, k),
        spec_get(flush_cached(filter_fold(f, entries, safe_point, oldest_seqno)).write_col, k)
            == spec_get(f.write_col, k),
{
    lemma_filter_fold_protects(f, entries, safe_point, oldest_seqno, k);
    let r = filter_fold(f, entries, safe_point, oldest_seqno);
    match r.cached_mvcc {
        Some(cmd) => {
            assert(k != cmd);
            lemma_col_remove_preserves_other(r.write_col, cmd, k);
            lemma_sorted_col_remove(r.write_col, cmd);
            match r.cached_skiplist {
                Some(csd) => {
                    assert(k != csd);
                    lemma_col_remove_preserves_other(col_remove(r.write_col, cmd), csd, k);
                },
                None => {},
            }
        },
        None => {
            match r.cached_skiplist {
                Some(csd) => {
                    assert(k != csd);
                    lemma_col_remove_preserves_other(r.write_col, csd, k);
                },
                None => {},
            }
        },
    }
}

/// Snapshot protection at the safe point: the safe point a GC pass may use
/// never exceeds any read timestamp the region holds open.
pub proof fn lemma_effective_safe_point_respects_snapshots(requested: u64, m: MetaView,
    hist_min: u64)
    ensures
        forall|i: int|
            0 <= i < m.snapshots.len() ==> effective_safe_point(requested, m, hist_min) <= (
            #[trigger] m.snapshots[i]).0,
        effective_safe_point(requested, m, hist_min) <= hist_min,
        effective_safe_point(requested, m, hist_min) <= requested,
{
    if m.snapshots.len() > 0 {
        lemma_snap_min_props(m.snapshots);
    }
}

/// Memory conservation: a well-formed engine's used bytes are exactly the
/// total charge of the live entries of its three columns.
pub proof fn lemma_memory_conservation(e: &SkiplistEngine)
    requires
        e.wf(),
    ensures
        e.mem.spec_used() as nat == col_size(e.default_cf@) + col_size(e.write_cf@) + col_size(
            e.lock_cf@),
{
}

/// No overlap among Active regions: a well-formed manager caches pairwise
/// disjoint ranges, so in particular no two Active regions overlap.
pub proof fn lemma_active_regions_disjoint(m: &RegionManager, i: int, j: int)
    requires
        m.wf(),
        0 <= i < m.regions_view().len(),
        0 <= j < m.regions_view().len(),
        i != j,
        m.regions_view()[i].state == RegionState::Active,
        m.regions_view()[j].state == RegionState::Active,
    ensures
        !ranges_overlap(m.regions_view()[i].region, m.regions_view()[j].region),
{
    let s = m.regions_view();
    if i < j {
        assert(!ranges_overlap(s[i].region, s[j].region));
    } else {
        assert(!ranges_overlap(s[j].region, s[i].region));
        if ranges_overlap(s[i].region, s[j].region) {
        }
    }
}

/// Safe points compose monotonically: two successive passes never lower a
/// region's safe point below what the first pass left.
pub proof fn lemma_safe_point_monotonic_compose(s1: Seq<MetaView>, s2: Seq<MetaView>, s3: Seq<
    MetaView,
>, i: int)
    requires
        s1.len() == s2.len() == s3.len(),
        0 <= i < s1.len(),
        s2[i].safe_point >= s1[i].safe_point,
        s3[i].safe_point >= s2[i].safe_point,
    ensures
        s3[i].safe_point >= s1[i].safe_point,
{
}


/// Keeping exactly the entries outside `[start, end)`.
pub open spec fn keep_outside(start: Seq<u8>, end: Seq<u8>) -> spec_fn(KvView) -> bool {
    |e: KvView| !in_byte_range(e.0, start, end)
}

/// Erasing a range is filtering its entries out.
pub proof fn lemma_col_delete_range_is_filter(s: Seq<KvView>, start: Seq<u8>, end: Seq<u8>)
    ensures
        col_delete_range(s, start, end) == s.filter(keep_outside(start, end)),
    decreases s.len(),
{
    let pred = keep_outside(start, end);
    if s.len() == 0 {
        assert(s.filter(pred) =~= Seq::<KvView>::empty());
    } else {
        lemma_col_delete_range_is_filter(s.skip(1), start, end);
        assert(s =~= seq![s[0]] + s.skip(1));
        Seq::filter_distributes_over_add(seq![s[0]], s.skip(1), pred);
        lemma_filter_singleton(s[0], pred);
        if in_byte_range(s[0].0, start, end) {
            assert(Seq::<KvView>::empty() + s.skip(1).filter(pred) =~= s.skip(1).filter(pred));
        }
    }
}

/// Storing an entry inside the range leaves the erased result unchanged.
pub proof fn lemma_insert_in_range_then_delete(s: Seq<KvView>, k: Seq<u8>, v: Seq<u8>,
    start: Seq<u8>, end: Seq<u8>)
    requires
        in_byte_range(k, start, end),
    ensures
        col_delete_range(col_insert(s, k, v), start, end) == col_delete_range(s, start, end),
{
    let pred = keep_outside(start, end);
    lemma_col_delete_range_is_filter(s, start, end);
    lemma_col_delete_range_is_filter(col_insert(s, k, v), start, end);
    let p = lower_bound(s, k);
    lemma_lower_bound_props(s, k);
    if has_key(s, k) {
        let s2 = s.update(p, (k, v));
        assert(s =~= (s.take(p) + seq![s[p]]) + s.skip(p + 1));
        assert(s2 =~= (s.take(p) + seq![(k, v)]) + s.skip(p + 1));
        Seq::filter_distributes_over_add(s.take(p) + seq![s[p]], s.skip(p + 1), pred);
        Seq::filter_distributes_over_add(s.take(p), seq![s[p]], pred);
        Seq::filter_distributes_over_add(s.take(p) + seq![(k, v)], s.skip(p + 1), pred);
        Seq::filter_distributes_over_add(s.take(p), seq![(k, v)], pred);
        lemma_filter_singleton_dropped((k, v), pred);
        assert(s[p].0 == k);
        lemma_filter_singleton_dropped(s[p], pred);
        assert(s2.filter(pred) =~= s.filter(pred));
    } else {
        let s2 = s.take(p) + seq![(k, v)] + s.skip(p);
        assert(s =~= s.take(p) + s.skip(p));
        Seq::filter_distributes_over_add(s.take(p) + seq![(k, v)], s.skip(p), pred);
        Seq::filter_distributes_over_add(s.take(p), seq![(k, v)], pred);
        Seq::filter_distributes_over_add(s.take(p), s.skip(p), pred);
        lemma_filter_singleton_dropped((k, v), pred);
        assert(s2.filter(pred) =~= s.filter(pred));
    }
}

proof fn lemma_filter_singleton(e: KvView, pred: spec_fn(KvView) -> bool)
    ensures
        seq![e].filter(pred) == if pred(e) {
            seq![e]
        } else {
            Seq::<KvView>::empty()
        },
{
    reveal_with_fuel(Seq::filter, 2);
    assert(seq![e].drop_last() =~= Seq::<KvView>::empty());
    assert(seq![e].last() == e);
    assert(seq![e].len() == 1);
    assert(Seq::<KvView>::empty().filter(pred) == Seq::<KvView>::empty());
    if pred(e) {
        assert(Seq::<KvView>::empty().push(e) =~= seq![e]);
    }
}

proof fn lemma_filter_singleton_dropped(e: KvView, pred: spec_fn(KvView) -> bool)
    requires
        !pred(e),
    ensures
        seq![e].filter(pred) == Seq::<KvView>::empty(),
{
    lemma_filter_singleton(e, pred);
}

/// Erasing a range that holds no entry changes nothing.
pub proof fn lemma_delete_range_absent_id(s: Seq<KvView>, start: Seq<u8>, end: Seq<u8>)
    requires
        forall|j: int| 0 <= j < s.len() ==> !in_byte_range((#[trigger] s[j]).0, start, end),
    ensures
        col_delete_range(s, start, end) == s,
    decreases s.len(),
{
    if s.len() > 0 {
        assert forall|j: int| 0 <= j < s.skip(1).len() implies !in_byte_range(
            (#[trigger] s.skip(1)[j]).0, start, end) by {
            assert(s.skip(1)[j] == s[j + 1]);
        }
        lemma_delete_range_absent_id(s.skip(1), start, end);
        assert(col_delete_range(s, start, end) =~= s);
    }
}

/// Whether every entry of a load lands, encoded, inside `[start, end)`.
pub open spec fn load_entries_in_range(entries: Seq<KvView>, seq_no: u64, start: Seq<u8>,
    end: Seq<u8>) -> bool {
    forall|j: int|
        0 <= j < entries.len() ==> in_byte_range(crate::keys::spec_encode_key(
            (#[trigger] entries[j]).0, seq_no, crate::keys::ValueType::Value), start, end)
}

/// Erasing the loaded range afterwards erases exactly what the load put in.
pub proof fn lemma_load_then_delete(c: Seq<KvView>, used: u64, hard: u64, entries: Seq<KvView>,
    seq_no: u64, start: Seq<u8>, end: Seq<u8>)
    requires
        load_entries_in_range(entries, seq_no, start, end),
    ensures
        col_delete_range(load_col_fold(c, used, hard, entries, seq_no).col, start, end)
            == col_delete_range(c, start, end),
    decreases entries.len(),
{
    if entries.len() > 0 {
        let enc = crate::keys::spec_encode_key(entries[0].0, seq_no,
            crate::keys::ValueType::Value);
        let size = crate::column::entry_size((enc, entries[0].1));
        if used + size > hard {
        } else {
            let back = if has_key(c, enc) {
                crate::column::entry_size((enc, spec_get(c, enc)))
            } else {
                0
            };
            assert forall|j: int|
                0 <= j < entries.skip(1).len() implies in_byte_range(
                crate::keys::spec_encode_key((#[trigger] entries.skip(1)[j]).0, seq_no,
                    crate::keys::ValueType::Value), start, end) by {
                assert(entries.skip(1)[j] == entries[j + 1]);
            }
            lemma_load_then_delete(col_insert(c, enc, entries[0].1), (used + size - back) as u64,
                hard, entries.skip(1), seq_no, start, end);
            lemma_insert_in_range_then_delete(c, enc, entries[0].1, start, end);
        }
    }
}

/// The load round trip: loading a region whose range holds nothing, erasing
/// that range, and loading the same snapshot again gives exactly what a
/// single load gives. Every snapshot entry must land inside the range.
pub proof fn lemma_reload_equals_single_load(c: Seq<KvView>, used: u64, hard: u64,
    entries: Seq<KvView>, seq_no: u64, start: Seq<u8>, end: Seq<u8>)
    requires
        load_entries_in_range(entries, seq_no, start, end),
        forall|j: int| 0 <= j < c.len() ==> !in_byte_range((#[trigger] c[j]).0, start, end),
    ensures
        col_delete_range(load_col_fold(c, used, hard, entries, seq_no).col, start, end) == c,
        load_col_fold(col_delete_range(load_col_fold(c, used, hard, entries, seq_no).col, start,
            end), used, hard, entries, seq_no) == load_col_fold(c, used, hard, entries, seq_no),
{
    lemma_load_then_delete(c, used, hard, entries, seq_no, start, end);
    lemma_delete_range_absent_id(c, start, end);
}


/// Removal by key keeps a subset of the entries.
pub proof fn lemma_col_remove_subset(s: Seq<KvView>, k: Seq<u8>)
    ensures
        forall|x: KvView| col_remove(s, k).contains(x) ==> s.contains(x),
{
    if has_key(s, k) {
        let p = lower_bound(s, k);
        lemma_lower_bound_props(s, k);
        let t = s.remove(p);
        assert forall|x: KvView| t.contains(x) implies s.contains(x) by {
            let i = choose|i: int| 0 <= i < t.len() && t[i] == x;
            let i0 = if i < p {
                i
            } else {
                i + 1
            };
            assert(s[i0] == x);
        }
    }
}

/// A payload purge keeps a subset of the entries.
pub proof fn lemma_purge_from_subset(d: Seq<KvView>, p: int, u: Seq<u8>)
    ensures
        forall|x: KvView| crate::filter::purge_from(d, p, u).contains(x) ==> d.contains(x),
    decreases d.len() - p,
{
    if 0 <= p < d.len() && crate::keys::spec_same_user(d[p].0, u) {
        lemma_purge_from_subset(d.remove(p), p, u);
        assert forall|x: KvView| crate::filter::purge_from(d, p, u).contains(x) implies
            d.contains(x) by {
            assert(d.remove(p).contains(x));
            let i = choose|i: int| 0 <= i < d.remove(p).len() && d.remove(p)[i] == x;
            let i0 = if i < p {
                i
            } else {
                i + 1
            };
            assert(d[i0] == x);
        }
    }
}

/// One filter step keeps subsets of both columns.
pub proof fn lemma_filter_step_subset(f: FilterStateView, key: Seq<u8>, value: Seq<u8>,
    safe_point: u64, oldest_seqno: u64)
    ensures
        forall|x: KvView|
            filter_step(f, key, value, safe_point, oldest_seqno).write_col.contains(x)
                ==> f.write_col.contains(x),
        forall|x: KvView|
            filter_step(f, key, value, safe_point, oldest_seqno).default_col.contains(x)
                ==> f.default_col.contains(x),
{
    let w = f.write_col;
    lemma_col_remove_subset(w, key);
    match f.cached_skiplist {
        Some(csd) => {
            lemma_col_remove_subset(w, csd);
            let w1 = col_remove(w, csd);
            lemma_col_remove_subset(w1, key);
            match f.cached_mvcc {
                Some(cmd) => {
                    lemma_col_remove_subset(w1, cmd);
                    lemma_col_remove_subset(col_remove(w1, cmd), key);
                },
                None => {},
            }
        },
        None => {
            match f.cached_mvcc {
                Some(cmd) => {
                    lemma_col_remove_subset(w, cmd);
                    lemma_col_remove_subset(col_remove(w, cmd), key);
                },
                None => {},
            }
        },
    }
    if write_parseable(value) {
        let wrec = crate::write_record::spec_parse_write(value);
        let prefix = crate::keys::spec_mvcc_prefix(crate::keys::spec_user_key(key));
        lemma_purge_from_subset(f.default_col, lower_bound(f.default_col,
            crate::filter::payload_seek_key(prefix, wrec.1)), crate::keys::spec_append_ts(
            prefix, wrec.1));
    }
}

/// A whole pass, including the final flush, keeps subsets of both columns.
pub proof fn lemma_filter_pass_subset(f: FilterStateView, entries: Seq<KvView>,
    safe_point: u64, oldest_seqno: u64)
    ensures
        forall|x: KvView|
            flush_cached(filter_fold(f, entries, safe_point, oldest_seqno)).write_col.contains(
                x) ==> f.write_col.contains(x),
        forall|x: KvView|
            flush_cached(filter_fold(f, entries, safe_point, oldest_seqno)).default_col.contains(
                x) ==> f.default_col.contains(x),
    decreases entries.len(),
{
    if entries.len() == 0 {
        let r = filter_fold(f, entries, safe_point, oldest_seqno);
        match r.cached_mvcc {
            Some(cmd) => {
                lemma_col_remove_subset(r.write_col, cmd);
                match r.cached_skiplist {
                    Some(csd) => {
                        lemma_col_remove_subset(col_remove(r.write_col, cmd), csd);
                    },
                    None => {},
                }
            },
            None => {
                match r.cached_skiplist {
                    Some(csd) => {
                        lemma_col_remove_subset(r.write_col, csd);
                    },
                    None => {},
                }
            },
        }
    } else {
        lemma_filter_step_subset(f, entries[0].0, entries[0].1, safe_point, oldest_seqno);
        lemma_filter_pass_subset(filter_step(f, entries[0].0, entries[0].1, safe_point,
            oldest_seqno), entries.skip(1), safe_point, oldest_seqno);
    }
}

/// Erasing a range from a column that lies wholly inside it empties it.
pub proof fn lemma_delete_range_in_range_empty(s: Seq<KvView>, start: Seq<u8>, end: Seq<u8>)
    requires
        forall|j: int| 0 <= j < s.len() ==> in_byte_range((#[trigger] s[j]).0, start, end),
    ensures
        col_delete_range(s, start, end) == Seq::<KvView>::empty(),
    decreases s.len(),
{
    if s.len() > 0 {
        assert forall|j: int| 0 <= j < s.skip(1).len() implies in_byte_range(
            (#[trigger] s.skip(1)[j]).0, start, end) by {
            assert(s.skip(1)[j] == s[j + 1]);
        }
        lemma_delete_range_in_range_empty(s.skip(1), start, end);
    }
}

/// An insert adds the new entry and keeps the rest.
pub proof fn lemma_col_insert_elements(s: Seq<KvView>, k: Seq<u8>, v: Seq<u8>)
    ensures
        forall|x: KvView| col_insert(s, k, v).contains(x) ==> s.contains(x) || x == (k, v),
{
    let p = lower_bound(s, k);
    lemma_lower_bound_props(s, k);
    let t = col_insert(s, k, v);
    assert forall|x: KvView| t.contains(x) implies s.contains(x) || x == (k, v) by {
        let i = choose|i: int| 0 <= i < t.len() && t[i] == x;
        if has_key(s, k) {
            if i != p {
                assert(s[i] == x);
            }
        } else {
            if i < p {
                assert(t[i] == s[i]);
            } else if i == p {
            } else {
                assert(t[i] == s[i - 1]);
            }
        }
    }
}

/// Loading in-range entries into an in-range column keeps every entry's
/// key inside the range.
pub proof fn lemma_load_fold_in_range(c: Seq<KvView>, used: u64, hard: u64, entries: Seq<
    KvView,
>, seq_no: u64, start: Seq<u8>, end: Seq<u8>)
    requires
        load_entries_in_range(entries, seq_no, start, end),
        forall|j: int| 0 <= j < c.len() ==> in_byte_range((#[trigger] c[j]).0, start, end),
    ensures
        forall|j: int|
            0 <= j < load_col_fold(c, used, hard, entries, seq_no).col.len() ==> in_byte_range(
                (#[trigger] load_col_fold(c, used, hard, entries, seq_no).col[j]).0, start,
                end),
    decreases entries.len(),
{
    if entries.len() > 0 {
        let enc = crate::keys::spec_encode_key(entries[0].0, seq_no,
            crate::keys::ValueType::Value);
        let size = crate::column::entry_size((enc, entries[0].1));
        if used + size > hard {
        } else {
            let back = if has_key(c, enc) {
                crate::column::entry_size((enc, spec_get(c, enc)))
            } else {
                0
            };
            let c2 = col_insert(c, enc, entries[0].1);
            lemma_col_insert_elements(c, enc, entries[0].1);
            assert forall|j: int| 0 <= j < c2.len() implies in_byte_range(
                (#[trigger] c2[j]).0, start, end) by {
                assert(c2.contains(c2[j]));
                if c2[j] != (enc, entries[0].1) {
                    assert(c.contains(c2[j]));
                    let w = choose|w: int| 0 <= w < c.len() && c[w] == c2[j];
                    assert(in_byte_range(c[w].0, start, end));
                }
            }
            assert forall|j: int|
                0 <= j < entries.skip(1).len() implies in_byte_range(
                crate::keys::spec_encode_key((#[trigger] entries.skip(1)[j]).0, seq_no,
                    crate::keys::ValueType::Value), start, end) by {
                assert(entries.skip(1)[j] == entries[j + 1]);
            }
            lemma_load_fold_in_range(c2, (used + size - back) as u64, hard, entries.skip(1),
                seq_no, start, end);
            assert(load_col_fold(c, used, hard, entries, seq_no).col == load_col_fold(c2, (used
                + size - back) as u64, hard, entries.skip(1), seq_no).col);
        }
    }
}

/// The load round trip over the whole pass: on a fresh engine, a completed
/// load — including its initial GC pass — followed by erasing the region's
/// range returns every column to emptiness, so loading the same snapshot
/// again is the same function of the same arguments and leaves the same
/// contents.
pub proof fn lemma_load_round_trip_whole_pass(used: u64, hard: u64, des: Seq<KvView>, les: Seq<
    KvView,
>, wes: Seq<KvView>, seq_no: u64, initial_safe_point: u64, start: Seq<u8>, end: Seq<u8>)
    requires
        load_entries_in_range(des, seq_no, start, end),
        load_entries_in_range(les, seq_no, start, end),
        load_entries_in_range(wes, seq_no, start, end),
    ensures
        ({
            let fresh = Seq::<KvView>::empty();
            let fd = load_col_fold(fresh, used, hard, des, seq_no);
            let fl = load_col_fold(fresh, fd.used, hard, les, seq_no);
            let fw = load_col_fold(fresh, fl.used, hard, wes, seq_no);
            let pass = crate::gc::gc_pass_result(fw.col, fd.col, initial_safe_point, u64::MAX,
                start, end);
            &&& col_delete_range(pass.write_col, start, end) == fresh
            &&& col_delete_range(pass.default_col, start, end) == fresh
            &&& col_delete_range(fl.col, start, end) == fresh
        }),
{
    let fresh = Seq::<KvView>::empty();
    let fd = load_col_fold(fresh, used, hard, des, seq_no);
    let fl = load_col_fold(fresh, fd.used, hard, les, seq_no);
    let fw = load_col_fold(fresh, fl.used, hard, wes, seq_no);
    lemma_load_fold_in_range(fresh, used, hard, des, seq_no, start, end);
    lemma_load_fold_in_range(fresh, fd.used, hard, les, seq_no, start, end);
    lemma_load_fold_in_range(fresh, fl.used, hard, wes, seq_no, start, end);
    let f0 = crate::filter::initial_filter_state(fw.col, fd.col);
    let scanned = crate::column::col_range(fw.col, start, end);
    lemma_filter_pass_subset(f0, scanned, initial_safe_point, u64::MAX);
    let pass = crate::gc::gc_pass_result(fw.col, fd.col, initial_safe_point, u64::MAX, start,
        end);
    assert forall|j: int| 0 <= j < pass.write_col.len() implies in_byte_range(
        (#[trigger] pass.write_col[j]).0, start, end) by {
        assert(pass.write_col.contains(pass.write_col[j]));
        assert(fw.col.contains(pass.write_col[j]));
        let w = choose|w: int| 0 <= w < fw.col.len() && fw.col[w] == pass.write_col[j];
    }
    assert forall|j: int| 0 <= j < pass.default_col.len() implies in_byte_range(
        (#[trigger] pass.default_col[j]).0, start, end) by {
        assert(pass.default_col.contains(pass.default_col[j]));
        assert(fd.col.contains(pass.default_col[j]));
        let w = choose|w: int| 0 <= w < fd.col.len() && fd.col[w] == pass.default_col[j];
    }
    lemma_delete_range_in_range_empty(pass.write_col, start, end);
    lemma_delete_range_in_range_empty(pass.default_col, start, end);
    lemma_delete_range_in_range_empty(fl.col, start, end);
}

} // verus!
