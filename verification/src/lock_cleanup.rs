//! Lock-column tombstone cleanup: versions and tombstones superseded below
//! a snapshot sequence number are removed, keeping at most one live version
//! per user key.

use vstd::prelude::*;

use crate::column::{col_remove, col_size, ColEntry, KvView};
use crate::filter::sat_inc;
use crate::gc::BackgroundRunnerCore;
use crate::keys::{key_decodable, spec_sequence, spec_user_key, spec_v_type, ValueType};

verus! {

/// The scan state of one cleanup pass.
pub ghost struct CleanStateView {
    pub last_user_key: Seq<u8>,
    pub remove_rest: bool,
    pub cached: Option<Seq<u8>>,
    pub removed: u64,
    pub total: u64,
    pub col: Seq<KvView>,
}

/// A fresh pass over the given column.
pub open spec fn initial_clean_state(col: Seq<KvView>) -> CleanStateView {
    CleanStateView {
        last_user_key: Seq::empty(),
        remove_rest: false,
        cached: None,
        removed: 0,
        total: 0,
        col,
    }
}

/// One scanned entry's exact effect: past the snapshot sequence nothing is
/// touched; below it, every version after the first is removed, and a
/// leading tombstone is cached so that it leaves last.
pub open spec fn clean_step(f: CleanStateView, key: Seq<u8>, seqno: u64) -> CleanStateView {
    let f0 = CleanStateView { total: sat_inc(f.total), ..f };
    if !key_decodable(key) {
        f0
    } else {
        let uk = spec_user_key(key);
        let sq = spec_sequence(key);
        let vt = spec_v_type(key);
        if uk != f0.last_user_key {
            let f1 = match f0.cached {
                Some(c) => CleanStateView {
                    removed: sat_inc(f0.removed),
                    col: col_remove(f0.col, c),
                    cached: None,
                    ..f0
                },
                None => f0,
            };
            let f2 = CleanStateView { last_user_key: uk, ..f1 };
            if sq >= seqno {
                CleanStateView { remove_rest: false, ..f2 }
            } else {
                let f3 = CleanStateView { remove_rest: true, ..f2 };
                if vt == ValueType::Deletion {
                    CleanStateView { cached: Some(key), ..f3 }
                } else {
                    f3
                }
            }
        } else if f0.remove_rest {
            CleanStateView { removed: sat_inc(f0.removed), col: col_remove(f0.col, key), ..f0 }
        } else if sq < seqno {
            let f3 = CleanStateView { remove_rest: true, ..f0 };
            if vt == ValueType::Deletion {
                CleanStateView { cached: Some(key), ..f3 }
            } else {
                f3
            }
        } else {
            f0
        }
    }
}

pub open spec fn clean_fold(f: CleanStateView, entries: Seq<KvView>, seqno: u64)
    -> CleanStateView
    decreases entries.len(),
{
    if entries.len() == 0 {
        f
    } else {
        clean_fold(clean_step(f, entries[0].0, seqno), entries.skip(1), seqno)
    }
}

proof fn lemma_clean_fold_push(f: CleanStateView, entries: Seq<KvView>, e: KvView, seqno: u64)
    ensures
        clean_fold(f, entries.push(e), seqno) == clean_step(clean_fold(f, entries, seqno), e.0,
            seqno),
    decreases entries.len(),
{
    if entries.len() == 0 {
        assert(entries.push(e)[0] == e);
        assert(entries.push(e).skip(1) =~= Seq::<KvView>::empty());
        assert(clean_fold(clean_step(f, e.0, seqno), entries.push(e).skip(1), seqno)
            == clean_step(f, e.0, seqno));
        assert(clean_fold(f, entries, seqno) == f);
    } else {
        assert(entries.push(e)[0] == entries[0]);
        assert(entries.push(e).skip(1) =~= entries.skip(1).push(e));
        lemma_clean_fold_push(clean_step(f, entries[0].0, seqno), entries.skip(1), e, seqno);
        assert(clean_fold(f, entries.push(e), seqno) == clean_fold(clean_step(f, entries[0].0,
            seqno), entries.skip(1).push(e), seqno));
        assert(clean_fold(f, entries, seqno) == clean_fold(clean_step(f, entries[0].0, seqno),
            entries.skip(1), seqno));
    }
}

/// The column after the pass, with a trailing cached tombstone flushed.
pub open spec fn clean_flush(f: CleanStateView) -> CleanStateView {
    match f.cached {
        Some(c) => CleanStateView {
            removed: sat_inc(f.removed),
            col: col_remove(f.col, c),
            cached: None,
            ..f
        },
        None => f,
    }
}

proof fn lemma_clean_step_size_le(f: CleanStateView, key: Seq<u8>, seqno: u64)
    ensures
        col_size(clean_step(f, key, seqno).col) <= col_size(f.col),
{
    match f.cached {
        Some(c) => {
            crate::column::lemma_col_remove_size_le(f.col, c);
        },
        None => {},
    }
    crate::column::lemma_col_remove_size_le(f.col, key);
}

proof fn lemma_clean_fold_size_le(f: CleanStateView, entries: Seq<KvView>, seqno: u64)
    ensures
        col_size(clean_fold(f, entries, seqno).col) <= col_size(f.col),
    decreases entries.len(),
{
    if entries.len() > 0 {
        lemma_clean_step_size_le(f, entries[0].0, seqno);
        lemma_clean_fold_size_le(clean_step(f, entries[0].0, seqno), entries.skip(1), seqno);
    }
}

proof fn lemma_clean_flush_size_le(f: CleanStateView)
    ensures
        col_size(clean_flush(f).col) <= col_size(f.col),
{
    match f.cached {
        Some(c) => {
            crate::column::lemma_col_remove_size_le(f.col, c);
        },
        None => {},
    }
}

/// The executable scan state.
struct CleanScan {
    last_user_key: Vec<u8>,
    remove_rest: bool,
    cached_to_remove: Option<Vec<u8>>,
    removed: u64,
    total: u64,
}

impl CleanScan {
    spec fn state_with(&self, col: Seq<KvView>) -> CleanStateView {
        CleanStateView {
            last_user_key: self.last_user_key@,
            remove_rest: self.remove_rest,
            cached: match self.cached_to_remove {
                Some(c) => Some(c@),
                None => None,
            },
            removed: self.removed,
            total: self.total,
            col,
        }
    }
}

impl BackgroundRunnerCore {
    /// Cleans superseded versions and tombstones below `snapshot_seqno` out
    /// of the lock column, exactly as the cleanup model says; returns the
    /// pass's (removed, total) counters.
    pub fn clean_lock_tombstone(&mut self, snapshot_seqno: u64) -> (counts: (u64, u64))
        requires
            old(self).wf(),
        ensures
            final(self).wf(),
            final(self).range_manager == old(self).range_manager,
            final(self).checking_top_regions == old(self).checking_top_regions,
            final(self).engine.write_cf@ == old(self).engine.write_cf@,
            final(self).engine.default_cf@ == old(self).engine.default_cf@,
            ({
                let pass = clean_flush(clean_fold(initial_clean_state(
                    old(self).engine.lock_cf@), old(self).engine.lock_cf@, snapshot_seqno));
                &&& final(self).engine.lock_cf@ == pass.col
                &&& counts.0 == pass.removed
                &&& counts.1 == pass.total
            }),
    {
        let ghost l0 = self.engine.lock_cf@;
        let before = self.engine.lock_cf.total_size();
        let entries = self.engine.lock_cf.entries_cloned();
        let mut scan = CleanScan {
            last_user_key: Vec::new(),
            remove_rest: false,
            cached_to_remove: None,
            removed: 0,
            total: 0,
        };
        proof {
            assert(scan.last_user_key@ =~= Seq::<u8>::empty());
            assert(scan.state_with(l0) == initial_clean_state(l0));
            assert(l0.take(0) =~= Seq::<KvView>::empty());
        }
        let mut i: usize = 0;
        while i < entries.len()
            invariant
                i <= entries@.len(),
                entries@.map_values(|e: ColEntry| e@) == l0,
                l0.len() == entries@.len(),
                self.engine.lock_cf.wf(),
                self.engine.write_cf@ == old(self).engine.write_cf@,
                self.engine.default_cf@ == old(self).engine.default_cf@,
                self.engine.write_cf.wf(),
                self.engine.default_cf.wf(),
                self.range_manager == old(self).range_manager,
                self.checking_top_regions == old(self).checking_top_regions,
                self.range_manager.wf(),
                self.engine.mem == old(self).engine.mem,
                match scan.cached_to_remove {
                    Some(c) => key_decodable(c@),
                    None => true,
                },
                scan.state_with(self.engine.lock_cf@) == clean_fold(initial_clean_state(l0),
                    l0.take(i as int), snapshot_seqno),
            decreases entries@.len() - i,
        {
            proof {
                assert(l0.take(i as int + 1) =~= l0.take(i as int).push(l0[i as int]));
                lemma_clean_fold_push(initial_clean_state(l0), l0.take(i as int), l0[i as int],
                    snapshot_seqno);
                assert(l0[i as int] == entries@[i as int]@);
            }
            scan.total = crate::filter::sat_inc_exec(scan.total);
            let key = &entries[i].key;
            if key.len() >= 8 {
                let decoded = crate::keys::decode_key(key);
                if !crate::keys::bytes_eq(&decoded.user_key, &scan.last_user_key) {
                    let cached = scan.cached_to_remove.take();
                    match cached {
                        Some(c) => {
                            scan.removed = crate::filter::sat_inc_exec(scan.removed);
                            let _ = self.engine.lock_cf.remove(&c);
                        },
                        None => {},
                    }
                    scan.last_user_key = decoded.user_key;
                    if decoded.sequence >= snapshot_seqno {
                        scan.remove_rest = false;
                    } else {
                        scan.remove_rest = true;
                        if matches!(decoded.v_type, ValueType::Deletion) {
                            scan.cached_to_remove = Some(crate::column::clone_bytes(key));
                        }
                    }
                } else if scan.remove_rest {
                    scan.removed = crate::filter::sat_inc_exec(scan.removed);
                    let _ = self.engine.lock_cf.remove(key);
                } else if decoded.sequence < snapshot_seqno {
                    scan.remove_rest = true;
                    if matches!(decoded.v_type, ValueType::Deletion) {
                        scan.cached_to_remove = Some(crate::column::clone_bytes(key));
                    }
                }
            }
            i = i + 1;
        }
        proof {
            assert(l0.take(i as int) =~= l0);
        }
        let cached = scan.cached_to_remove.take();
        match cached {
            Some(c) => {
                scan.removed = crate::filter::sat_inc_exec(scan.removed);
                let _ = self.engine.lock_cf.remove(&c);
            },
            None => {},
        }
        proof {
            lemma_clean_fold_size_le(initial_clean_state(l0), l0, snapshot_seqno);
            lemma_clean_flush_size_le(clean_fold(initial_clean_state(l0), l0, snapshot_seqno));
        }
        let after = self.engine.lock_cf.total_size();
        self.engine.mem.release(before - after);
        (scan.removed, scan.total)
    }
}


impl crate::tasks::BackgroundRunner {
    /// The lock-cleanup task: a task whose snapshot sequence is older than
    /// one already handled is stale and does nothing; otherwise the sequence
    /// is recorded — it never decreases — and the cleanup pass runs,
    /// returning its (removed, total) counters.
    pub fn handle_clean_lock_tombstone(&mut self, snapshot_seqno: u64) -> (r: Option<(u64, u64)>)
        requires
            old(self).wf(),
        ensures
            final(self).wf(),
            final(self).rocks_engine_set == old(self).rocks_engine_set,
            final(self).last_seqno >= old(self).last_seqno,
            if snapshot_seqno < old(self).last_seqno {
                &&& r is None
                &&& final(self).last_seqno == old(self).last_seqno
                &&& final(self).core == old(self).core
            } else {
                let pass = clean_flush(clean_fold(initial_clean_state(
                    old(self).core.engine.lock_cf@), old(self).core.engine.lock_cf@,
                    snapshot_seqno));
                &&& final(self).last_seqno == snapshot_seqno
                &&& final(self).core.range_manager == old(self).core.range_manager
                &&& final(self).core.checking_top_regions == old(
                    self).core.checking_top_regions
                &&& final(self).core.engine.write_cf@ == old(self).core.engine.write_cf@
                &&& final(self).core.engine.default_cf@ == old(self).core.engine.default_cf@
                &&& final(self).core.engine.lock_cf@ == pass.col
                &&& r == Some((pass.removed, pass.total))
            },
    {
        if snapshot_seqno < self.last_seqno {
            return None;
        }
        self.last_seqno = snapshot_seqno;
        let counts = self.core.clean_lock_tombstone(snapshot_seqno);
        Some(counts)
    }
}

} // verus!
