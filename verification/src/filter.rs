//! The MVCC GC filter: walks the write column over a key range and removes
//! versions that are obsolete below a safe point, together with their large
//! payloads in the default column.
//!
//! The whole pass is pinned by a functional model: `filter_step` states, for
//! one scanned entry, the exact new filter state and column contents, and
//! `filter_fold` folds it over the scanned entries. The executable filter is
//! proved to follow that model step by step.

use vstd::prelude::*;

use crate::column::{col_range, col_remove, lower_bound, Column, ColEntry, KvView};
use crate::keys::{key_decodable, spec_append_ts, spec_commit_ts, spec_encode_key,
    spec_mvcc_prefix, spec_sequence, spec_user_key, spec_v_type, ValueType, MAX_SEQUENCE_NUMBER};
use crate::write_record::{spec_parse_write, write_parseable, WriteType};

verus! {

/// Counters reported by one GC pass. They saturate rather than wrap.
pub struct FilterMetrics {
    pub total: u64,
    pub versions: u64,
    pub delete_versions: u64,
    pub filtered: u64,
    pub unique_key: u64,
    pub mvcc_rollback_and_locks: u64,
}

/// `x + 1`, stopping at the top of the range.
pub open spec fn sat_inc(x: u64) -> u64 {
    if x == u64::MAX {
        x
    } else {
        (x + 1) as u64
    }
}

/// `a + b`, stopping at the top of the range.
pub open spec fn sat_add(a: u64, b: u64) -> u64 {
    if a + b <= u64::MAX {
        (a + b) as u64
    } else {
        u64::MAX
    }
}

pub fn sat_inc_exec(x: u64) -> (r: u64)
    ensures
        r == sat_inc(x),
{
    if x == u64::MAX {
        x
    } else {
        x + 1
    }
}

fn sat_add_exec(a: u64, b: u64) -> (r: u64)
    ensures
        r == sat_add(a, b),
{
    if a <= u64::MAX - b {
        a + b
    } else {
        u64::MAX
    }
}

impl FilterMetrics {
    pub fn new() -> (m: FilterMetrics)
        ensures
            m.total == 0 && m.versions == 0 && m.delete_versions == 0 && m.filtered == 0
                && m.unique_key == 0 && m.mvcc_rollback_and_locks == 0,
    {
        FilterMetrics {
            total: 0,
            versions: 0,
            delete_versions: 0,
            filtered: 0,
            unique_key: 0,
            mvcc_rollback_and_locks: 0,
        }
    }

    /// Folds another pass's counters into this one.
    pub fn merge(&mut self, other: &FilterMetrics)
        ensures
            final(self).total == sat_add(old(self).total, other.total),
            final(self).versions == sat_add(old(self).versions, other.versions),
            final(self).delete_versions == sat_add(old(self).delete_versions,
                other.delete_versions),
            final(self).filtered == sat_add(old(self).filtered, other.filtered),
            final(self).unique_key == sat_add(old(self).unique_key, other.unique_key),
            final(self).mvcc_rollback_and_locks == sat_add(old(self).mvcc_rollback_and_locks,
                other.mvcc_rollback_and_locks),
    {
        self.total = sat_add_exec(self.total, other.total);
        self.versions = sat_add_exec(self.versions, other.versions);
        self.delete_versions = sat_add_exec(self.delete_versions, other.delete_versions);
        self.filtered = sat_add_exec(self.filtered, other.filtered);
        self.unique_key = sat_add_exec(self.unique_key, other.unique_key);
        self.mvcc_rollback_and_locks = sat_add_exec(self.mvcc_rollback_and_locks,
            other.mvcc_rollback_and_locks);
    }

    /// Publishes the counters that the cache reports externally.
    pub fn flush(&self, sink: &mut GcMetricsSink)
        ensures
            final(sink).total == sat_add(old(sink).total, self.total),
            final(sink).below_safe_point_total == sat_add(old(sink).below_safe_point_total,
                self.versions),
            final(sink).filtered == sat_add(old(sink).filtered, self.filtered),
            final(sink).below_safe_point_unique == sat_add(old(sink).below_safe_point_unique,
                self.unique_key),
    {
        sink.total = sat_add_exec(sink.total, self.total);
        sink.below_safe_point_total = sat_add_exec(sink.below_safe_point_total, self.versions);
        sink.filtered = sat_add_exec(sink.filtered, self.filtered);
        sink.below_safe_point_unique = sat_add_exec(sink.below_safe_point_unique,
            self.unique_key);
    }
}

/// The externally visible GC counters that `FilterMetrics::flush` feeds.
pub struct GcMetricsSink {
    pub total: u64,
    pub below_safe_point_total: u64,
    pub filtered: u64,
    pub below_safe_point_unique: u64,
}

impl GcMetricsSink {
    pub fn new() -> (s: GcMetricsSink)
        ensures
            s.total == 0 && s.below_safe_point_total == 0 && s.filtered == 0
                && s.below_safe_point_unique == 0,
    {
        GcMetricsSink { total: 0, below_safe_point_total: 0, filtered: 0,
            below_safe_point_unique: 0 }
    }
}

/// The ghost state of a filter pass: its scan registers, its counters, and
/// the current contents of the two columns it rewrites.
pub ghost struct FilterStateView {
    pub mvcc_prefix: Seq<u8>,
    pub last_user_key: Seq<u8>,
    pub remove_older: bool,
    pub cached_mvcc: Option<Seq<u8>>,
    pub cached_skiplist: Option<Seq<u8>>,
    pub total: u64,
    pub versions: u64,
    pub delete_versions: u64,
    pub filtered: u64,
    pub unique_key: u64,
    pub mvcc_rollback_and_locks: u64,
    pub write_col: Seq<KvView>,
    pub default_col: Seq<KvView>,
}

/// The seek key that finds the payloads of a write record: the MVCC user
/// key at the record's start timestamp, with the highest sequence so that it
/// sorts at the head of that user key's run.
pub open spec fn payload_seek_key(prefix: Seq<u8>, start_ts: u64) -> Seq<u8> {
    spec_encode_key(spec_append_ts(prefix, start_ts), MAX_SEQUENCE_NUMBER, ValueType::Value)
}

/// Removes, starting at position `p`, the run of entries whose user key is
/// `u`: the erase of a filtered record's payloads in the default column.
pub open spec fn purge_from(d: Seq<KvView>, p: int, u: Seq<u8>) -> Seq<KvView>
    decreases d.len() - p,
{
    if 0 <= p < d.len() && crate::keys::spec_same_user(d[p].0, u) {
        purge_from(d.remove(p), p, u)
    } else {
        d
    }
}

/// The default column after dropping the payloads of a filtered put.
pub open spec fn spec_purge_default(d: Seq<KvView>, prefix: Seq<u8>, start_ts: u64) -> Seq<
    KvView,
> {
    let u = spec_append_ts(prefix, start_ts);
    purge_from(d, lower_bound(d, payload_seek_key(prefix, start_ts)), u)
}

/// One scanned entry's exact effect on the filter state and the columns.
pub open spec fn filter_step(f: FilterStateView, key: Seq<u8>, value: Seq<u8>, safe_point: u64,
    oldest_seqno: u64) -> FilterStateView
    recommends
        key_decodable(key),
{
    let f0 = FilterStateView { total: sat_inc(f.total), ..f };
    let user_key = spec_user_key(key);
    if !key_decodable(key) {
        f0
    } else if spec_sequence(key) > oldest_seqno {
        f0
    } else if user_key.len() < 8 {
        f0
    } else {
        let prefix = spec_mvcc_prefix(user_key);
        let commit_ts = spec_commit_ts(user_key);
        if commit_ts > safe_point {
            f0
        } else if spec_v_type(key) == ValueType::Deletion {
            let f1 = match f0.cached_skiplist {
                Some(csd) => FilterStateView {
                    filtered: sat_inc(f0.filtered),
                    write_col: col_remove(f0.write_col, csd),
                    ..f0
                },
                None => f0,
            };
            FilterStateView { cached_skiplist: Some(key), ..f1 }
        } else {
            let skip_step = match f0.cached_skiplist {
                Some(csd) => crate::keys::spec_same_user(csd, user_key),
                None => false,
            };
            if skip_step {
                FilterStateView {
                    filtered: sat_inc(f0.filtered),
                    write_col: col_remove(f0.write_col, key),
                    ..f0
                }
            } else {
                let f1 = match f0.cached_skiplist {
                    Some(csd) => FilterStateView {
                        filtered: sat_inc(f0.filtered),
                        write_col: col_remove(f0.write_col, csd),
                        cached_skiplist: None,
                        ..f0
                    },
                    None => f0,
                };
                if user_key == f1.last_user_key {
                    FilterStateView {
                        filtered: sat_inc(f1.filtered),
                        write_col: col_remove(f1.write_col, key),
                        ..f1
                    }
                } else {
                    let f2 = FilterStateView {
                        last_user_key: user_key,
                        versions: sat_inc(f1.versions),
                        ..f1
                    };
                    let f3 = if f2.mvcc_prefix != prefix {
                        let fa = FilterStateView {
                            unique_key: sat_inc(f2.unique_key),
                            mvcc_prefix: prefix,
                            remove_older: false,
                            ..f2
                        };
                        match fa.cached_mvcc {
                            Some(cmd) => FilterStateView {
                                filtered: sat_inc(fa.filtered),
                                write_col: col_remove(fa.write_col, cmd),
                                cached_mvcc: None,
                                ..fa
                            },
                            None => fa,
                        }
                    } else {
                        f2
                    };
                    if !write_parseable(value) {
                        f3
                    } else {
                        let w = spec_parse_write(value);
                        let filtered_flag = f3.remove_older;
                        let f4 = if !f3.remove_older {
                            match w.0 {
                                WriteType::Rollback | WriteType::Lock => FilterStateView {
                                    mvcc_rollback_and_locks: sat_inc(f3.mvcc_rollback_and_locks),
                                    ..f3
                                },
                                WriteType::Put => FilterStateView { remove_older: true, ..f3 },
                                WriteType::Delete => FilterStateView {
                                    delete_versions: sat_inc(f3.delete_versions),
                                    remove_older: true,
                                    cached_mvcc: Some(key),
                                    ..f3
                                },
                            }
                        } else {
                            f3
                        };
                        let really_filtered = filtered_flag || (f3.remove_older == false
                            && (w.0 == WriteType::Rollback || w.0 == WriteType::Lock));
                        if !really_filtered {
                            f4
                        } else {
                            let f5 = FilterStateView {
                                filtered: sat_inc(f4.filtered),
                                write_col: col_remove(f4.write_col, key),
                                ..f4
                            };
                            if w.0 == WriteType::Put && w.2 is None {
                                FilterStateView {
                                    default_col: spec_purge_default(f5.default_col,
                                        f5.mvcc_prefix, w.1),
                                    ..f5
                                }
                            } else {
                                f5
                            }
                        }
                    }
                }
            }
        }
    }
}

/// Whether scanning this entry reports a malformed key or record.
pub open spec fn filter_step_rejects(f: FilterStateView, key: Seq<u8>, value: Seq<u8>,
    safe_point: u64, oldest_seqno: u64) -> bool
    recommends
        key_decodable(key),
{
    let user_key = spec_user_key(key);
    if !key_decodable(key) {
        true
    } else if spec_sequence(key) > oldest_seqno {
        false
    } else if user_key.len() < 8 {
        true
    } else if spec_commit_ts(user_key) > safe_point {
        false
    } else if spec_v_type(key) == ValueType::Deletion {
        false
    } else if match f.cached_skiplist {
        Some(csd) => crate::keys::spec_same_user(csd, user_key),
        None => false,
    } {
        false
    } else if user_key == f.last_user_key {
        false
    } else {
        !write_parseable(value)
    }
}

/// The filter state after scanning a whole sequence of entries.
pub open spec fn filter_fold(f: FilterStateView, entries: Seq<KvView>, safe_point: u64,
    oldest_seqno: u64) -> FilterStateView
    decreases entries.len(),
{
    if entries.len() == 0 {
        f
    } else {
        filter_fold(filter_step(f, entries[0].0, entries[0].1, safe_point, oldest_seqno),
            entries.skip(1), safe_point, oldest_seqno)
    }
}

pub proof fn lemma_filter_fold_push(f: FilterStateView, entries: Seq<KvView>, e: KvView,
    safe_point: u64, oldest_seqno: u64)
    ensures
        filter_fold(f, entries.push(e), safe_point, oldest_seqno) == filter_step(
            filter_fold(f, entries, safe_point, oldest_seqno), e.0, e.1, safe_point,
            oldest_seqno),
    decreases entries.len(),
{
    if entries.len() == 0 {
        assert(entries.push(e)[0] == e);
        assert(entries.push(e).skip(1) =~= Seq::<KvView>::empty());
        assert(filter_fold(filter_step(f, e.0, e.1, safe_point, oldest_seqno),
            entries.push(e).skip(1), safe_point, oldest_seqno) == filter_step(f, e.0, e.1,
            safe_point, oldest_seqno));
        assert(filter_fold(f, entries, safe_point, oldest_seqno) == f);
    } else {
        assert(entries.push(e)[0] == entries[0]);
        assert(entries.push(e).skip(1) =~= entries.skip(1).push(e));
        lemma_filter_fold_push(filter_step(f, entries[0].0, entries[0].1, safe_point,
            oldest_seqno), entries.skip(1), e, safe_point, oldest_seqno);
        assert(filter_fold(f, entries.push(e), safe_point, oldest_seqno) == filter_fold(
            filter_step(f, entries[0].0, entries[0].1, safe_point, oldest_seqno),
            entries.skip(1).push(e), safe_point, oldest_seqno));
        assert(filter_fold(f, entries, safe_point, oldest_seqno) == filter_fold(
            filter_step(f, entries[0].0, entries[0].1, safe_point, oldest_seqno),
            entries.skip(1), safe_point, oldest_seqno));
    }
}

/// A malformed internal key or write record seen by the scan.
#[derive(Clone, Copy, PartialEq, Eq, Structural, Debug)]
pub enum FilterError {
    InvalidWriteKey,
    InvalidWriteValue,
}

/// The executable filter: the scan registers of one GC pass.
pub struct Filter {
    pub safe_point: u64,
    pub oldest_seqno: u64,
    pub mvcc_key_prefix: Vec<u8>,
    pub last_user_key: Vec<u8>,
    pub remove_older: bool,
    pub cached_mvcc_delete_key: Option<Vec<u8>>,
    pub cached_skiplist_delete_key: Option<Vec<u8>>,
    pub metrics: FilterMetrics,
}

impl Filter {
    /// The ghost state of this filter over the given column contents.
    pub open spec fn state_with(&self, w: Seq<KvView>, d: Seq<KvView>) -> FilterStateView {
        FilterStateView {
            mvcc_prefix: self.mvcc_key_prefix@,
            last_user_key: self.last_user_key@,
            remove_older: self.remove_older,
            cached_mvcc: match self.cached_mvcc_delete_key {
                Some(k) => Some(k@),
                None => None,
            },
            cached_skiplist: match self.cached_skiplist_delete_key {
                Some(k) => Some(k@),
                None => None,
            },
            total: self.metrics.total,
            versions: self.metrics.versions,
            delete_versions: self.metrics.delete_versions,
            filtered: self.metrics.filtered,
            unique_key: self.metrics.unique_key,
            mvcc_rollback_and_locks: self.metrics.mvcc_rollback_and_locks,
            write_col: w,
            default_col: d,
        }
    }

    /// Cached keys must be decodable so that they can be re-examined.
    pub open spec fn inv(&self) -> bool {
        &&& match self.cached_mvcc_delete_key {
            Some(k) => key_decodable(k@),
            None => true,
        }
        &&& match self.cached_skiplist_delete_key {
            Some(k) => key_decodable(k@),
            None => true,
        }
    }

    pub fn new(safe_point: u64, oldest_seqno: u64) -> (f: Filter)
        ensures
            f.inv(),
            f.safe_point == safe_point,
            f.oldest_seqno == oldest_seqno,
            forall|w: Seq<KvView>, d: Seq<KvView>| #[trigger] f.state_with(w, d)
                == initial_filter_state(w, d),
    {
        let f = Filter {
            safe_point,
            oldest_seqno,
            mvcc_key_prefix: Vec::new(),
            last_user_key: Vec::new(),
            remove_older: false,
            cached_mvcc_delete_key: None,
            cached_skiplist_delete_key: None,
            metrics: FilterMetrics::new(),
        };
        proof {
            assert forall|w: Seq<KvView>, d: Seq<KvView>| #[trigger] f.state_with(w, d)
                == initial_filter_state(w, d) by {
                assert(f.mvcc_key_prefix@ =~= Seq::<u8>::empty());
                assert(f.last_user_key@ =~= Seq::<u8>::empty());
            }
        }
        f
    }

    /// Examines one scanned entry, removing it or previously cached entries
    /// from the columns exactly as the functional model `filter_step` says.
    /// The scan reports, and otherwise skips, malformed keys and records.
    pub fn filter_key(&mut self, key: &Vec<u8>, value: &Vec<u8>, write_cf: &mut Column,
        default_cf: &mut Column) -> (r: Result<(), FilterError>)
        requires
            old(self).inv(),
            old(write_cf).wf(),
            old(default_cf).wf(),
        ensures
            final(self).inv(),
            final(write_cf).wf(),
            final(default_cf).wf(),
            final(self).safe_point == old(self).safe_point,
            final(self).oldest_seqno == old(self).oldest_seqno,
            final(self).state_with(final(write_cf)@, final(default_cf)@) == filter_step(
                old(self).state_with(old(write_cf)@, old(default_cf)@), key@, value@,
                old(self).safe_point, old(self).oldest_seqno),
            r is Err <==> filter_step_rejects(old(self).state_with(old(write_cf)@,
                old(default_cf)@), key@, value@, old(self).safe_point, old(self).oldest_seqno),
    {
        let ghost fv = self.state_with(write_cf@, default_cf@);
        let ghost sp = self.safe_point;
        let ghost os = self.oldest_seqno;
        self.metrics.total = sat_inc_exec(self.metrics.total);
        if key.len() < 8 {
            return Err(FilterError::InvalidWriteKey);
        }
        let decoded = crate::keys::decode_key(key);
        if decoded.sequence > self.oldest_seqno {
            return Ok(());
        }
        let split = crate::keys::split_ts(&decoded.user_key);
        let (prefix, commit_ts) = match split {
            Ok(p) => p,
            Err(()) => {
                return Err(FilterError::InvalidWriteKey);
            },
        };
        if commit_ts > self.safe_point {
            return Ok(());
        }
        if matches!(decoded.v_type, ValueType::Deletion) {
            let cached = self.cached_skiplist_delete_key.take();
            match cached {
                Some(csd) => {
                    self.metrics.filtered = sat_inc_exec(self.metrics.filtered);
                    let _ = write_cf.remove(&csd);
                },
                None => {},
            }
            self.cached_skiplist_delete_key = Some(crate::column::clone_bytes(key));
            return Ok(());
        }
        let mut csd_matches = false;
        match &self.cached_skiplist_delete_key {
            Some(csd) => {
                let cached_decoded = crate::keys::decode_key(csd);
                if crate::keys::bytes_eq(&cached_decoded.user_key, &decoded.user_key) {
                    csd_matches = true;
                }
            },
            None => {},
        }
        if csd_matches {
            self.metrics.filtered = sat_inc_exec(self.metrics.filtered);
            let _ = write_cf.remove(key);
            proof {
                assert(crate::keys::spec_same_user(self.cached_skiplist_delete_key.unwrap()@,
                    spec_user_key(key@)));
            }
            return Ok(());
        }
        let cached = self.cached_skiplist_delete_key.take();
        match cached {
            Some(csd) => {
                proof {
                    assert(!crate::keys::spec_same_user(csd@, spec_user_key(key@)));
                }
                self.metrics.filtered = sat_inc_exec(self.metrics.filtered);
                let _ = write_cf.remove(&csd);
            },
            None => {},
        }
        if crate::keys::bytes_eq(&decoded.user_key, &self.last_user_key) {
            self.metrics.filtered = sat_inc_exec(self.metrics.filtered);
            let _ = write_cf.remove(key);
            return Ok(());
        }
        self.last_user_key = decoded.user_key;
        self.metrics.versions = sat_inc_exec(self.metrics.versions);
        if !crate::keys::bytes_eq(&self.mvcc_key_prefix, &prefix) {
            self.metrics.unique_key = sat_inc_exec(self.metrics.unique_key);
            self.mvcc_key_prefix = crate::column::clone_bytes(&prefix);
            self.remove_older = false;
            let cached_mvcc = self.cached_mvcc_delete_key.take();
            match cached_mvcc {
                Some(cmd) => {
                    self.metrics.filtered = sat_inc_exec(self.metrics.filtered);
                    let _ = write_cf.remove(&cmd);
                },
                None => {},
            }
        }
        let parsed = crate::write_record::parse_write(value);
        let w = match parsed {
            Ok(w) => w,
            Err(()) => {
                return Err(FilterError::InvalidWriteValue);
            },
        };
        let mut filtered_flag = self.remove_older;
        if !self.remove_older {
            match w.write_type {
                WriteType::Rollback | WriteType::Lock => {
                    self.metrics.mvcc_rollback_and_locks = sat_inc_exec(
                        self.metrics.mvcc_rollback_and_locks);
                    filtered_flag = true;
                },
                WriteType::Put => {
                    self.remove_older = true;
                },
                WriteType::Delete => {
                    self.metrics.delete_versions = sat_inc_exec(self.metrics.delete_versions);
                    self.remove_older = true;
                    self.cached_mvcc_delete_key = Some(crate::column::clone_bytes(key));
                },
            }
        }
        if !filtered_flag {
            return Ok(());
        }
        self.metrics.filtered = sat_inc_exec(self.metrics.filtered);
        let _ = write_cf.remove(key);
        let is_bare_put = matches!(w.write_type, WriteType::Put) && w.short_value.is_none();
        if is_bare_put {
            self.purge_default_payloads(w.start_ts, default_cf);
        }
        Ok(())
    }

    /// Erases from the default column the payload run of a filtered put.
    fn purge_default_payloads(&self, start_ts: u64, default_cf: &mut Column)
        requires
            old(default_cf).wf(),
        ensures
            final(default_cf).wf(),
            final(default_cf)@ == spec_purge_default(old(default_cf)@, self.mvcc_key_prefix@,
                start_ts),
    {
        let user_key = crate::keys::append_ts(&self.mvcc_key_prefix, start_ts);
        let seek_key = crate::keys::encode_key(&user_key, MAX_SEQUENCE_NUMBER,
            ValueType::Value);
        let p = default_cf.seek(&seek_key);
        proof {
            crate::column::lemma_lower_bound_props(default_cf@, seek_key@);
        }
        let ghost d0 = default_cf@;
        let ghost u = user_key@;
        loop
            invariant
                default_cf.wf(),
                p <= default_cf@.len(),
                purge_from(d0, p as int, u) == purge_from(default_cf@, p as int, u),
            decreases default_cf@.len() - p,
        {
            if p >= default_cf.len() {
                return ;
            }
            let matches_user = crate::keys::user_key_matches(default_cf.key_at(p), &user_key);
            if !matches_user {
                return ;
            }
            let key_now = crate::column::clone_bytes(default_cf.key_at(p));
            let ghost dcur = default_cf@;
            let _ = default_cf.remove(&key_now);
            proof {
                crate::column::lemma_sorted_lower_bound_self(dcur, p as int);
                assert(purge_from(dcur, p as int, u) == purge_from(dcur.remove(p as int),
                    p as int, u));
            }
        }
    }

    /// Runs the filter over every write-column entry in `[start, end)`,
    /// following the functional model over exactly those entries.
    pub fn filter_keys_in_range(&mut self, start: &Vec<u8>, end: &Vec<u8>,
        write_cf: &mut Column, default_cf: &mut Column)
        requires
            old(self).inv(),
            old(write_cf).wf(),
            old(default_cf).wf(),
        ensures
            final(self).inv(),
            final(write_cf).wf(),
            final(default_cf).wf(),
            final(self).safe_point == old(self).safe_point,
            final(self).oldest_seqno == old(self).oldest_seqno,
            final(self).state_with(final(write_cf)@, final(default_cf)@) == filter_fold(
                old(self).state_with(old(write_cf)@, old(default_cf)@),
                col_range(old(write_cf)@, start@, end@), old(self).safe_point,
                old(self).oldest_seqno),
    {
        let ghost f0 = self.state_with(write_cf@, default_cf@);
        let ghost scanned = col_range(write_cf@, start@, end@);
        let ghost sp = self.safe_point;
        let ghost os = self.oldest_seqno;
        let entries = write_cf.entries_in_range(start, end);
        let mut i: usize = 0;
        proof {
            assert(scanned.take(0) =~= Seq::<KvView>::empty());
        }
        while i < entries.len()
            invariant
                i <= entries@.len(),
                entries@.map_values(|e: ColEntry| e@) == scanned,
                scanned.len() == entries@.len(),
                self.inv(),
                write_cf.wf(),
                default_cf.wf(),
                self.safe_point == sp,
                self.oldest_seqno == os,
                self.state_with(write_cf@, default_cf@) == filter_fold(f0,
                    scanned.take(i as int), sp, os),
            decreases entries@.len() - i,
        {
            proof {
                assert(scanned[i as int] == entries@[i as int]@);
                assert(scanned.take(i as int + 1) =~= scanned.take(i as int).push(
                    scanned[i as int]));
                lemma_filter_fold_push(f0, scanned.take(i as int), scanned[i as int], sp, os);
            }
            let e = &entries[i];
            let _ = self.filter_key(&e.key, &e.value, write_cf, default_cf);
            i = i + 1;
        }
        proof {
            assert(scanned.take(i as int) =~= scanned);
        }
    }

    /// Flushes both cached delete keys, as happens when the pass ends.
    pub fn finish(&mut self, write_cf: &mut Column)
        requires
            old(self).inv(),
            old(write_cf).wf(),
        ensures
            final(self).inv(),
            final(write_cf).wf(),
            final(self).metrics == old(self).metrics,
            final(self).safe_point == old(self).safe_point,
            final(self).oldest_seqno == old(self).oldest_seqno,
            final(write_cf)@ == flush_cached(old(self).state_with(old(write_cf)@,
                Seq::empty())).write_col,
            forall|w: Seq<KvView>, d: Seq<KvView>| #[trigger] final(self).state_with(w, d) == (
            FilterStateView {
                cached_mvcc: None,
                cached_skiplist: None,
                ..old(self).state_with(w, d)
            }),
    {
        let cached_mvcc = self.cached_mvcc_delete_key.take();
        match cached_mvcc {
            Some(cmd) => {
                let _ = write_cf.remove(&cmd);
            },
            None => {},
        }
        let cached_skiplist = self.cached_skiplist_delete_key.take();
        match cached_skiplist {
            Some(csd) => {
                let _ = write_cf.remove(&csd);
            },
            None => {},
        }
    }

    /// Whether a cached MVCC delete key is pending.
    pub fn has_cached_mvcc_delete(&self) -> (r: bool)
        ensures
            r == (self.state_with(Seq::empty(), Seq::empty()).cached_mvcc is Some),
    {
        self.cached_mvcc_delete_key.is_some()
    }

    /// Whether a cached skiplist delete key is pending.
    pub fn has_cached_skiplist_delete(&self) -> (r: bool)
        ensures
            r == (self.state_with(Seq::empty(), Seq::empty()).cached_skiplist is Some),
    {
        self.cached_skiplist_delete_key.is_some()
    }
}

/// A fresh pass: empty registers and zero counters over given columns.
pub open spec fn initial_filter_state(w: Seq<KvView>, d: Seq<KvView>) -> FilterStateView {
    FilterStateView {
        mvcc_prefix: Seq::empty(),
        last_user_key: Seq::empty(),
        remove_older: false,
        cached_mvcc: None,
        cached_skiplist: None,
        total: 0,
        versions: 0,
        delete_versions: 0,
        filtered: 0,
        unique_key: 0,
        mvcc_rollback_and_locks: 0,
        write_col: w,
        default_col: d,
    }
}

/// A payload purge never grows the charge.
pub proof fn lemma_purge_from_size_le(d: Seq<KvView>, p: int, u: Seq<u8>)
    ensures
        crate::column::col_size(purge_from(d, p, u)) <= crate::column::col_size(d),
    decreases d.len() - p,
{
    if 0 <= p < d.len() && crate::keys::spec_same_user(d[p].0, u) {
        lemma_purge_from_size_le(d.remove(p), p, u);
        crate::column::lemma_col_size_remove(d, p);
    }
}

/// One filter step never grows either column's charge.
pub proof fn lemma_filter_step_size_le(f: FilterStateView, key: Seq<u8>, value: Seq<u8>,
    safe_point: u64, oldest_seqno: u64)
    ensures
        crate::column::col_size(filter_step(f, key, value, safe_point, oldest_seqno).write_col)
            <= crate::column::col_size(f.write_col),
        crate::column::col_size(filter_step(f, key, value, safe_point,
            oldest_seqno).default_col) <= crate::column::col_size(f.default_col),
{
    let w = f.write_col;
    crate::column::lemma_col_remove_size_le(w, key);
    match f.cached_skiplist {
        Some(csd) => {
            crate::column::lemma_col_remove_size_le(w, csd);
            let w1 = col_remove(w, csd);
            crate::column::lemma_col_remove_size_le(w1, key);
            match f.cached_mvcc {
                Some(cmd) => {
                    crate::column::lemma_col_remove_size_le(w1, cmd);
                    crate::column::lemma_col_remove_size_le(col_remove(w1, cmd), key);
                },
                None => {},
            }
        },
        None => {
            match f.cached_mvcc {
                Some(cmd) => {
                    crate::column::lemma_col_remove_size_le(w, cmd);
                    crate::column::lemma_col_remove_size_le(col_remove(w, cmd), key);
                },
                None => {},
            }
        },
    }
    let fs = filter_step(f, key, value, safe_point, oldest_seqno);
    if fs.default_col != f.default_col {
        lemma_purge_size_helper(f, key, value, safe_point, oldest_seqno);
    }
}

proof fn lemma_purge_size_helper(f: FilterStateView, key: Seq<u8>, value: Seq<u8>,
    safe_point: u64, oldest_seqno: u64)
    ensures
        crate::column::col_size(filter_step(f, key, value, safe_point,
            oldest_seqno).default_col) <= crate::column::col_size(f.default_col),
{
    if write_parseable(value) {
        let w = spec_parse_write(value);
        let u = spec_append_ts(spec_mvcc_prefix(spec_user_key(key)), w.1);
        lemma_purge_from_size_le(f.default_col, lower_bound(f.default_col, payload_seek_key(
            spec_mvcc_prefix(spec_user_key(key)), w.1)), u);
    }
}

/// A whole pass never grows either column's charge.
pub proof fn lemma_filter_fold_size_le(f: FilterStateView, entries: Seq<KvView>,
    safe_point: u64, oldest_seqno: u64)
    ensures
        crate::column::col_size(filter_fold(f, entries, safe_point, oldest_seqno).write_col)
            <= crate::column::col_size(f.write_col),
        crate::column::col_size(filter_fold(f, entries, safe_point, oldest_seqno).default_col)
            <= crate::column::col_size(f.default_col),
    decreases entries.len(),
{
    if entries.len() > 0 {
        lemma_filter_step_size_le(f, entries[0].0, entries[0].1, safe_point, oldest_seqno);
        lemma_filter_fold_size_le(filter_step(f, entries[0].0, entries[0].1, safe_point,
            oldest_seqno), entries.skip(1), safe_point, oldest_seqno);
    }
}

/// Flushing the cached keys never grows the charge.
pub proof fn lemma_flush_cached_size_le(f: FilterStateView)
    ensures
        crate::column::col_size(flush_cached(f).write_col) <= crate::column::col_size(
            f.write_col),
{
    match f.cached_mvcc {
        Some(cmd) => {
            crate::column::lemma_col_remove_size_le(f.write_col, cmd);
            match f.cached_skiplist {
                Some(csd) => {
                    crate::column::lemma_col_remove_size_le(crate::column::col_remove(
                        f.write_col, cmd), csd);
                },
                None => {},
            }
        },
        None => {
            match f.cached_skiplist {
                Some(csd) => {
                    crate::column::lemma_col_remove_size_le(f.write_col, csd);
                },
                None => {},
            }
        },
    }
}

/// The write column after flushing both cached delete keys.
pub open spec fn flush_cached(f: FilterStateView) -> FilterStateView {
    let w1 = match f.cached_mvcc {
        Some(cmd) => col_remove(f.write_col, cmd),
        None => f.write_col,
    };
    let w2 = match f.cached_skiplist {
        Some(csd) => col_remove(w1, csd),
        None => w1,
    };
    FilterStateView { write_col: w2, ..f }
}

} // verus!
