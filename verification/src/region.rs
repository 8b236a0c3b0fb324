//! Regions, their lifecycle states, and the list of read snapshots that a
//! cached region holds open.

use vstd::prelude::*;

use crate::keys::lex_lt;
use crate::column::clone_bytes;

verus! {

/// A contiguous half-open key range with an identity and an epoch version.
pub struct Region {
    pub id: u64,
    pub epoch_version: u64,
    pub start: Vec<u8>,
    pub end: Vec<u8>,
}

/// The ghost form of a region.
pub ghost struct RegionView {
    pub id: u64,
    pub epoch_version: u64,
    pub start: Seq<u8>,
    pub end: Seq<u8>,
}

impl View for Region {
    type V = RegionView;

    open spec fn view(&self) -> RegionView {
        RegionView {
            id: self.id,
            epoch_version: self.epoch_version,
            start: self.start@,
            end: self.end@,
        }
    }
}

impl Region {
    pub fn new(id: u64, epoch_version: u64, start: Vec<u8>, end: Vec<u8>) -> (r: Region)
        ensures
            r@ == (RegionView { id, epoch_version, start: start@, end: end@ }),
    {
        Region { id, epoch_version, start, end }
    }

    pub fn clone_region(&self) -> (r: Region)
        ensures
            r@ == self@,
    {
        Region {
            id: self.id,
            epoch_version: self.epoch_version,
            start: clone_bytes(&self.start),
            end: clone_bytes(&self.end),
        }
    }
}

/// Whether the two half-open ranges intersect.
pub open spec fn ranges_overlap(a: RegionView, b: RegionView) -> bool {
    lex_lt(a.start, b.end) && lex_lt(b.start, a.end)
}

/// The lifecycle of a cached region.
#[derive(Clone, Copy, PartialEq, Eq, Structural, Debug)]
pub enum RegionState {
    Pending,
    ReadyToLoad,
    Loading,
    LoadingCanceled,
    Active,
    Evicting,
    Deleting,
}

/// Why a region left the cache.
#[derive(Clone, Copy, PartialEq, Eq, Structural, Debug)]
pub enum EvictReason {
    AutoEvict,
    MemoryLimitReached,
    LoadFailed,
    LoadFailedWithoutStart,
}

/// The read timestamps a region holds open, with a reference count each.
pub struct SnapshotList {
    pairs: Vec<(u64, u64)>,
}

/// The first position carrying timestamp `ts`, or `s.len()` when absent.
pub open spec fn ts_index(s: Seq<(u64, u64)>, ts: u64) -> int
    decreases s.len(),
{
    if s.len() == 0 {
        0
    } else if s[0].0 == ts {
        0
    } else {
        1 + ts_index(s.skip(1), ts)
    }
}

pub open spec fn has_ts(s: Seq<(u64, u64)>, ts: u64) -> bool {
    ts_index(s, ts) < s.len()
}

/// How many references timestamp `ts` holds in `s`.
pub open spec fn spec_snap_count(s: Seq<(u64, u64)>, ts: u64) -> u64 {
    if has_ts(s, ts) {
        s[ts_index(s, ts)].1
    } else {
        0
    }
}

pub proof fn lemma_ts_index_props(s: Seq<(u64, u64)>, ts: u64)
    ensures
        0 <= ts_index(s, ts) <= s.len(),
        forall|j: int| 0 <= j < ts_index(s, ts) ==> (#[trigger] s[j]).0 != ts,
        ts_index(s, ts) < s.len() ==> s[ts_index(s, ts)].0 == ts,
    decreases s.len(),
{
    if s.len() > 0 && s[0].0 != ts {
        lemma_ts_index_props(s.skip(1), ts);
        let p = ts_index(s, ts);
        assert forall|j: int| 0 <= j < p implies (#[trigger] s[j]).0 != ts by {
            if j > 0 {
                assert(s.skip(1)[j - 1] == s[j]);
            }
        }
        if p < s.len() {
            assert(s.skip(1)[p - 1] == s[p]);
        }
    }
}

pub proof fn lemma_ts_index_from_props(s: Seq<(u64, u64)>, ts: u64, i: int)
    requires
        0 <= i <= s.len(),
        forall|j: int| 0 <= j < i ==> (#[trigger] s[j]).0 != ts,
        i < s.len() ==> s[i].0 == ts,
    ensures
        ts_index(s, ts) == i,
    decreases s.len(),
{
    if s.len() > 0 && i > 0 {
        assert(s[0].0 != ts);
        assert forall|j: int| 0 <= j < i - 1 implies (#[trigger] s.skip(1)[j]).0 != ts by {
            assert(s.skip(1)[j] == s[j + 1]);
        }
        if i - 1 < s.skip(1).len() {
            assert(s.skip(1)[i - 1] == s[i]);
        }
        lemma_ts_index_from_props(s.skip(1), ts, i - 1);
    }
}

/// The list after closing one reference at `ts`.
pub open spec fn spec_snap_remove(s: Seq<(u64, u64)>, ts: u64) -> Seq<(u64, u64)> {
    if !has_ts(s, ts) {
        s
    } else if spec_snap_count(s, ts) > 1 {
        s.update(ts_index(s, ts), (ts, (spec_snap_count(s, ts) - 1) as u64))
    } else {
        s.remove(ts_index(s, ts))
    }
}

/// The least timestamp in the list.
pub open spec fn spec_snap_min(s: Seq<(u64, u64)>) -> u64
    recommends
        s.len() > 0,
    decreases s.len(),
{
    if s.len() <= 1 {
        s[0].0
    } else if s[0].0 <= spec_snap_min(s.skip(1)) {
        s[0].0
    } else {
        spec_snap_min(s.skip(1))
    }
}

pub proof fn lemma_snap_min_props(s: Seq<(u64, u64)>)
    requires
        s.len() > 0,
    ensures
        exists|i: int| 0 <= i < s.len() && s[i].0 == spec_snap_min(s),
        forall|i: int| 0 <= i < s.len() ==> spec_snap_min(s) <= #[trigger] s[i].0,
    decreases s.len(),
{
    if s.len() == 1 {
        assert(s[0].0 == spec_snap_min(s));
    } else {
        lemma_snap_min_props(s.skip(1));
        assert forall|i: int| 0 <= i < s.len() implies spec_snap_min(s) <= #[trigger] s[i].0 by {
            if i > 0 {
                assert(s.skip(1)[i - 1] == s[i]);
                assert(spec_snap_min(s.skip(1)) <= s.skip(1)[i - 1].0);
            }
        }
        if s[0].0 <= spec_snap_min(s.skip(1)) {
            assert(s[0int].0 == spec_snap_min(s));
        } else {
            let j = choose|j: int| 0 <= j < s.skip(1).len() && s.skip(1)[j].0 == spec_snap_min(
                s.skip(1));
            assert(s[j + 1] == s.skip(1)[j]);
            assert(s[j + 1].0 == spec_snap_min(s));
        }
    }
}

impl View for SnapshotList {
    type V = Seq<(u64, u64)>;

    closed spec fn view(&self) -> Seq<(u64, u64)> {
        self.pairs@
    }
}

/// Timestamps are unique and every count is positive.
pub open spec fn snap_seq_wf(s: Seq<(u64, u64)>) -> bool {
    &&& forall|i: int, j: int| 0 <= i < j < s.len() ==> (#[trigger] s[i]).0 != (
    #[trigger] s[j]).0
    &&& forall|i: int| 0 <= i < s.len() ==> (#[trigger] s[i]).1 >= 1
}

impl SnapshotList {
    pub open spec fn wf(&self) -> bool {
        snap_seq_wf(self@)
    }

    pub fn new() -> (s: SnapshotList)
        ensures
            s@ == Seq::<(u64, u64)>::empty(),
            s.wf(),
    {
        SnapshotList { pairs: Vec::new() }
    }

    pub fn is_empty(&self) -> (r: bool)
        ensures
            r == (self@.len() == 0),
    {
        self.pairs.len() == 0
    }

    /// The smallest open read timestamp, if any.
    pub fn min_snapshot_ts(&self) -> (r: Option<u64>)
        ensures
            match r {
                Some(m) => self@.len() > 0 && m == spec_snap_min(self@),
                None => self@.len() == 0,
            },
    {
        if self.pairs.len() == 0 {
            return None;
        }
        let mut best: u64 = self.pairs[0].0;
        let mut i: usize = 1;
        while i < self.pairs.len()
            invariant
                1 <= i <= self@.len(),
                self@.len() > 0,
                best == spec_snap_min(self@.take(i as int)),
            decreases self@.len() - i,
        {
            proof {
                lemma_snap_min_take_step(self@, i as int);
            }
            if self.pairs[i].0 < best {
                best = self.pairs[i].0;
            }
            i = i + 1;
        }
        proof {
            assert(self@.take(i as int) =~= self@);
        }
        Some(best)
    }

    /// Opens one more reference at `ts`.
    pub fn add(&mut self, ts: u64)
        requires
            old(self).wf(),
            spec_snap_count(old(self)@, ts) < u64::MAX,
        ensures
            final(self).wf(),
            final(self)@ == if has_ts(old(self)@, ts) {
                old(self)@.update(ts_index(old(self)@, ts), (ts, (spec_snap_count(old(self)@, ts)
                    + 1) as u64))
            } else {
                old(self)@.push((ts, 1u64))
            },
            has_ts(final(self)@, ts),
            spec_snap_count(final(self)@, ts) == spec_snap_count(old(self)@, ts) + 1,
            forall|t: u64| t != ts ==> spec_snap_count(final(self)@, t) == spec_snap_count(
                old(self)@, t),
            spec_snap_min(final(self)@) <= ts,
            final(self)@.len() > 0,
    {
        let ghost s = self@;
        let mut i: usize = 0;
        while i < self.pairs.len()
            invariant
                i <= s.len(),
                self@ == s,
                forall|j: int| 0 <= j < i ==> (#[trigger] s[j]).0 != ts,
                old(self).wf(),
                s == old(self)@,
                spec_snap_count(s, ts) < u64::MAX,
            decreases s.len() - i,
        {
            if self.pairs[i].0 == ts {
                proof {
                    lemma_ts_index_from_props(s, ts, i as int);
                }
                let c = self.pairs[i].1;
                let _ = self.pairs.remove(i);
                self.pairs.insert(i, (ts, c + 1));
                proof {
                    assert(self@ =~= s.update(i as int, (ts, (c + 1) as u64)));
                    lemma_snap_update_counts(s, i as int, ts, (c + 1) as u64);
                    lemma_snap_min_props(self@);
                    assert(spec_snap_min(self@) <= self@[i as int].0);
                }
                return ;
            }
            i = i + 1;
        }
        proof {
            lemma_ts_index_from_props(s, ts, s.len() as int);
        }
        self.pairs.push((ts, 1));
        proof {
            assert(self@ =~= s.push((ts, 1u64)));
            lemma_snap_push_counts(s, ts, 1u64);
            lemma_snap_min_props(self@);
            assert(spec_snap_min(self@) <= self@[s.len() as int].0);
        }
    }

    /// Closes one reference at `ts`; reports whether one was open.
    pub fn remove(&mut self, ts: u64) -> (r: bool)
        requires
            old(self).wf(),
        ensures
            final(self).wf(),
            r == has_ts(old(self)@, ts),
            final(self)@ == spec_snap_remove(old(self)@, ts),
    {
        let ghost s = self@;
        let mut i: usize = 0;
        while i < self.pairs.len()
            invariant
                i <= s.len(),
                self@ == s,
                forall|j: int| 0 <= j < i ==> (#[trigger] s[j]).0 != ts,
                old(self).wf(),
                s == old(self)@,
            decreases s.len() - i,
        {
            if self.pairs[i].0 == ts {
                proof {
                    lemma_ts_index_from_props(s, ts, i as int);
                }
                let c = self.pairs[i].1;
                if c <= 1 {
                    let _ = self.pairs.remove(i);
                    proof {
                        assert(self@ =~= s.remove(i as int));
                        assert forall|a: int, b: int| 0 <= a < b < self@.len() implies (
                        #[trigger] self@[a]).0 != (#[trigger] self@[b]).0 by {
                            let a0 = if a < i { a } else { a + 1 };
                            let b0 = if b < i { b } else { b + 1 };
                            assert(self@[a] == s[a0] && self@[b] == s[b0]);
                        }
                    }
                } else {
                    let _ = self.pairs.remove(i);
                    self.pairs.insert(i, (ts, c - 1));
                    proof {
                        assert(self@ =~= s.update(i as int, (ts, (c - 1) as u64)));
                    }
                }
                return true;
            }
            i = i + 1;
        }
        proof {
            lemma_ts_index_from_props(s, ts, s.len() as int);
        }
        false
    }
}

/// Two lists with the same timestamps in the same positions index alike.
proof fn lemma_ts_index_same_keys(s1: Seq<(u64, u64)>, s2: Seq<(u64, u64)>, ts: u64)
    requires
        s1.len() == s2.len(),
        forall|j: int| 0 <= j < s1.len() ==> (#[trigger] s1[j]).0 == (#[trigger] s2[j]).0,
    ensures
        ts_index(s1, ts) == ts_index(s2, ts),
    decreases s1.len(),
{
    if s1.len() > 0 {
        assert(s1[0].0 == s2[0].0);
        if s1[0].0 != ts {
            assert forall|j: int| 0 <= j < s1.skip(1).len() implies (
            #[trigger] s1.skip(1)[j]).0 == (#[trigger] s2.skip(1)[j]).0 by {
                assert(s1.skip(1)[j] == s1[j + 1]);
                assert(s2.skip(1)[j] == s2[j + 1]);
            }
            lemma_ts_index_same_keys(s1.skip(1), s2.skip(1), ts);
        }
    }
}

/// Updating the first occurrence of `ts` sets its count and touches no other.
proof fn lemma_snap_update_counts(s: Seq<(u64, u64)>, i: int, ts: u64, c: u64)
    requires
        0 <= i < s.len(),
        s[i].0 == ts,
        forall|j: int| 0 <= j < i ==> (#[trigger] s[j]).0 != ts,
    ensures
        has_ts(s.update(i, (ts, c)), ts),
        spec_snap_count(s.update(i, (ts, c)), ts) == c,
        forall|t: u64| t != ts ==> spec_snap_count(s.update(i, (ts, c)), t) == spec_snap_count(
            s, t),
{
    let up = s.update(i, (ts, c));
    assert(forall|j: int| 0 <= j < s.len() ==> (#[trigger] up[j]).0 == (#[trigger] s[j]).0);
    lemma_ts_index_from_props(s, ts, i);
    lemma_ts_index_same_keys(s, up, ts);
    assert forall|t: u64| t != ts implies spec_snap_count(up, t) == spec_snap_count(s, t) by {
        lemma_ts_index_same_keys(s, up, t);
        lemma_ts_index_props(s, t);
        let q = ts_index(s, t);
        if q < s.len() {
            assert(s[q].0 == t);
            assert(q != i);
            assert(up[q] == s[q]);
        }
    }
}

/// Appending a fresh timestamp gives it its count and touches no other.
proof fn lemma_snap_push_counts(s: Seq<(u64, u64)>, ts: u64, c: u64)
    requires
        forall|j: int| 0 <= j < s.len() ==> (#[trigger] s[j]).0 != ts,
    ensures
        has_ts(s.push((ts, c)), ts),
        spec_snap_count(s.push((ts, c)), ts) == c,
        forall|t: u64| t != ts ==> spec_snap_count(s.push((ts, c)), t) == spec_snap_count(s, t),
{
    let up = s.push((ts, c));
    assert(forall|j: int| 0 <= j < s.len() ==> up[j] == #[trigger] s[j]);
    assert(up[s.len() as int].0 == ts);
    lemma_ts_index_from_props(up, ts, s.len() as int);
    assert forall|t: u64| t != ts implies spec_snap_count(up, t) == spec_snap_count(s, t) by {
        lemma_ts_index_props(s, t);
        let q = ts_index(s, t);
        if q < s.len() {
            lemma_ts_index_from_props(up, t, q);
        } else {
            assert forall|j: int| 0 <= j < up.len() implies (#[trigger] up[j]).0 != t by {
                if j < s.len() {
                    assert(up[j] == s[j]);
                }
            }
            lemma_ts_index_from_props(up, t, up.len() as int);
        }
    }
}

proof fn lemma_snap_min_take_step(s: Seq<(u64, u64)>, i: int)
    requires
        1 <= i < s.len(),
    ensures
        spec_snap_min(s.take(i + 1)) == if s[i].0 < spec_snap_min(s.take(i)) {
            s[i].0
        } else {
            spec_snap_min(s.take(i))
        },
{
    lemma_snap_min_snoc(s.take(i + 1));
    assert(s.take(i + 1).drop_last() =~= s.take(i));
    assert(s.take(i + 1).last() == s[i]);
}

/// The minimum of a list with at least two entries splits on its last one.
proof fn lemma_snap_min_snoc(s: Seq<(u64, u64)>)
    requires
        s.len() >= 2,
    ensures
        spec_snap_min(s) == if s.last().0 < spec_snap_min(s.drop_last()) {
            s.last().0
        } else {
            spec_snap_min(s.drop_last())
        },
    decreases s.len(),
{
    if s.len() == 2 {
        assert(s.skip(1) =~= seq![s[1]]);
        assert(s.drop_last() =~= seq![s[0]]);
        assert(spec_snap_min(s.skip(1)) == s[1].0);
        assert(spec_snap_min(s.drop_last()) == s[0].0);
    } else {
        lemma_snap_min_snoc(s.skip(1));
        assert(s.skip(1).drop_last() =~= s.drop_last().skip(1));
        assert(s.skip(1).last() == s.last());
        assert(s.drop_last()[0] == s[0]);
        assert(s.drop_last().len() >= 2);
    }
}

} // verus!
