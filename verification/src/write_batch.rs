//! The split write batch of the disk engine's apply path: a large batch is
//! carved into bounded sub-batches so that committing it never blocks the
//! write thread on one huge batch.

use vstd::prelude::*;

verus! {

/// The number of sub-batches past which the batch should be committed.
pub const WRITE_BATCH_MAX_BATCH: usize = 16;

/// The number of operations one sub-batch holds.
pub const WRITE_BATCH_LIMIT: usize = 16;

/// One buffered operation.
pub enum WriteBatchCmd {
    PutCmd(Vec<u8>, Vec<u8>),
    PutCfCmd(Vec<u8>, Vec<u8>, Vec<u8>),
    DeleteCmd(Vec<u8>),
    DeleteCfCmd(Vec<u8>, Vec<u8>),
    DeleteRangeCmd(Vec<u8>, Vec<u8>),
    DeleteRangeCfCmd(Vec<u8>, Vec<u8>, Vec<u8>),
}

/// One sub-batch: a run of buffered operations.
pub struct RawWriteBatch {
    pub cmds: Vec<WriteBatchCmd>,
}

impl RawWriteBatch {
    pub fn new() -> (b: RawWriteBatch)
        ensures
            b.cmds@.len() == 0,
    {
        RawWriteBatch { cmds: Vec::new() }
    }
}

/// The split write batch: operations go to the sub-batch at `index`, and a
/// full sub-batch opens the next one when splitting is enabled. A save
/// point remembers both the sub-batch and its fill, so a rollback drops
/// everything buffered since.
pub struct RocksWriteBatch {
    pub wbs: Vec<RawWriteBatch>,
    pub save_points: Vec<(usize, usize)>,
    pub index: usize,
    pub cur_batch_size: usize,
    pub batch_size_limit: usize,
    pub enable_batch_vec: bool,
}

/// What one buffered operation does to the batch: the split bookkeeping
/// steps (a full sub-batch opens the next one when splitting is enabled),
/// and the operation lands at the end of the sub-batch now current.
pub open spec fn push_cmd_effect(pre: RocksWriteBatch, post: RocksWriteBatch,
    cmd: WriteBatchCmd) -> bool {
    let switched = pre.enable_batch_vec && pre.cur_batch_size >= WRITE_BATCH_LIMIT;
    let idx: int = if switched {
        pre.index + 1
    } else {
        pre.index as int
    };
    let pre_cmds = if idx < pre.wbs@.len() {
        pre.wbs@[idx].cmds@
    } else {
        Seq::<WriteBatchCmd>::empty()
    };
    &&& post.index == idx
    &&& post.cur_batch_size == if switched {
        1int
    } else if pre.cur_batch_size < usize::MAX {
        pre.cur_batch_size + 1
    } else {
        pre.cur_batch_size as int
    }
    &&& post.save_points@ == pre.save_points@
    &&& post.enable_batch_vec == pre.enable_batch_vec
    &&& post.wbs@.len() == if idx < pre.wbs@.len() {
        pre.wbs@.len() as int
    } else {
        idx + 1
    }
    &&& forall|i: int| 0 <= i < pre.wbs@.len() && i != idx ==> post.wbs@[i] == pre.wbs@[i]
    &&& post.wbs@[idx].cmds@ == pre_cmds.push(cmd)
}

impl RocksWriteBatch {
    /// Well-formedness: the current sub-batch exists; with splitting on the
    /// fill stays within the bound; save points sit at or before the
    /// current sub-batch, stack in order, and never past their sub-batch's
    /// fill.
    pub open spec fn wf(&self) -> bool {
        &&& self.index < self.wbs@.len()
        &&& self.batch_size_limit == WRITE_BATCH_LIMIT
        &&& (self.enable_batch_vec ==> self.cur_batch_size <= self.batch_size_limit)
        &&& forall|i: int| 0 <= i < self.save_points@.len() ==> (#[trigger] self.save_points@[
        i]).0 <= self.index
        &&& forall|i: int, j: int|
            0 <= i < j < self.save_points@.len() ==> ((#[trigger] self.save_points@[i]).0 < (
            #[trigger] self.save_points@[j]).0 || (self.save_points@[i].0 == self.save_points@[
            j].0 && self.save_points@[i].1 <= self.save_points@[j].1))
        &&& forall|i: int| 0 <= i < self.save_points@.len() ==> (#[trigger] self.save_points@[
        i]).1 <= self.wbs@[self.save_points@[i].0 as int].cmds@.len()
    }

    pub fn new(enable_batch_vec: bool) -> (b: RocksWriteBatch)
        ensures
            b.wf(),
            b.index == 0,
            b.cur_batch_size == 0,
            b.wbs@.len() == 1,
            b.wbs@[0].cmds@.len() == 0,
            b.save_points@.len() == 0,
            b.enable_batch_vec == enable_batch_vec,
    {
        let mut wbs: Vec<RawWriteBatch> = Vec::new();
        wbs.push(RawWriteBatch::new());
        RocksWriteBatch {
            wbs,
            save_points: Vec::new(),
            index: 0,
            cur_batch_size: 0,
            batch_size_limit: WRITE_BATCH_LIMIT,
            enable_batch_vec,
        }
    }

    /// The batch a fresh engine hands out with a capacity hint; the hint
    /// only pre-sizes buffers.
    pub fn with_capacity(enable_batch_vec: bool, cap: usize) -> (b: RocksWriteBatch)
        ensures
            b.wf(),
            b.index == 0,
            b.cur_batch_size == 0,
            b.wbs@.len() == 1,
            b.wbs@[0].cmds@.len() == 0,
            b.save_points@.len() == 0,
            b.enable_batch_vec == enable_batch_vec,
    {
        RocksWriteBatch::new(enable_batch_vec)
    }

    /// Steps the split bookkeeping before an operation: a full sub-batch
    /// opens the next one when splitting is enabled, and the operation is
    /// counted.
    fn check_switch_batch(&mut self)
        requires
            old(self).wf(),
        ensures
            final(self).wf(),
            final(self).enable_batch_vec == old(self).enable_batch_vec,
            final(self).save_points@ == old(self).save_points@,
            if old(self).enable_batch_vec && old(self).cur_batch_size >= WRITE_BATCH_LIMIT {
                &&& final(self).index == old(self).index + 1
                &&& final(self).cur_batch_size == 1
            } else {
                &&& final(self).index == old(self).index
                &&& final(self).cur_batch_size == if old(self).cur_batch_size < usize::MAX {
                    old(self).cur_batch_size + 1
                } else {
                    old(self).cur_batch_size as int
                }
            },
            final(self).index >= old(self).index,
            final(self).wbs@.len() == if final(self).index < old(self).wbs@.len() {
                old(self).wbs@.len() as int
            } else {
                final(self).index + 1
            },
            forall|i: int| 0 <= i < old(self).wbs@.len() ==> final(self).wbs@[i] == old(
                self).wbs@[i],
            final(self).index >= old(self).wbs@.len() ==> final(self).wbs@[final(
                self).index as int].cmds@.len() == 0,
    {
        let n = self.wbs.len();
        if self.enable_batch_vec && self.batch_size_limit > 0 && self.cur_batch_size
            >= self.batch_size_limit {
            self.index = self.index + 1;
            self.cur_batch_size = 0;
            if self.index >= self.wbs.len() {
                self.wbs.push(RawWriteBatch::new());
            }
        }
        if self.cur_batch_size < usize::MAX {
            self.cur_batch_size = self.cur_batch_size + 1;
        }
    }

    /// Buffers one operation into the current sub-batch.
    fn push_cmd(&mut self, cmd: WriteBatchCmd)
        requires
            old(self).wf(),
        ensures
            final(self).wf(),
            push_cmd_effect(*old(self), *final(self), cmd),
    {
        let ghost pre = *self;
        self.check_switch_batch();
        let at = self.index;
        let ghost mid = *self;
        let mut b = self.wbs.remove(at);
        b.cmds.push(cmd);
        self.wbs.insert(at, b);
        proof {
            assert(self.wbs@ =~= mid.wbs@.update(at as int, self.wbs@[at as int]));
            let switched = pre.enable_batch_vec && pre.cur_batch_size >= WRITE_BATCH_LIMIT;
            let idx: int = if switched {
                pre.index + 1
            } else {
                pre.index as int
            };
            if idx >= pre.wbs@.len() {
                assert(mid.wbs@[idx].cmds@ =~= Seq::<WriteBatchCmd>::empty());
                assert(self.wbs@[idx].cmds@ =~= Seq::<WriteBatchCmd>::empty().push(cmd));
            }
        }
    }

    pub fn put(&mut self, key: Vec<u8>, value: Vec<u8>)
        requires
            old(self).wf(),
        ensures
            final(self).wf(),
            push_cmd_effect(*old(self), *final(self), WriteBatchCmd::PutCmd(key, value)),
    {
        self.push_cmd(WriteBatchCmd::PutCmd(key, value));
    }

    pub fn put_cf(&mut self, cf: Vec<u8>, key: Vec<u8>, value: Vec<u8>)
        requires
            old(self).wf(),
        ensures
            final(self).wf(),
            push_cmd_effect(*old(self), *final(self), WriteBatchCmd::PutCfCmd(cf, key, value)),
    {
        self.push_cmd(WriteBatchCmd::PutCfCmd(cf, key, value));
    }

    pub fn delete(&mut self, key: Vec<u8>)
        requires
            old(self).wf(),
        ensures
            final(self).wf(),
            push_cmd_effect(*old(self), *final(self), WriteBatchCmd::DeleteCmd(key)),
    {
        self.push_cmd(WriteBatchCmd::DeleteCmd(key));
    }

    pub fn delete_cf(&mut self, cf: Vec<u8>, key: Vec<u8>)
        requires
            old(self).wf(),
        ensures
            final(self).wf(),
            push_cmd_effect(*old(self), *final(self), WriteBatchCmd::DeleteCfCmd(cf, key)),
    {
        self.push_cmd(WriteBatchCmd::DeleteCfCmd(cf, key));
    }

    pub fn delete_range(&mut self, begin_key: Vec<u8>, end_key: Vec<u8>)
        requires
            old(self).wf(),
        ensures
            final(self).wf(),
            push_cmd_effect(*old(self), *final(self), WriteBatchCmd::DeleteRangeCmd(begin_key,
                end_key)),
    {
        self.push_cmd(WriteBatchCmd::DeleteRangeCmd(begin_key, end_key));
    }

    pub fn delete_range_cf(&mut self, cf: Vec<u8>, begin_key: Vec<u8>, end_key: Vec<u8>)
        requires
            old(self).wf(),
        ensures
            final(self).wf(),
            push_cmd_effect(*old(self), *final(self), WriteBatchCmd::DeleteRangeCfCmd(cf,
                begin_key, end_key)),
    {
        self.push_cmd(WriteBatchCmd::DeleteRangeCfCmd(cf, begin_key, end_key));
    }

    /// The number of buffered operations, counted as completed sub-batches
    /// times their bound plus the current fill.
    pub fn count(&self) -> (n: usize)
        requires
            self.wf(),
            self.index * WRITE_BATCH_LIMIT + self.cur_batch_size <= usize::MAX,
        ensures
            n == self.cur_batch_size + self.index * WRITE_BATCH_LIMIT,
    {
        proof {
            assert(self.index * WRITE_BATCH_LIMIT >= 0) by (nonlinear_arith)
                requires
                    self.index >= 0,
            ;
        }
        self.cur_batch_size + self.index * self.batch_size_limit
    }

    pub fn is_empty(&self) -> (r: bool)
        requires
            self.wf(),
        ensures
            r == (self.wbs@[0].cmds@.len() == 0),
    {
        self.wbs[0].cmds.len() == 0
    }

    /// Whether enough sub-batches accumulated that the caller should write
    /// the batch to the engine.
    pub fn should_write_to_engine(&self) -> (r: bool)
        ensures
            r == (self.index >= WRITE_BATCH_MAX_BATCH),
    {
        self.index >= WRITE_BATCH_MAX_BATCH
    }

    /// Drops every buffered operation and rewinds to the first sub-batch.
    pub fn clear(&mut self)
        requires
            old(self).wf(),
        ensures
            final(self).wf(),
            final(self).enable_batch_vec == old(self).enable_batch_vec,
            final(self).index == 0,
            final(self).cur_batch_size == 0,
            final(self).save_points@.len() == 0,
            final(self).wbs@.len() == old(self).wbs@.len(),
            forall|i: int| 0 <= i < final(self).wbs@.len() ==> (#[trigger] final(self).wbs@[
            i]).cmds@.len() == 0,
    {
        let n = self.wbs.len();
        let mut cleared: Vec<RawWriteBatch> = Vec::new();
        let mut i: usize = 0;
        while i < n
            invariant
                i <= n,
                cleared@.len() == i,
                forall|j: int| 0 <= j < i ==> (#[trigger] cleared@[j]).cmds@.len() == 0,
            decreases n - i,
        {
            cleared.push(RawWriteBatch::new());
            i = i + 1;
        }
        self.wbs = cleared;
        self.save_points.clear();
        self.index = 0;
        self.cur_batch_size = 0;
    }

    /// Remembers the current position: the current sub-batch and its fill.
    pub fn set_save_point(&mut self)
        requires
            old(self).wf(),
        ensures
            final(self).wf(),
            final(self).enable_batch_vec == old(self).enable_batch_vec,
            final(self).save_points@ == old(self).save_points@.push((old(self).index,
                old(self).wbs@[old(self).index as int].cmds@.len() as usize)),
            final(self).index == old(self).index,
            final(self).cur_batch_size == old(self).cur_batch_size,
            final(self).wbs@ == old(self).wbs@,
    {
        let at = self.index;
        let fill = self.wbs[at].cmds.len();
        self.save_points.push((at, fill));
        proof {
            let sp = self.save_points@;
            assert forall|i: int, j: int|
                0 <= i < j < sp.len() implies ((#[trigger] sp[i]).0 < (#[trigger] sp[j]).0 || (
            sp[i].0 == sp[j].0 && sp[i].1 <= sp[j].1)) by {
                if j < sp.len() - 1 {
                    assert(sp[i] == old(self).save_points@[i]);
                    assert(sp[j] == old(self).save_points@[j]);
                } else {
                    assert(sp[i] == old(self).save_points@[i]);
                }
            }
        }
    }

    /// Forgets the newest save point; fails when none was set.
    pub fn pop_save_point(&mut self) -> (r: Result<(), ()>)
        requires
            old(self).wf(),
        ensures
            final(self).wf(),
            final(self).enable_batch_vec == old(self).enable_batch_vec,
            final(self).index == old(self).index,
            final(self).cur_batch_size == old(self).cur_batch_size,
            final(self).wbs@ == old(self).wbs@,
            if old(self).save_points@.len() > 0 {
                r is Ok && final(self).save_points@ == old(self).save_points@.drop_last()
            } else {
                r is Err && final(self).save_points@ == old(self).save_points@
            },
    {
        match self.save_points.pop() {
            Some(_) => Ok(()),
            None => Err(()),
        }
    }

    /// Rewinds to the newest save point: sub-batches opened since are
    /// cleared, and the save point's own sub-batch drops every operation
    /// buffered past the recorded fill. Fails when no save point was set.
    pub fn rollback_to_save_point(&mut self) -> (r: Result<(), ()>)
        requires
            old(self).wf(),
        ensures
            final(self).wf(),
            final(self).enable_batch_vec == old(self).enable_batch_vec,
            final(self).cur_batch_size == old(self).cur_batch_size,
            if old(self).save_points@.len() > 0 {
                let x = old(self).save_points@.last().0 as int;
                let fill = old(self).save_points@.last().1 as int;
                &&& r is Ok
                &&& final(self).save_points@ == old(self).save_points@.drop_last()
                &&& final(self).index == x
                &&& final(self).wbs@.len() == old(self).wbs@.len()
                &&& forall|i: int|
                    0 <= i < final(self).wbs@.len() && !(x <= i <= old(self).index) ==> final(
                        self).wbs@[i] == old(self).wbs@[i]
                &&& final(self).wbs@[x].cmds@ == old(self).wbs@[x].cmds@.take(fill)
                &&& forall|i: int| x < i <= old(self).index ==> (#[trigger] final(self).wbs@[
                i]).cmds@.len() == 0
            } else {
                r is Err && final(self).index == old(self).index && final(self).wbs@ == old(
                    self).wbs@ && final(self).save_points@ == old(self).save_points@
            },
    {
        let n = self.wbs.len();
        match self.save_points.pop() {
            Some((x, fill)) => {
                proof {
                    assert(old(self).save_points@[old(self).save_points@.len() - 1].0 <= old(
                        self).index);
                    assert forall|j: int| 0 <= j < self.save_points@.len() implies ((
                    #[trigger] self.save_points@[j]).0 < x || (self.save_points@[j].0 == x
                        && self.save_points@[j].1 <= fill)) by {
                        assert(old(self).save_points@[j].0 < old(self).save_points@[old(
                            self).save_points@.len() - 1].0 || (old(self).save_points@[j].0
                            == old(self).save_points@[old(self).save_points@.len() - 1].0 && old(
                            self).save_points@[j].1 <= old(self).save_points@[old(
                            self).save_points@.len() - 1].1));
                    }
                }
                let mut i = x + 1;
                while i <= self.index
                    invariant
                        x < i <= self.index + 1,
                        forall|j: int| 0 <= j < self.save_points@.len() ==> ((
                        #[trigger] self.save_points@[j]).0 < x || (self.save_points@[j].0 == x
                            && self.save_points@[j].1 <= fill)),
                        self.index == old(self).index,
                        self.cur_batch_size == old(self).cur_batch_size,
                        self.enable_batch_vec == old(self).enable_batch_vec,
                        self.batch_size_limit == old(self).batch_size_limit,
                        self.save_points@ == old(self).save_points@.drop_last(),
                        self.wbs@.len() == old(self).wbs@.len(),
                        self.index < self.wbs@.len(),
                        forall|j: int| 0 <= j < self.wbs@.len() && !(x < j < i) ==> (
                        #[trigger] self.wbs@[j]) == old(self).wbs@[j],
                        forall|j: int| x < j < i ==> (#[trigger] self.wbs@[j]).cmds@.len() == 0,
                    decreases self.index + 1 - i,
                {
                    let _ = self.wbs.remove(i);
                    self.wbs.insert(i, RawWriteBatch::new());
                    i = i + 1;
                }
                // drop what was buffered in the save point's own sub-batch
                // past the recorded fill
                let ghost before_trunc = self.wbs@;
                let mut b = self.wbs.remove(x);
                proof {
                    assert(b.cmds@ == old(self).wbs@[x as int].cmds@);
                }
                while b.cmds.len() > fill
                    invariant
                        fill <= b.cmds@.len(),
                        b.cmds@.len() <= old(self).wbs@[x as int].cmds@.len(),
                        forall|t: int| 0 <= t < b.cmds@.len() ==> b.cmds@[t] == old(self).wbs@[
                        x as int].cmds@[t],
                    decreases b.cmds@.len(),
                {
                    let _ = b.cmds.pop();
                }
                proof {
                    assert(b.cmds@ =~= old(self).wbs@[x as int].cmds@.take(fill as int));
                }
                self.wbs.insert(x, b);
                self.index = x;
                proof {
                    assert(self.wbs@ =~= before_trunc.update(x as int, self.wbs@[x as int]));
                }
                Ok(())
            },
            None => Err(()),
        }
    }

    /// Appends every buffered operation of `other`'s sub-batches, first to
    /// last, onto the current sub-batch.
    pub fn merge(&mut self, other: RocksWriteBatch)
        requires
            old(self).wf(),
            other.wf(),
        ensures
            final(self).wf(),
            final(self).enable_batch_vec == old(self).enable_batch_vec,
            final(self).index == old(self).index,
            final(self).cur_batch_size == old(self).cur_batch_size,
            final(self).save_points@ == old(self).save_points@,
            final(self).wbs@.len() == old(self).wbs@.len(),
            forall|i: int| 0 <= i < old(self).wbs@.len() && i != old(self).index ==> final(
                self).wbs@[i] == old(self).wbs@[i],
            final(self).wbs@[old(self).index as int].cmds@ == old(self).wbs@[old(
                self).index as int].cmds@ + merged_cmds(other.wbs@, other.index + 1),
    {
        let at = self.index;
        let other_batches = other.wbs.len();
        let mut target = self.wbs.remove(at);
        let ghost t0 = target.cmds@;
        let mut k: usize = 0;
        let n = other.index + 1;
        let mut source = other.wbs;
        let ghost src0 = source@;
        proof {
            assert(merged_cmds(src0, 0) =~= Seq::<WriteBatchCmd>::empty());
            assert(t0 + merged_cmds(src0, 0) =~= t0);
        }
        while k < n
            invariant
                k <= n,
                n <= src0.len(),
                source@ == src0.skip(k as int),
                target.cmds@ == t0 + merged_cmds(src0, k as int),
            decreases n - k,
        {
            let ghost tk = target.cmds@;
            let mut b = source.remove(0);
            proof {
                assert(source@ =~= src0.skip(k as int + 1));
                assert(b.cmds@ == src0[k as int].cmds@);
            }
            let mut c: usize = 0;
            let m = b.cmds.len();
            while c < m
                invariant
                    c <= m,
                    m == src0[k as int].cmds@.len(),
                    b.cmds@ == src0[k as int].cmds@.skip(c as int),
                    target.cmds@ == tk + src0[k as int].cmds@.take(c as int),
                decreases m - c,
            {
                let cmd = b.cmds.remove(0);
                proof {
                    assert(b.cmds@ =~= src0[k as int].cmds@.skip(c as int + 1));
                    assert(cmd == src0[k as int].cmds@[c as int]);
                }
                target.cmds.push(cmd);
                proof {
                    assert(target.cmds@ =~= tk + src0[k as int].cmds@.take(c as int + 1));
                }
                c = c + 1;
            }
            proof {
                assert(src0[k as int].cmds@.take(m as int) =~= src0[k as int].cmds@);
                assert(tk + src0[k as int].cmds@ =~= t0 + merged_cmds(src0, k as int + 1)) by {
                    lemma_merged_cmds_step(src0, k as int);
                    assert(t0 + (merged_cmds(src0, k as int) + src0[k as int].cmds@) =~= (t0
                        + merged_cmds(src0, k as int)) + src0[k as int].cmds@);
                }
            }
            k = k + 1;
        }
        let ghost before_insert = self.wbs@;
        self.wbs.insert(at, target);
        proof {
            assert(self.wbs@ =~= before_insert.insert(at as int, self.wbs@[at as int]));
            assert forall|i: int|
                0 <= i < old(self).wbs@.len() && i != at implies #[trigger] self.wbs@[i] == old(
                self).wbs@[i] by {
                if i < at {
                    assert(self.wbs@[i] == before_insert[i]);
                } else {
                    assert(self.wbs@[i] == before_insert[i - 1]);
                }
            }
        }
    }

    /// The buffered operations of one sub-batch.
    pub fn batch_len(&self, i: usize) -> (n: usize)
        requires
            i < self.wbs@.len(),
        ensures
            n == self.wbs@[i as int].cmds@.len(),
    {
        self.wbs[i].cmds.len()
    }

    /// How many sub-batches exist.
    pub fn batches_len(&self) -> (n: usize)
        ensures
            n == self.wbs@.len(),
    {
        self.wbs.len()
    }
}

/// The operations of the first `k` sub-batches, in order.
pub open spec fn merged_cmds(batches: Seq<RawWriteBatch>, k: int) -> Seq<WriteBatchCmd>
    decreases k,
{
    if k <= 0 {
        Seq::empty()
    } else {
        merged_cmds(batches, k - 1) + batches[k - 1].cmds@
    }
}

proof fn lemma_merged_cmds_step(batches: Seq<RawWriteBatch>, k: int)
    requires
        k >= 0,
    ensures
        merged_cmds(batches, k + 1) == merged_cmds(batches, k) + batches[k].cmds@,
{
}

} // verus!
