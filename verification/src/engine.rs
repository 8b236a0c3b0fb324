//! The in-memory engine: the three logical columns together with the memory
//! controller. Its well-formedness ties the controller's `used` bytes to the
//! exact charge of the live entries, so the accounting can never drift.

use vstd::prelude::*;

use crate::column::{col_delete_range, col_insert, col_size, entry_size, Column, KvView,
    lemma_col_size_insert_at, lemma_col_size_update, lemma_entry_size_le_col_size,
    lemma_lower_bound_props, lower_bound, has_key,
    ENTRY_OVERHEAD};
use crate::memory::{MemoryController, MemoryUsage};

verus! {

/// One of the three logical columns.
#[derive(Clone, Copy, PartialEq, Eq, Structural, Debug)]
pub enum ColumnFamily {
    CfDefault,
    CfWrite,
    CfLock,
}

/// The engine core: three ordered columns and the byte accounting.
pub struct SkiplistEngine {
    pub default_cf: Column,
    pub write_cf: Column,
    pub lock_cf: Column,
    pub mem: MemoryController,
}

impl SkiplistEngine {
    pub open spec fn cf_view(&self, cf: ColumnFamily) -> Seq<KvView> {
        match cf {
            ColumnFamily::CfDefault => self.default_cf@,
            ColumnFamily::CfWrite => self.write_cf@,
            ColumnFamily::CfLock => self.lock_cf@,
        }
    }

    /// Memory conservation: the controller's used bytes equal the total
    /// charge of the live entries, column by column.
    pub open spec fn wf(&self) -> bool {
        &&& self.default_cf.wf()
        &&& self.write_cf.wf()
        &&& self.lock_cf.wf()
        &&& self.mem.spec_used() as nat == col_size(self.default_cf@) + col_size(self.write_cf@)
            + col_size(self.lock_cf@)
    }

    pub fn new(soft_limit: u64, hard_limit: u64) -> (e: SkiplistEngine)
        requires
            soft_limit <= hard_limit,
        ensures
            e.wf(),
            e.default_cf@ == Seq::<KvView>::empty(),
            e.write_cf@ == Seq::<KvView>::empty(),
            e.lock_cf@ == Seq::<KvView>::empty(),
            e.mem.spec_used() == 0,
            e.mem.spec_soft_limit() == soft_limit,
            e.mem.spec_hard_limit() == hard_limit,
    {
        SkiplistEngine {
            default_cf: Column::new(),
            write_cf: Column::new(),
            lock_cf: Column::new(),
            mem: MemoryController::new(soft_limit, hard_limit),
        }
    }

    /// A read-only handle to one column.
    pub fn cf_handle(&self, cf: ColumnFamily) -> (c: &Column)
        ensures
            c@ == self.cf_view(cf),
    {
        match cf {
            ColumnFamily::CfDefault => &self.default_cf,
            ColumnFamily::CfWrite => &self.write_cf,
            ColumnFamily::CfLock => &self.lock_cf,
        }
    }

    /// Charges the entry against the controller and, if the charge is
    /// granted, stores it. A replaced entry returns its charge.
    pub fn acquire_and_insert(&mut self, cf: ColumnFamily, k: Vec<u8>, v: Vec<u8>) -> (r:
        MemoryUsage)
        requires
            old(self).wf(),
            k@.len() + v@.len() + ENTRY_OVERHEAD <= u64::MAX,
        ensures
            final(self).wf(),
            final(self).mem.spec_soft_limit() == old(self).mem.spec_soft_limit(),
            final(self).mem.spec_hard_limit() == old(self).mem.spec_hard_limit(),
            match r {
                MemoryUsage::Acquired => {
                    &&& old(self).mem.spec_used() + entry_size((k@, v@)) <= old(
                        self).mem.spec_hard_limit()
                    &&& final(self).cf_view(cf) == col_insert(old(self).cf_view(cf), k@, v@)
                    &&& forall|other: ColumnFamily| other != cf ==> final(self).cf_view(other)
                        == old(self).cf_view(other)
                    &&& final(self).mem.spec_used() == old(self).mem.spec_used() + entry_size(
                        (k@, v@)) - (if crate::column::has_key(old(self).cf_view(cf), k@) {
                        entry_size((k@, crate::column::spec_get(old(self).cf_view(cf), k@)))
                    } else {
                        0
                    })
                },
                MemoryUsage::HardLimitReached(_) => {
                    &&& old(self).mem.spec_used() + entry_size((k@, v@)) > old(
                        self).mem.spec_hard_limit()
                    &&& final(self).mem.spec_used() == old(self).mem.spec_used()
                    &&& forall|other: ColumnFamily| final(self).cf_view(other) == old(
                        self).cf_view(other)
                },
            },
    {
        let size = k.len() as u64 + v.len() as u64 + ENTRY_OVERHEAD;
        let r = self.mem.acquire(size);
        match r {
            MemoryUsage::Acquired => {
                let ghost s = self.cf_view(cf);
                let replaced = match cf {
                    ColumnFamily::CfDefault => self.default_cf.insert(k, v),
                    ColumnFamily::CfWrite => self.write_cf.insert(k, v),
                    ColumnFamily::CfLock => self.lock_cf.insert(k, v),
                };
                proof {
                    let p = lower_bound(s, k@);
                    lemma_lower_bound_props(s, k@);
                    if has_key(s, k@) {
                        lemma_col_size_update(s, p, (k@, v@));
                    } else {
                        lemma_col_size_insert_at(s, p, (k@, v@));
                    }
                }
                match replaced {
                    Some(e) => {
                        proof {
                            let p = lower_bound(s, k@);
                            lemma_entry_size_le_col_size(s, p);
                        }
                        let old_size = e.key.len() as u64 + e.value.len() as u64 + ENTRY_OVERHEAD;
                        self.mem.release(old_size);
                    },
                    None => {},
                }
                MemoryUsage::Acquired
            },
            MemoryUsage::HardLimitReached(n) => MemoryUsage::HardLimitReached(n),
        }
    }

    /// Erases `[start, end)` from every column and returns the released
    /// charge to the controller.
    pub fn delete_range(&mut self, start: &Vec<u8>, end: &Vec<u8>) -> (freed: u64)
        requires
            old(self).wf(),
        ensures
            final(self).wf(),
            final(self).default_cf@ == col_delete_range(old(self).default_cf@, start@, end@),
            final(self).write_cf@ == col_delete_range(old(self).write_cf@, start@, end@),
            final(self).lock_cf@ == col_delete_range(old(self).lock_cf@, start@, end@),
            final(self).mem.spec_used() == old(self).mem.spec_used() - freed,
            final(self).mem.spec_soft_limit() == old(self).mem.spec_soft_limit(),
            final(self).mem.spec_hard_limit() == old(self).mem.spec_hard_limit(),
            freed == col_size(old(self).default_cf@) + col_size(old(self).write_cf@) + col_size(
                old(self).lock_cf@) - col_size(final(self).default_cf@) - col_size(
                final(self).write_cf@) - col_size(final(self).lock_cf@),
    {
        let f1 = self.default_cf.delete_range(start, end);
        let f2 = self.write_cf.delete_range(start, end);
        let f3 = self.lock_cf.delete_range(start, end);
        let freed = f1 + f2 + f3;
        self.mem.release(freed);
        freed
    }

    pub fn mem_usage(&self) -> (n: u64)
        ensures
            n == self.mem.spec_used(),
    {
        self.mem.mem_usage()
    }
}

} // verus!
