//! The memory controller: byte accounting for the cache with soft and hard
//! thresholds, and the single-flight flag of the memory-check task.

use vstd::prelude::*;

verus! {

/// The outcome of asking the controller for `n` more bytes.
pub enum MemoryUsage {
    Acquired,
    HardLimitReached(u64),
}

pub struct MemoryController {
    used: u64,
    soft_limit: u64,
    hard_limit: u64,
    memory_checking: bool,
}

impl MemoryController {
    pub closed spec fn spec_used(&self) -> u64 {
        self.used
    }

    pub closed spec fn spec_soft_limit(&self) -> u64 {
        self.soft_limit
    }

    pub closed spec fn spec_hard_limit(&self) -> u64 {
        self.hard_limit
    }

    pub closed spec fn spec_memory_checking(&self) -> bool {
        self.memory_checking
    }

    pub fn new(soft_limit: u64, hard_limit: u64) -> (c: MemoryController)
        requires
            soft_limit <= hard_limit,
        ensures
            c.spec_used() == 0,
            c.spec_soft_limit() == soft_limit,
            c.spec_hard_limit() == hard_limit,
            !c.spec_memory_checking(),
    {
        MemoryController { used: 0, soft_limit, hard_limit, memory_checking: false }
    }

    /// Charges `n` bytes. The charge is refused, and nothing changes, exactly
    /// when it would push usage above the hard limit; the refusal reports the
    /// usage that the charge would have reached.
    pub fn acquire(&mut self, n: u64) -> (r: MemoryUsage)
        ensures
            final(self).spec_soft_limit() == old(self).spec_soft_limit(),
            final(self).spec_hard_limit() == old(self).spec_hard_limit(),
            final(self).spec_memory_checking() == old(self).spec_memory_checking(),
            match r {
                MemoryUsage::Acquired => {
                    &&& old(self).spec_used() + n <= old(self).spec_hard_limit()
                    &&& final(self).spec_used() == old(self).spec_used() + n
                },
                MemoryUsage::HardLimitReached(m) => {
                    &&& old(self).spec_used() + n > old(self).spec_hard_limit()
                    &&& final(self).spec_used() == old(self).spec_used()
                    &&& m == if old(self).spec_used() + n <= u64::MAX {
                        (old(self).spec_used() + n) as u64
                    } else {
                        u64::MAX
                    }
                },
            },
    {
        if n <= self.hard_limit && self.used <= self.hard_limit - n {
            self.used = self.used + n;
            MemoryUsage::Acquired
        } else {
            let would_be = if n <= u64::MAX - self.used {
                self.used + n
            } else {
                u64::MAX
            };
            MemoryUsage::HardLimitReached(would_be)
        }
    }

    /// Returns `n` bytes after entries were physically removed.
    pub fn release(&mut self, n: u64)
        requires
            n <= old(self).spec_used(),
        ensures
            final(self).spec_used() == old(self).spec_used() - n,
            final(self).spec_soft_limit() == old(self).spec_soft_limit(),
            final(self).spec_hard_limit() == old(self).spec_hard_limit(),
            final(self).spec_memory_checking() == old(self).spec_memory_checking(),
    {
        self.used = self.used - n;
    }

    pub fn mem_usage(&self) -> (n: u64)
        ensures
            n == self.spec_used(),
    {
        self.used
    }

    pub fn soft_limit_threshold(&self) -> (n: u64)
        ensures
            n == self.spec_soft_limit(),
    {
        self.soft_limit
    }

    pub fn hard_limit_threshold(&self) -> (n: u64)
        ensures
            n == self.spec_hard_limit(),
    {
        self.hard_limit
    }

    /// Whether usage has reached the soft threshold.
    pub fn reached_soft_limit(&self) -> (r: bool)
        ensures
            r == (self.spec_used() >= self.spec_soft_limit()),
    {
        self.used >= self.soft_limit
    }

    /// Single-flight guard of the memory-check task: succeeds, and sets the
    /// flag, only when no check is running.
    pub fn try_begin_memory_check(&mut self) -> (r: bool)
        ensures
            final(self).spec_used() == old(self).spec_used(),
            final(self).spec_soft_limit() == old(self).spec_soft_limit(),
            final(self).spec_hard_limit() == old(self).spec_hard_limit(),
            r == !old(self).spec_memory_checking(),
            final(self).spec_memory_checking(),
    {
        let was = self.memory_checking;
        self.memory_checking = true;
        !was
    }

    pub fn set_memory_checking(&mut self, v: bool)
        ensures
            final(self).spec_used() == old(self).spec_used(),
            final(self).spec_soft_limit() == old(self).spec_soft_limit(),
            final(self).spec_hard_limit() == old(self).spec_hard_limit(),
            final(self).spec_memory_checking() == v,
    {
        self.memory_checking = v;
    }

    /// Installs new thresholds, as a configuration change does.
    pub fn set_limits(&mut self, soft_limit: u64, hard_limit: u64)
        requires
            soft_limit <= hard_limit,
        ensures
            final(self).spec_used() == old(self).spec_used(),
            final(self).spec_soft_limit() == soft_limit,
            final(self).spec_hard_limit() == hard_limit,
            final(self).spec_memory_checking() == old(self).spec_memory_checking(),
    {
        self.soft_limit = soft_limit;
        self.hard_limit = hard_limit;
    }
}

} // verus!
