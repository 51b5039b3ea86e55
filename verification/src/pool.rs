//! Accounting model of the bounded connection pool.
//!
//! One pool exists per process, created once at startup with a fixed
//! size; every connection carries the same durability settings
//! (`crate::schema::PERFORMANCE_PRAGMAS`), so queries behave uniformly
//! across the pool. The process edge owns the physical pool and its
//! once-only initialization; this type captures the bounded borrow and
//! return discipline that the stores rely on.

use vstd::prelude::*;

use crate::error::AppError;

verus! {

/// Borrow counter of a pool of fixed size.
pub struct ConnectionPool {
    pub size: u32,
    pub in_use: u32,
}

impl ConnectionPool {
    /// Never more connections out than the pool holds.
    pub open spec fn wf(&self) -> bool {
        self.in_use <= self.size
    }

    /// A fresh pool with every connection available.
    pub fn new(size: u32) -> (p: ConnectionPool)
        requires
            size > 0,
        ensures
            p.wf(),
            p.size == size,
            p.in_use == 0,
    {
        ConnectionPool { size, in_use: 0 }
    }

    /// Borrow a connection: succeeds exactly while the pool is not
    /// exhausted, and the borrow is returned through `release`.
    pub fn acquire(&mut self) -> (r: Result<(), AppError>)
        requires
            old(self).wf(),
        ensures
            final(self).wf(),
            (r is Ok) <==> old(self).in_use < old(self).size,
            r is Err ==> r->Err_0 is Internal && *final(self) == *old(self),
            r is Ok ==> final(self).in_use == old(self).in_use + 1 && final(self).size == old(
                self,
            ).size,
    {
        if self.in_use < self.size {
            self.in_use = self.in_use + 1;
            Ok(())
        } else {
            Err(AppError::Internal(String::from_str("Connection pool exhausted")))
        }
    }

    /// Return a borrowed connection.
    pub fn release(&mut self)
        requires
            old(self).wf(),
            old(self).in_use > 0,
        ensures
            final(self).wf(),
            final(self).in_use == old(self).in_use - 1,
            final(self).size == old(self).size,
    {
        self.in_use = self.in_use - 1;
    }
}

} // verus!
