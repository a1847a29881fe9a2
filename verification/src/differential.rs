//! Support for a differential harness that runs a second, independently
//! compiled copy of the library and compares outcomes.
//!
//! The decisions of such a harness live here, verified: when two
//! outcomes count as agreeing, and when a costly secondary execution
//! context is due for recycling. The harness itself — loading and
//! calling the second copy — stays outside the library.

use vstd::prelude::*;

verus! {

/// The failure kinds of a harness run: either the call could not be
/// made at all, or a named operation of the second copy failed.
#[derive(Debug, Clone, Copy, PartialEq, Eq, Structural)]
pub enum Error {
    General,
    Ln,
    Exp,
    Pow,
    FromNum,
    FromStr,
    New,
}

/// An explicit recycling policy for a secondary execution context that
/// degrades after many calls: a counter against a fixed threshold,
/// passed by reference instead of living in process-wide state.
#[derive(Debug, Clone, Copy, PartialEq, Eq, Structural)]
pub struct RecycleCounter {
    count: u32,
    threshold: u32,
}

impl RecycleCounter {
    /// The calls made since the last recycling.
    pub closed spec fn count(&self) -> int {
        self.count as int
    }

    /// The number of calls after which the context is recycled.
    pub closed spec fn threshold(&self) -> int {
        self.threshold as int
    }

    /// A fresh counter with the given threshold.
    pub fn new(threshold: u32) -> (r: RecycleCounter)
        ensures
            r.count() == 0,
            r.threshold() == threshold,
    {
        RecycleCounter { count: 0, threshold }
    }

    /// The calls made since the last recycling.
    pub fn get_count(&self) -> (r: u32)
        ensures
            r == self.count(),
    {
        self.count
    }

    /// Record one call.
    pub fn tick_count(&mut self)
        requires
            old(self).count() < u32::MAX,
        ensures
            final(self).count() == old(self).count() + 1,
            final(self).threshold() == old(self).threshold(),
    {
        self.count = self.count + 1;
    }

    /// Start a fresh cycle.
    pub fn reset_count(&mut self)
        ensures
            final(self).count() == 0,
            final(self).threshold() == old(self).threshold(),
    {
        self.count = 0;
    }

    /// Whether the context is due for recycling: the counter has passed
    /// the threshold.
    pub fn should_recycle(&self) -> (r: bool)
        ensures
            r <==> self.count() > self.threshold(),
    {
        self.count > self.threshold
    }
}

/// Two byte buffers hold the same bytes.
fn bytes_equal(a: &Vec<u8>, b: &Vec<u8>) -> (r: bool)
    ensures
        r <==> a@ == b@,
{
    if a.len() != b.len() {
        proof {
            assert(a@.len() != b@.len());
        }
        return false;
    }
    let n = a.len();
    let mut i: usize = 0;
    while i < n
        invariant
            i <= n,
            a@.len() == n,
            b@.len() == n,
            forall|k: int| 0 <= k < i ==> a@[k] == b@[k],
        decreases n - i,
    {
        if a[i] != b[i] {
            return false;
        }
        i = i + 1;
    }
    proof {
        assert(a@ =~= b@);
    }
    true
}

/// The agreement rule of the differential harness: two outcomes of the
/// same operation agree when both fail, or both succeed with identical
/// encoded bytes. A success against a failure, or differing bytes, is a
/// divergence between the two compiled copies.
pub fn outcomes_agree(a: &Result<Vec<u8>, Error>, b: &Result<Vec<u8>, Error>) -> (r: bool)
    ensures
        r <==> match (a, b) {
            (Ok(x), Ok(y)) => x@ == y@,
            (Err(_), Err(_)) => true,
            _ => false,
        },
{
    match (a, b) {
        (Ok(x), Ok(y)) => bytes_equal(x, y),
        (Err(_), Err(_)) => true,
        _ => false,
    }
}

} // verus!
