//! The retry ledger: source paths whose verification failed this pass.
//!
//! Workers push into it as divergences are found; after the pass joins,
//! the orchestrator either reports the paths and stops, or retries them
//! once with overwriting forced. A file named here must never lose its
//! only remaining copy.

use vstd::prelude::*;

use crate::paths::bytes_eq;

verus! {

/// The set of source paths that failed verification, in push order.
pub struct RetryLedger {
    pub paths: Vec<Vec<u8>>,
}

impl RetryLedger {
    /// The ledger as the sequence of its paths.
    pub open spec fn view_paths(self) -> Seq<Seq<u8>> {
        self.paths.deep_view()
    }

    /// An empty ledger, fresh for each pass.
    pub fn new() -> (r: RetryLedger)
        ensures
            r.view_paths().len() == 0,
    {
        RetryLedger { paths: Vec::new() }
    }

    /// Records one failed source path.
    pub fn push(&mut self, path: &[u8])
        ensures
            final(self).view_paths() == old(self).view_paths().push(path@),
    {
        let mut p: Vec<u8> = Vec::new();
        let mut i: usize = 0;
        while i < path.len()
            invariant
                0 <= i <= path@.len(),
                p@ == path@.take(i as int),
            decreases path@.len() - i,
        {
            p.push(path[i]);
            assert(p@ =~= path@.take(i + 1));
            i = i + 1;
        }
        assert(p@ =~= path@);
        self.paths.push(p);
        proof {
            assert(self.view_paths() =~~= old(self).view_paths().push(path@));
        }
    }

    /// Whether a source path failed this pass.
    pub fn contains(&self, path: &[u8]) -> (r: bool)
        ensures
            r == self.view_paths().contains(path@),
    {
        let mut i: usize = 0;
        while i < self.paths.len()
            invariant
                0 <= i <= self.paths@.len(),
                forall|j: int| 0 <= j < i ==> (#[trigger] self.paths@[j])@ != path@,
        decreases self.paths@.len() - i,
        {
            if bytes_eq(self.paths[i].as_slice(), path) {
                proof {
                    assert(self.view_paths()[i as int] == path@);
                }
                return true;
            }
            i = i + 1;
        }
        proof {
            if self.view_paths().contains(path@) {
                let j = choose|j: int|
                    0 <= j < self.view_paths().len() && self.view_paths()[j] == path@;
                assert((self.paths@[j])@ == path@);
            }
        }
        false
    }

    /// How many paths failed this pass.
    pub fn len(&self) -> (r: usize)
        ensures
            r == self.view_paths().len(),
    {
        self.paths.len()
    }
}

} // verus!
