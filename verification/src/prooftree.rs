//! The slice of an externally owned Merkle/proof structure that the class
//! lifecycle depends on: its current root digest, and reset-to-empty.
//!
//! A proof structure is built over the announcement set of one or more
//! classes. The class logic never reads inside it; it only compares the
//! structure's current root against a root captured earlier and resets the
//! structure when the two still agree.

use crate::ann_buf::Digest;
use vstd::prelude::*;

verus! {

/// A proof structure as the class logic sees it: its current root digest,
/// or `None` once it has been reset to its empty state.
#[derive(Clone, Copy, Debug)]
pub struct ProofTree {
    pub root_hash: Option<Digest>,
}

impl ProofTree {
    /// The structure's current root, or `None` if it is empty.
    pub fn current_root(&self) -> (r: Option<Digest>)
        ensures
            r == self.root_hash,
    {
        self.root_hash
    }

    /// Return the structure to its empty state: any cached proof is gone.
    pub fn reset(&mut self)
        ensures
            final(self).root_hash is None,
    {
        self.root_hash = None;
    }
}

} // verus!
