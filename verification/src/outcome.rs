//! The per-image result of the hashing pipeline.

use vstd::prelude::*;

verus! {

/// What the pipeline produced for one discovered image path: either the
/// perceptual hash of its content together with the path, or the path of a
/// file that could not be read or decoded.
pub enum HashOutcome {
    Success(Vec<u8>, String),
    Failure(String),
}

impl HashOutcome {
    /// The path the outcome is about.
    pub open spec fn spec_path(&self) -> Seq<char> {
        match self {
            HashOutcome::Success(_, p) => p@,
            HashOutcome::Failure(p) => p@,
        }
    }

    /// Whether this outcome reports the hash `h` for the path `p`.
    pub open spec fn is_success_of(&self, h: Seq<u8>, p: Seq<char>) -> bool {
        match self {
            HashOutcome::Success(hash, path) => hash@ == h && path@ == p,
            HashOutcome::Failure(_) => false,
        }
    }

    /// Whether this outcome reports a failure for the path `p`.
    pub open spec fn is_failure_of(&self, p: Seq<char>) -> bool {
        match self {
            HashOutcome::Success(_, _) => false,
            HashOutcome::Failure(path) => path@ == p,
        }
    }

    pub fn path(&self) -> (r: &String)
        ensures
            r@ == self.spec_path(),
    {
        match self {
            HashOutcome::Success(_, p) => p,
            HashOutcome::Failure(p) => p,
        }
    }
}

} // verus!
