//! Failures of the election system, wrapping the tree's own failures.

use vstd::prelude::*;

use crate::tree::ErrorTree;

verus! {

#[derive(Debug)]
pub enum SystemError {
    NotLeafRegion,
    RegionNotFound,
    CandidacyNotFound,
    NotParentable,
}

impl From<ErrorTree> for SystemError {
    /// Map each tree failure onto the system's own taxonomy.
    fn from(error: ErrorTree) -> (r: SystemError) {
        match error {
            ErrorTree::RegionNotFound => SystemError::RegionNotFound,
            ErrorTree::CandidacyNotFound => SystemError::CandidacyNotFound,
            ErrorTree::NotParentable(_) => SystemError::NotParentable,
        }
    }
}

impl vstd::std_specs::convert::FromSpecImpl<ErrorTree> for SystemError {
    open spec fn obeys_from_spec() -> bool {
        true
    }

    open spec fn from_spec(error: ErrorTree) -> SystemError {
        match error {
            ErrorTree::RegionNotFound => SystemError::RegionNotFound,
            ErrorTree::CandidacyNotFound => SystemError::CandidacyNotFound,
            ErrorTree::NotParentable(_) => SystemError::NotParentable,
        }
    }
}

} // verus!
