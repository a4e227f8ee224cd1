//! Identifiers of queries, crates, releases and dependency rows.

use vstd::prelude::*;

verus! {

/// Index of a query in the list the user gave.
#[derive(Copy, Clone, PartialEq, Eq, Structural, PartialOrd, Ord, Hash, Debug)]
pub struct QueryId(pub u8);

/// Identifier of a crate, stable within a run.
#[derive(Copy, Clone, PartialEq, Eq, Structural, PartialOrd, Ord, Hash, Debug)]
pub struct CrateId(pub u32);

/// Identifier of one release of a crate.
#[derive(Copy, Clone, PartialEq, Eq, Structural, PartialOrd, Ord, Hash, Debug)]
pub struct VersionId(pub u32);

/// Identifier of one dependency row.
#[derive(Copy, Clone, PartialEq, Eq, Structural, PartialOrd, Ord, Hash, Debug)]
pub struct DependencyId(pub u32);

impl DependencyId {
    /// Wraps a raw row number.
    pub fn from(id: u32) -> (r: DependencyId)
        ensures
            r.0 == id,
    {
        DependencyId(id)
    }
}

} // verus!
