//! The kinds of dependency.

use vstd::prelude::*;

verus! {

/// The table of the manifest under which a dependency stands.
#[derive(Copy, Clone, PartialEq, Eq, Structural, Debug)]
pub enum DependencyKind {
    Normal,
    Build,
    Dev,
}

impl Default for DependencyKind {
    fn default() -> (kind: DependencyKind)
        ensures
            kind == DependencyKind::Normal,
    {
        DependencyKind::Normal
    }
}

} // verus!
