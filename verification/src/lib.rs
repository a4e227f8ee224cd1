//! Counts, over time, the crates that depend on the crates a query names:
//! directly, or through the graph of releases and their features.
//!
//! A [`load::Loader`] takes the rows of a registry's dump and makes a
//! [`DbDump`] and a [`cratemap::CrateMap`] of them. [`mend::mend`] puts back
//! releases that were deleted, [`order::sort_releases`] and [`clean::clean`]
//! make the dump ready, [`query::parse`] reads the queries, and [`run`]
//! tallies: its [`matrix::Matrix`] has a row for each instant at which a count
//! changed. What holds of every tally is stated and proved in [`laws`],
//! [`leaf`], [`replay`], [`resolve`] and [`total`]; what a requirement
//! accepts, in [`version`].

use vstd::prelude::*;

pub mod arena;
pub mod args;
pub mod clean;
pub mod collect;
pub mod compat;
pub mod cratemap;
pub mod cratename;
pub mod dependency;
pub mod feature;
pub mod filter;
pub mod graph;
pub mod id;
pub mod intern;
pub mod laws;
pub mod leaf;
pub mod load;
pub mod matrix;
pub mod mend;
pub mod order;
pub mod query;
pub mod replay;
pub mod resolve;
pub mod select;
pub mod tally;
pub mod text;
pub mod timestamp;
pub mod total;
pub mod user;
pub mod version;

use crate::arena::Slice;
use crate::dependency::DependencyKind;
use crate::feature::{DefaultFeatures, FeatureEnables, FeatureId, FeatureNames};
use crate::id::{CrateId, DependencyId, QueryId, VersionId};
use crate::timestamp::DateTime;
use crate::version::{Version, VersionReq};

pub use crate::tally::run;

verus! {

/// The releases and dependency rows of a registry, with the table of its
/// feature names.
pub struct DbDump {
    pub releases: Vec<Release>,
    pub dependencies: Vec<Dependency>,
    pub features: FeatureNames,
}

/// One published version of a crate.
#[derive(Debug)]
pub struct Release {
    pub id: VersionId,
    pub crate_id: CrateId,
    pub num: Version,
    pub created_at: DateTime,
    pub features: Slice<FeatureEnables>,
}

/// One dependency that a release declares on a crate.
#[derive(Debug)]
pub struct Dependency {
    pub id: DependencyId,
    /// The release that declares it.
    pub version_id: VersionId,
    /// The crate it asks for.
    pub crate_id: CrateId,
    pub req: VersionReq,
    /// The feature of the declaring release that brings it in; the crate
    /// itself where it is not optional.
    pub feature_id: FeatureId,
    pub default_features: DefaultFeatures,
    pub features: Slice<FeatureId>,
    pub kind: DependencyKind,
}

/// What the user asks to count: releases that one of the predicates accepts.
#[derive(Debug)]
pub struct Query {
    pub id: QueryId,
    pub predicates: Slice<Predicate>,
}

/// A crate, and optionally the versions of it that are meant.
#[derive(Debug)]
pub struct Predicate {
    pub crate_id: CrateId,
    pub req: Option<VersionReq>,
}

/// What a `Predicate` is, as a value: the crate and the comparators of its
/// requirement, if it has one.
pub struct PredicateView {
    pub crate_id: CrateId,
    pub req: Option<Seq<crate::version::ComparatorView>>,
}

impl View for Predicate {
    type V = PredicateView;

    open spec fn view(&self) -> PredicateView {
        PredicateView {
            crate_id: self.crate_id,
            req: match self.req {
                Some(req) => Some(req@),
                None => None,
            },
        }
    }
}

/// The predicates as values.
pub open spec fn predicate_views(predicates: Seq<Predicate>) -> Seq<PredicateView> {
    Seq::new(predicates.len(), |i: int| predicates[i]@)
}

/// `after` is the release `before`, as a value.
pub open spec fn same_release(before: Release, after: Release) -> bool {
    &&& after.id == before.id
    &&& after.crate_id == before.crate_id
    &&& after.num@ == before.num@
    &&& after.created_at == before.created_at
    &&& crate::feature::feature_views(after.features@) == crate::feature::feature_views(
        before.features@,
    )
}

impl Release {
    /// A second release with the same content.
    pub fn duplicate(&self) -> (copy: Release)
        ensures
            same_release(*self, copy),
    {
        let mut features: Vec<FeatureEnables> = Vec::new();
        let n = self.features.len();
        let mut i: usize = 0;
        while i < n
            invariant
                n == self.features@.len(),
                i <= n,
                features@.len() == i,
                forall|k: int| 0 <= k < i ==> (#[trigger] features@[k])@ == self.features@[k]@,
            decreases n - i,
        {
            let f = self.features.get(i);
            features.push(
                FeatureEnables {
                    id: f.id,
                    enables: f.enables.duplicate(),
                    weak_enables: f.weak_enables.duplicate(),
                },
            );
            i += 1;
        }
        let features = Slice::from(features);
        proof {
            assert(crate::feature::feature_views(features@) =~= crate::feature::feature_views(
                self.features@,
            ));
        }
        Release {
            id: self.id,
            crate_id: self.crate_id,
            num: self.num.duplicate(),
            created_at: self.created_at,
            features,
        }
    }
}

impl Default for DbDump {
    fn default() -> (dump: DbDump)
        ensures
            dump.releases@.len() == 0,
            dump.dependencies@.len() == 0,
            dump.features.wf(),
            dump.features@ == seq![""@, "default"@],
    {
        DbDump::new()
    }
}

impl DbDump {
    /// A dump without rows.
    pub fn new() -> (dump: DbDump)
        ensures
            dump.releases@.len() == 0,
            dump.dependencies@.len() == 0,
            dump.features.wf(),
            dump.features@ == seq![""@, "default"@],
    {
        DbDump { releases: Vec::new(), dependencies: Vec::new(), features: FeatureNames::new() }
    }
}

} // verus!
