//! A crate that no dependency row asks for: what it adds to a count is
//! itself, and nothing else.

use crate::dependency::DependencyKind;
use crate::feature::{FeatureId, VersionFeature};
use crate::graph::{
    cross_edge, cross_edge_by, cross_edge_of_enable, cross_edge_of_feature, dependency_edge,
    has_edge, is_seed, is_walk_in, reaches_match, release_edge, resolves_to, Edge,
};
use crate::id::{CrateId, VersionId};
use crate::laws::{count_at, visible};
use crate::resolve::{resolves_at, satisfies};
use crate::select::{column_accepts, is_latest};
use crate::tally::{
    contributes, contributes_at, contributors, crate_count, depends, depends_directly,
    depends_transitively, direct_by,
};
use crate::timestamp::DateTime;
use crate::{Dependency, Query, Release};
use vstd::prelude::*;

verus! {

/// The releases of the crates other than `c`.
pub open spec fn without_crate(rels: Seq<Release>, c: CrateId) -> Seq<Release> {
    rels.filter(|r: Release| r.crate_id != c)
}

/// The identifier `v` is that of a release of the crate `c`.
pub open spec fn is_release_of(rels: Seq<Release>, v: VersionId, c: CrateId) -> bool {
    exists|k: int| 0 <= k < rels.len() && (#[trigger] rels[k]).id == v && rels[k].crate_id == c
}

/// The dependency rows but those of the releases of the crate `c`.
pub open spec fn without_rows_of(rels: Seq<Release>, deps: Seq<Dependency>, c: CrateId) -> Seq<
    Dependency,
> {
    deps.filter(|d: Dependency| !is_release_of(rels, d.version_id, c))
}

/// No dependency row asks for the crate `c`.
pub open spec fn is_leaf(deps: Seq<Dependency>, c: CrateId) -> bool {
    forall|d: int| 0 <= d < deps.len() ==> (#[trigger] deps[d]).crate_id != c
}

/// No identifier stands for releases of two crates.
pub open spec fn ids_keep_to_a_crate(rels: Seq<Release>) -> bool {
    forall|i: int, j: int|
        0 <= i < rels.len() && 0 <= j < rels.len() && (#[trigger] rels[i]).id == (
        #[trigger] rels[j]).id ==> rels[i].crate_id == rels[j].crate_id
}

/// A release has the identifier `v`.
pub open spec fn is_live(rels: Seq<Release>, v: VersionId) -> bool {
    exists|k: int| 0 <= k < rels.len() && (#[trigger] rels[k]).id == v
}

/// `fewer` holds the releases of `rels` but those of the crate `c`.
pub open spec fn keeps_others(rels: Seq<Release>, fewer: Seq<Release>, c: CrateId) -> bool {
    &&& forall|i: int|
        0 <= i < fewer.len() ==> rels.contains(#[trigger] fewer[i]) && fewer[i].crate_id != c
    &&& forall|i: int|
        0 <= i < rels.len() && (#[trigger] rels[i]).crate_id != c ==> fewer.contains(rels[i])
}

/// The two lists hold the same rows of the releases `rels`.
pub open spec fn same_rows_of(rels: Seq<Release>, deps: Seq<Dependency>, other: Seq<Dependency>) -> bool {
    &&& forall|d: int|
        0 <= d < deps.len() && is_live(rels, (#[trigger] deps[d]).version_id) ==> other.contains(
            deps[d],
        )
    &&& forall|d: int|
        0 <= d < other.len() && is_live(rels, (#[trigger] other[d]).version_id) ==> deps.contains(
            other[d],
        )
}

/// What the premises of this file's lemmas have in common: `fewer` and
/// `other` are `rels` and `deps` without the crate `c`, which no row asks
/// for.
pub open spec fn set_aside(
    rels: Seq<Release>,
    deps: Seq<Dependency>,
    fewer: Seq<Release>,
    other: Seq<Dependency>,
    c: CrateId,
) -> bool {
    &&& is_leaf(deps, c)
    &&& ids_keep_to_a_crate(rels)
    &&& keeps_others(rels, fewer, c)
    &&& same_rows_of(fewer, deps, other)
}

/// A release that has an identifier of `fewer` is in `fewer`.
proof fn lemma_live_release_stays(
    rels: Seq<Release>,
    fewer: Seq<Release>,
    c: CrateId,
    k: int,
) -> (m: int)
    requires
        ids_keep_to_a_crate(rels),
        keeps_others(rels, fewer, c),
        0 <= k < rels.len(),
        is_live(fewer, rels[k].id),
    ensures
        0 <= m < fewer.len(),
        fewer[m] == rels[k],
{
    let n = choose|n: int| 0 <= n < fewer.len() && (#[trigger] fewer[n]).id == rels[k].id;
    assert(rels.contains(fewer[n]));
    let j = choose|j: int| 0 <= j < rels.len() && rels[j] == fewer[n];
    assert(rels[j].id == rels[k].id);
    assert(rels[k].crate_id != c);
    assert(fewer.contains(rels[k]));
    choose|m: int| 0 <= m < fewer.len() && fewer[m] == rels[k]
}

/// A release of `fewer` is in `rels`.
proof fn lemma_release_was_there(rels: Seq<Release>, fewer: Seq<Release>, c: CrateId, m: int) -> (k:
    int)
    requires
        keeps_others(rels, fewer, c),
        0 <= m < fewer.len(),
    ensures
        0 <= k < rels.len(),
        rels[k] == fewer[m],
        rels[k].crate_id != c,
{
    assert(rels.contains(fewer[m]));
    choose|k: int| 0 <= k < rels.len() && rels[k] == fewer[m]
}

/// The active release of another crate stays the active one.
proof fn lemma_latest_stays(rels: Seq<Release>, fewer: Seq<Release>, c: CrateId, k: int) -> (m: int)
    requires
        keeps_others(rels, fewer, c),
        is_latest(rels, k),
        rels[k].crate_id != c,
    ensures
        is_latest(fewer, m),
        fewer[m] == rels[k],
{
    assert(fewer.contains(rels[k]));
    let m = choose|m: int| 0 <= m < fewer.len() && fewer[m] == rels[k];
    assert forall|j: int|
        0 <= j < fewer.len() && (#[trigger] fewer[j]).crate_id
            == fewer[m].crate_id implies crate::select::more_recent(fewer[m], fewer[j]) by {
        let i = lemma_release_was_there(rels, fewer, c, j);
    }
    m
}

/// The active release of a crate in `fewer` is the active one in `rels`.
proof fn lemma_latest_was(rels: Seq<Release>, fewer: Seq<Release>, c: CrateId, m: int) -> (k: int)
    requires
        keeps_others(rels, fewer, c),
        is_latest(fewer, m),
    ensures
        is_latest(rels, k),
        rels[k] == fewer[m],
        rels[k].crate_id != c,
{
    let k = lemma_release_was_there(rels, fewer, c, m);
    assert forall|j: int|
        0 <= j < rels.len() && (#[trigger] rels[j]).crate_id
            == rels[k].crate_id implies crate::select::more_recent(rels[k], rels[j]) by {
        assert(fewer.contains(rels[j]));
        let i = choose|i: int| 0 <= i < fewer.len() && fewer[i] == rels[j];
        assert(fewer[i].crate_id == fewer[m].crate_id);
    }
    k
}

/// A requirement on another crate resolves to the same release.
proof fn lemma_resolution_stays(
    rels: Seq<Release>,
    fewer: Seq<Release>,
    c: CrateId,
    dep: Dependency,
    k: int,
) -> (m: int)
    requires
        keeps_others(rels, fewer, c),
        dep.crate_id != c,
        resolves_at(rels, dep.crate_id, dep.req@, k),
    ensures
        resolves_at(fewer, dep.crate_id, dep.req@, m),
        fewer[m] == rels[k],
{
    assert(fewer.contains(rels[k]));
    let m = choose|m: int| 0 <= m < fewer.len() && fewer[m] == rels[k];
    assert forall|j: int|
        0 <= j < fewer.len() && satisfies(
            #[trigger] fewer[j],
            dep.crate_id,
            dep.req@,
        ) implies crate::resolve::outranks(fewer[m], fewer[j]) by {
        let i = lemma_release_was_there(rels, fewer, c, j);
    }
    m
}

/// What a requirement resolves to in `fewer` it resolves to in `rels`.
proof fn lemma_resolution_was(
    rels: Seq<Release>,
    fewer: Seq<Release>,
    c: CrateId,
    dep: Dependency,
    m: int,
) -> (k: int)
    requires
        keeps_others(rels, fewer, c),
        resolves_at(fewer, dep.crate_id, dep.req@, m),
    ensures
        resolves_at(rels, dep.crate_id, dep.req@, k),
        rels[k] == fewer[m],
{
    let k = lemma_release_was_there(rels, fewer, c, m);
    assert forall|j: int|
        0 <= j < rels.len() && satisfies(
            #[trigger] rels[j],
            dep.crate_id,
            dep.req@,
        ) implies crate::resolve::outranks(rels[k], rels[j]) by {
        assert(fewer.contains(rels[j]));
        let i = choose|i: int| 0 <= i < fewer.len() && fewer[i] == rels[j];
        assert(satisfies(fewer[i], dep.crate_id, dep.req@));
    }
    k
}

/// A row that asks for another crate resolves to the same identifier.
proof fn lemma_resolves_to_alike(
    rels: Seq<Release>,
    fewer: Seq<Release>,
    c: CrateId,
    dep: Dependency,
    w: VersionId,
)
    requires
        keeps_others(rels, fewer, c),
        dep.crate_id != c,
    ensures
        resolves_to(rels, dep, w) == resolves_to(fewer, dep, w),
        resolves_to(fewer, dep, w) ==> is_live(fewer, w),
{
    if resolves_to(rels, dep, w) {
        let k = choose|k: int| #[trigger]
            resolves_at(rels, dep.crate_id, dep.req@, k) && rels[k].id == w;
        let m = lemma_resolution_stays(rels, fewer, c, dep, k);
        assert(resolves_at(fewer, dep.crate_id, dep.req@, m) && fewer[m].id == w);
    }
    if resolves_to(fewer, dep, w) {
        let m = choose|m: int| #[trigger]
            resolves_at(fewer, dep.crate_id, dep.req@, m) && fewer[m].id == w;
        let k = lemma_resolution_was(rels, fewer, c, dep, m);
        assert(resolves_at(rels, dep.crate_id, dep.req@, k) && rels[k].id == w);
        assert(fewer[m].id == w);
    }
}

/// A row of a release of `fewer` stands in both lists and asks for another
/// crate than `c`.
proof fn lemma_row_alike(
    rels: Seq<Release>,
    deps: Seq<Dependency>,
    fewer: Seq<Release>,
    other: Seq<Dependency>,
    c: CrateId,
    dep: Dependency,
)
    requires
        set_aside(rels, deps, fewer, other, c),
        is_live(fewer, dep.version_id),
    ensures
        deps.contains(dep) == other.contains(dep),
        deps.contains(dep) ==> dep.crate_id != c,
{
    if deps.contains(dep) {
        let d = choose|d: int| 0 <= d < deps.len() && deps[d] == dep;
        assert(other.contains(deps[d]));
        assert(deps[d].crate_id != c);
    }
    if other.contains(dep) {
        let d = choose|d: int| 0 <= d < other.len() && other[d] == dep;
        assert(deps.contains(other[d]));
    }
}

/// An edge that a dependency row gives from a release of `fewer` is given
/// with and without the crate `c`, and leads to a release of `fewer`.
proof fn lemma_dependency_edge_alike(
    rels: Seq<Release>,
    deps: Seq<Dependency>,
    fewer: Seq<Release>,
    other: Seq<Dependency>,
    c: CrateId,
    dep: Dependency,
    e: Edge,
)
    requires
        set_aside(rels, deps, fewer, other, c),
        is_live(fewer, e.from.version_id),
        deps.contains(dep) || other.contains(dep),
        dependency_edge(rels, dep, e) || dependency_edge(fewer, dep, e),
    ensures
        deps.contains(dep),
        other.contains(dep),
        dependency_edge(rels, dep, e),
        dependency_edge(fewer, dep, e),
        is_live(fewer, e.to.version_id),
{
    lemma_row_alike(rels, deps, fewer, other, c, dep);
    lemma_resolves_to_alike(rels, fewer, c, dep, e.to.version_id);
}

/// An edge that leaves a release of `fewer` through one of its rows is
/// there with and without the crate `c`, and leads to a release of `fewer`.
proof fn lemma_cross_edge_alike(
    rels: Seq<Release>,
    deps: Seq<Dependency>,
    fewer: Seq<Release>,
    other: Seq<Dependency>,
    c: CrateId,
    r: Release,
    e: Edge,
)
    requires
        set_aside(rels, deps, fewer, other, c),
        is_live(fewer, r.id),
    ensures
        cross_edge(rels, deps, r, e) == cross_edge(fewer, other, r, e),
        cross_edge(rels, deps, r, e) ==> is_live(fewer, e.to.version_id),
{
    if cross_edge(rels, deps, r, e) {
        let i = choose|i: int|
            0 <= i < r.features@.len() && cross_edge_of_feature(
                rels,
                deps,
                r,
                #[trigger] r.features@[i],
                e,
            );
        let fe = r.features@[i];
        let j = choose|j: int|
            0 <= j < fe.spec_all().len() && cross_edge_of_enable(
                rels,
                deps,
                r,
                fe,
                #[trigger] fe.spec_all()[j],
                e,
            );
        let cf = fe.spec_all()[j];
        let d = choose|d: int|
            0 <= d < deps.len() && cross_edge_by(rels, r, fe, cf, #[trigger] deps[d], e);
        let dep = deps[d];
        lemma_row_alike(rels, deps, fewer, other, c, dep);
        lemma_resolves_to_alike(rels, fewer, c, dep, e.to.version_id);
        let n = choose|n: int| 0 <= n < other.len() && other[n] == dep;
        assert(cross_edge_by(fewer, r, fe, cf, other[n], e));
        assert(cross_edge_of_enable(fewer, other, r, fe, fe.spec_all()[j], e));
        assert(cross_edge_of_feature(fewer, other, r, r.features@[i], e));
    }
    if cross_edge(fewer, other, r, e) {
        let i = choose|i: int|
            0 <= i < r.features@.len() && cross_edge_of_feature(
                fewer,
                other,
                r,
                #[trigger] r.features@[i],
                e,
            );
        let fe = r.features@[i];
        let j = choose|j: int|
            0 <= j < fe.spec_all().len() && cross_edge_of_enable(
                fewer,
                other,
                r,
                fe,
                #[trigger] fe.spec_all()[j],
                e,
            );
        let cf = fe.spec_all()[j];
        let d = choose|d: int|
            0 <= d < other.len() && cross_edge_by(fewer, r, fe, cf, #[trigger] other[d], e);
        let dep = other[d];
        lemma_row_alike(rels, deps, fewer, other, c, dep);
        lemma_resolves_to_alike(rels, fewer, c, dep, e.to.version_id);
        let n = choose|n: int| 0 <= n < deps.len() && deps[n] == dep;
        assert(cross_edge_by(rels, r, fe, cf, deps[n], e));
        assert(cross_edge_of_enable(rels, deps, r, fe, fe.spec_all()[j], e));
        assert(cross_edge_of_feature(rels, deps, r, r.features@[i], e));
    }
}

/// An edge from a release of `fewer` is in the graph with and without the
/// crate `c`, and leads to a release of `fewer`.
proof fn lemma_edge_alike(
    rels: Seq<Release>,
    deps: Seq<Dependency>,
    fewer: Seq<Release>,
    other: Seq<Dependency>,
    c: CrateId,
    e: Edge,
)
    requires
        set_aside(rels, deps, fewer, other, c),
        is_live(fewer, e.from.version_id),
    ensures
        has_edge(rels, deps, e) == has_edge(fewer, other, e),
        has_edge(rels, deps, e) ==> is_live(fewer, e.to.version_id),
{
    if has_edge(rels, deps, e) {
        if exists|d: int| 0 <= d < deps.len() && dependency_edge(rels, #[trigger] deps[d], e) {
            let d = choose|d: int|
                0 <= d < deps.len() && dependency_edge(rels, #[trigger] deps[d], e);
            lemma_dependency_edge_alike(rels, deps, fewer, other, c, deps[d], e);
            let n = choose|n: int| 0 <= n < other.len() && other[n] == deps[d];
            assert(dependency_edge(fewer, other[n], e));
        } else {
            let k = choose|k: int|
                0 <= k < rels.len() && release_edge(rels, deps, #[trigger] rels[k], e);
            assert(e.from.version_id == rels[k].id);
            let m = lemma_live_release_stays(rels, fewer, c, k);
            lemma_cross_edge_alike(rels, deps, fewer, other, c, rels[k], e);
            assert(release_edge(fewer, other, fewer[m], e));
            assert(is_live(fewer, e.to.version_id));
        }
    }
    if has_edge(fewer, other, e) {
        if exists|d: int| 0 <= d < other.len() && dependency_edge(fewer, #[trigger] other[d], e) {
            let d = choose|d: int|
                0 <= d < other.len() && dependency_edge(fewer, #[trigger] other[d], e);
            lemma_dependency_edge_alike(rels, deps, fewer, other, c, other[d], e);
            let n = choose|n: int| 0 <= n < deps.len() && deps[n] == other[d];
            assert(dependency_edge(rels, deps[n], e));
        } else {
            let m = choose|m: int|
                0 <= m < fewer.len() && release_edge(fewer, other, #[trigger] fewer[m], e);
            assert(e.from.version_id == fewer[m].id);
            let k = lemma_release_was_there(rels, fewer, c, m);
            lemma_cross_edge_alike(rels, deps, fewer, other, c, fewer[m], e);
            assert(release_edge(rels, deps, rels[k], e));
        }
    }
}

/// A walk that starts at a release of `fewer` stays among the releases of
/// `fewer`, and each of its steps is an edge with and without the crate `c`.
proof fn lemma_walk_stays(
    rels: Seq<Release>,
    deps: Seq<Dependency>,
    fewer: Seq<Release>,
    other: Seq<Dependency>,
    c: CrateId,
    walk: Seq<VersionFeature>,
    n: int,
)
    requires
        set_aside(rels, deps, fewer, other, c),
        is_walk_in(rels, deps, walk) || is_walk_in(fewer, other, walk),
        is_live(fewer, walk[0].version_id),
        0 <= n < walk.len(),
    ensures
        is_live(fewer, walk[n].version_id),
        n > 0 ==> has_edge(rels, deps, Edge { from: walk[n - 1], to: walk[n] }) && has_edge(
            fewer,
            other,
            Edge { from: walk[n - 1], to: walk[n] },
        ),
    decreases n,
{
    if n > 0 {
        lemma_walk_stays(rels, deps, fewer, other, c, walk, n - 1);
        let e = Edge { from: walk[n - 1], to: walk[n - 1 + 1] };
        assert(has_edge(rels, deps, e) || has_edge(fewer, other, e));
        lemma_edge_alike(rels, deps, fewer, other, c, e);
    }
}

/// From a release of `fewer` the same walks lead into the match set with
/// and without the crate `c`.
proof fn lemma_reaches_alike(
    rels: Seq<Release>,
    deps: Seq<Dependency>,
    fewer: Seq<Release>,
    other: Seq<Dependency>,
    c: CrateId,
    queries: Seq<Query>,
    col: int,
    node: VersionFeature,
)
    requires
        set_aside(rels, deps, fewer, other, c),
        is_live(fewer, node.version_id),
    ensures
        reaches_match(rels, deps, queries, col, node) == reaches_match(
            fewer,
            other,
            queries,
            col,
            node,
        ),
{
    if reaches_match(rels, deps, queries, col, node) {
        let walk = choose|walk: Seq<VersionFeature>| #[trigger]
            is_walk_in(rels, deps, walk) && walk[0] == node && is_seed(
                rels,
                queries,
                col,
                walk.last(),
            );
        assert forall|i: int| 0 <= i < walk.len() - 1 implies has_edge(
            fewer,
            other,
            Edge { from: #[trigger] walk[i], to: walk[i + 1] },
        ) by {
            lemma_walk_stays(rels, deps, fewer, other, c, walk, i + 1);
        }
        lemma_walk_stays(rels, deps, fewer, other, c, walk, walk.len() - 1);
        let k = choose|k: int|
            0 <= k < rels.len() && (#[trigger] rels[k]).id == walk.last().version_id
                && column_accepts(queries, col, rels[k]);
        let m = lemma_live_release_stays(rels, fewer, c, k);
        assert(is_seed(fewer, queries, col, walk.last()));
        assert(is_walk_in(fewer, other, walk));
    }
    if reaches_match(fewer, other, queries, col, node) {
        let walk = choose|walk: Seq<VersionFeature>| #[trigger]
            is_walk_in(fewer, other, walk) && walk[0] == node && is_seed(
                fewer,
                queries,
                col,
                walk.last(),
            );
        assert forall|i: int| 0 <= i < walk.len() - 1 implies has_edge(
            rels,
            deps,
            Edge { from: #[trigger] walk[i], to: walk[i + 1] },
        ) by {
            lemma_walk_stays(rels, deps, fewer, other, c, walk, i + 1);
        }
        let m = choose|m: int|
            0 <= m < fewer.len() && (#[trigger] fewer[m]).id == walk.last().version_id
                && column_accepts(queries, col, fewer[m]);
        let k = lemma_release_was_there(rels, fewer, c, m);
        assert(is_seed(rels, queries, col, walk.last()));
        assert(is_walk_in(rels, deps, walk));
    }
}

/// A release of `fewer` depends on the match set with the crate `c` as it
/// does without.
proof fn lemma_depends_alike(
    rels: Seq<Release>,
    deps: Seq<Dependency>,
    fewer: Seq<Release>,
    other: Seq<Dependency>,
    c: CrateId,
    queries: Seq<Query>,
    col: int,
    transitive: bool,
    v: VersionId,
)
    requires
        set_aside(rels, deps, fewer, other, c),
        is_live(fewer, v),
    ensures
        depends(rels, deps, queries, col, transitive, v) == depends(
            fewer,
            other,
            queries,
            col,
            transitive,
            v,
        ),
{
    if depends_directly(rels, deps, queries, col, v) {
        let d = choose|d: int|
            0 <= d < deps.len() && direct_by(rels, #[trigger] deps[d], queries, col, v);
        let dep = deps[d];
        lemma_row_alike(rels, deps, fewer, other, c, dep);
        let k = choose|k: int| #[trigger]
            resolves_at(rels, dep.crate_id, dep.req@, k) && column_accepts(queries, col, rels[k]);
        let m = lemma_resolution_stays(rels, fewer, c, dep, k);
        let n = choose|n: int| 0 <= n < other.len() && other[n] == dep;
        assert(direct_by(fewer, other[n], queries, col, v));
    }
    if depends_directly(fewer, other, queries, col, v) {
        let d = choose|d: int|
            0 <= d < other.len() && direct_by(fewer, #[trigger] other[d], queries, col, v);
        let dep = other[d];
        lemma_row_alike(rels, deps, fewer, other, c, dep);
        let m = choose|m: int| #[trigger]
            resolves_at(fewer, dep.crate_id, dep.req@, m) && column_accepts(
                queries,
                col,
                fewer[m],
            );
        let k = lemma_resolution_was(rels, fewer, c, dep, m);
        let n = choose|n: int| 0 <= n < deps.len() && deps[n] == dep;
        assert(direct_by(rels, deps[n], queries, col, v));
    }
    if depends_transitively(rels, deps, queries, col, v) {
        let f = choose|f: FeatureId| #[trigger]
            reaches_match(
                rels,
                deps,
                queries,
                col,
                VersionFeature { version_id: v, feature_id: f },
            );
        lemma_reaches_alike(
            rels,
            deps,
            fewer,
            other,
            c,
            queries,
            col,
            VersionFeature { version_id: v, feature_id: f },
        );
    }
    if depends_transitively(fewer, other, queries, col, v) {
        let f = choose|f: FeatureId| #[trigger]
            reaches_match(
                fewer,
                other,
                queries,
                col,
                VersionFeature { version_id: v, feature_id: f },
            );
        lemma_reaches_alike(
            rels,
            deps,
            fewer,
            other,
            c,
            queries,
            col,
            VersionFeature { version_id: v, feature_id: f },
        );
    }
}

/// A crate that no row asks for changes nothing for the others: each of
/// them counts with it as it does without it and without its rows. The
/// crate itself does not count where it has no release.
pub proof fn law_leaf_leaves_the_others(
    rels: Seq<Release>,
    deps: Seq<Dependency>,
    fewer: Seq<Release>,
    other: Seq<Dependency>,
    queries: Seq<Query>,
    col: int,
    transitive: bool,
    c: CrateId,
)
    requires
        set_aside(rels, deps, fewer, other, c),
    ensures
        forall|b: CrateId|
            b != c ==> #[trigger] contributes(rels, deps, queries, col, transitive, b)
                == contributes(fewer, other, queries, col, transitive, b),
        !contributes(fewer, other, queries, col, transitive, c),
        contributors(fewer, other, queries, col, transitive) == contributors(
            rels,
            deps,
            queries,
            col,
            transitive,
        ).remove(c),
{
    assert forall|b: CrateId| b != c implies #[trigger] contributes(
        rels,
        deps,
        queries,
        col,
        transitive,
        b,
    ) == contributes(fewer, other, queries, col, transitive, b) by {
        if contributes(rels, deps, queries, col, transitive, b) {
            let k = choose|k: int| #[trigger]
                contributes_at(rels, deps, queries, col, transitive, b, k);
            let m = lemma_latest_stays(rels, fewer, c, k);
            assert(is_live(fewer, fewer[m].id));
            lemma_depends_alike(rels, deps, fewer, other, c, queries, col, transitive, rels[k].id);
            assert(contributes_at(fewer, other, queries, col, transitive, b, m));
        }
        if contributes(fewer, other, queries, col, transitive, b) {
            let m = choose|m: int| #[trigger]
                contributes_at(fewer, other, queries, col, transitive, b, m);
            let k = lemma_latest_was(rels, fewer, c, m);
            assert(is_live(fewer, fewer[m].id));
            lemma_depends_alike(rels, deps, fewer, other, c, queries, col, transitive, rels[k].id);
            assert(contributes_at(rels, deps, queries, col, transitive, b, k));
        }
    }
    if contributes(fewer, other, queries, col, transitive, c) {
        let m = choose|m: int| #[trigger]
            contributes_at(fewer, other, queries, col, transitive, c, m);
        assert(fewer[m].crate_id != c);
    }
    assert(contributors(fewer, other, queries, col, transitive) =~= contributors(
        rels,
        deps,
        queries,
        col,
        transitive,
    ).remove(c));
}

/// A crate that no row asks for adds itself to a count and nothing else:
/// the count is one more than without the crate and its rows where the
/// crate counts, and the same where it does not.
pub proof fn law_leaf_adds_itself(
    rels: Seq<Release>,
    deps: Seq<Dependency>,
    fewer: Seq<Release>,
    other: Seq<Dependency>,
    queries: Seq<Query>,
    col: int,
    transitive: bool,
    c: CrateId,
)
    requires
        set_aside(rels, deps, fewer, other, c),
    ensures
        crate_count(rels, deps, queries, col, transitive) == crate_count(
            fewer,
            other,
            queries,
            col,
            transitive,
        ) + if contributes(rels, deps, queries, col, transitive, c) {
            1nat
        } else {
            0nat
        },
{
    law_leaf_leaves_the_others(rels, deps, fewer, other, queries, col, transitive, c);
    crate::laws::law_crate_counts_once(rels, deps, queries, col, transitive, c);
}

/// Taking a crate out and looking at an instant can be done in either
/// order.
proof fn lemma_visible_without(rels: Seq<Release>, c: CrateId, t: DateTime)
    ensures
        keeps_others(visible(rels, t), visible(without_crate(rels, c), t), c),
{
    let seen = visible(rels, t);
    let fewer = without_crate(rels, c);
    let both = visible(fewer, t);
    let at = |r: Release| r.created_at.spec_le(t);
    let not_c = |r: Release| r.crate_id != c;
    assert forall|i: int| 0 <= i < both.len() implies seen.contains(#[trigger] both[i])
        && both[i].crate_id != c by {
        let r = both[i];
        fewer.lemma_filter_pred(at, i);
        assert(both.contains(r));
        fewer.lemma_filter_contains_rev(at, r);
        let j = choose|j: int| 0 <= j < fewer.len() && fewer[j] == r;
        rels.lemma_filter_pred(not_c, j);
        rels.lemma_filter_contains_rev(not_c, r);
        let k = choose|k: int| 0 <= k < rels.len() && rels[k] == r;
        rels.lemma_filter_contains(at, k);
    }
    assert forall|i: int| 0 <= i < seen.len() && (#[trigger] seen[i]).crate_id
        != c implies both.contains(seen[i]) by {
        let r = seen[i];
        rels.lemma_filter_pred(at, i);
        assert(seen.contains(r));
        rels.lemma_filter_contains_rev(at, r);
        let k = choose|k: int| 0 <= k < rels.len() && rels[k] == r;
        rels.lemma_filter_contains(not_c, k);
        let j = choose|j: int| 0 <= j < fewer.len() && fewer[j] == r;
        fewer.lemma_filter_contains(at, j);
    }
}

/// At every instant, a crate that no row asks for adds itself to a count
/// and nothing else: the count is that of the dump without the crate and
/// the rows of its releases, and one more where the crate counts.
pub proof fn law_leaf_adds_itself_at(
    rels: Seq<Release>,
    deps: Seq<Dependency>,
    queries: Seq<Query>,
    col: int,
    transitive: bool,
    c: CrateId,
    t: DateTime,
)
    requires
        is_leaf(deps, c),
        ids_keep_to_a_crate(rels),
    ensures
        count_at(rels, deps, queries, col, transitive, t) == count_at(
            without_crate(rels, c),
            without_rows_of(rels, deps, c),
            queries,
            col,
            transitive,
            t,
        ) + if contributes(visible(rels, t), deps, queries, col, transitive, c) {
            1nat
        } else {
            0nat
        },
{
    let seen = visible(rels, t);
    let both = visible(without_crate(rels, c), t);
    let other = without_rows_of(rels, deps, c);
    let mine = |d: Dependency| !is_release_of(rels, d.version_id, c);
    let at = |r: Release| r.created_at.spec_le(t);
    lemma_visible_without(rels, c, t);
    assert forall|i: int, j: int|
        0 <= i < seen.len() && 0 <= j < seen.len() && (#[trigger] seen[i]).id == (
        #[trigger] seen[j]).id implies seen[i].crate_id == seen[j].crate_id by {
        assert(seen.contains(seen[i]) && seen.contains(seen[j]));
        rels.lemma_filter_contains_rev(at, seen[i]);
        rels.lemma_filter_contains_rev(at, seen[j]);
        let a = choose|a: int| 0 <= a < rels.len() && rels[a] == seen[i];
        let b = choose|b: int| 0 <= b < rels.len() && rels[b] == seen[j];
        assert(rels[a].id == rels[b].id);
    }
    assert forall|d: int|
        0 <= d < deps.len() && is_live(
            both,
            (#[trigger] deps[d]).version_id,
        ) implies other.contains(deps[d]) by {
        let m = choose|m: int| 0 <= m < both.len() && (#[trigger] both[m]).id == deps[d].version_id;
        assert(seen.contains(both[m]));
        rels.lemma_filter_contains_rev(at, both[m]);
        let a = choose|a: int| 0 <= a < rels.len() && rels[a] == both[m];
        if is_release_of(rels, deps[d].version_id, c) {
            let b = choose|b: int|
                0 <= b < rels.len() && (#[trigger] rels[b]).id == deps[d].version_id
                    && rels[b].crate_id == c;
            assert(rels[a].id == rels[b].id);
        }
        deps.lemma_filter_contains(mine, d);
    }
    assert forall|d: int|
        0 <= d < other.len() && is_live(
            both,
            (#[trigger] other[d]).version_id,
        ) implies deps.contains(other[d]) by {
        assert(other.contains(other[d]));
        deps.lemma_filter_contains_rev(mine, other[d]);
    }
    law_leaf_adds_itself(seen, deps, both, other, queries, col, transitive, c);
}

/// Before the first release of a crate that no row asks for, the counts
/// are those of the dump without the crate and its rows.
pub proof fn law_leaf_adds_nothing_before_its_release(
    rels: Seq<Release>,
    deps: Seq<Dependency>,
    queries: Seq<Query>,
    col: int,
    transitive: bool,
    c: CrateId,
    t: DateTime,
)
    requires
        is_leaf(deps, c),
        ids_keep_to_a_crate(rels),
        forall|i: int|
            0 <= i < rels.len() && (#[trigger] rels[i]).crate_id == c ==> t.spec_lt(
                rels[i].created_at,
            ),
    ensures
        count_at(rels, deps, queries, col, transitive, t) == count_at(
            without_crate(rels, c),
            without_rows_of(rels, deps, c),
            queries,
            col,
            transitive,
            t,
        ),
{
    law_leaf_adds_itself_at(rels, deps, queries, col, transitive, c, t);
    crate::laws::law_no_count_before_first_release(rels, deps, queries, col, transitive, c, t);
}

/// A dependant of a dependant adds one to the transitive count. Let no row
/// ask for the crate `c`. At an instant at which the active release of `c`
/// has a row that resolves to the release `w`, and a row that `w` always
/// has resolves into the match set, the count is one more than that of the
/// dump without `c` and its rows.
pub proof fn law_dependant_of_a_dependant_adds_one(
    rels: Seq<Release>,
    deps: Seq<Dependency>,
    queries: Seq<Query>,
    col: int,
    c: CrateId,
    t: DateTime,
    k: int,
    outer: int,
    inner: int,
    w: VersionId,
)
    requires
        is_leaf(deps, c),
        ids_keep_to_a_crate(rels),
        is_latest(visible(rels, t), k),
        visible(rels, t)[k].crate_id == c,
        0 <= outer < deps.len(),
        deps[outer].version_id == visible(rels, t)[k].id,
        deps[outer].kind != DependencyKind::Dev,
        resolves_to(visible(rels, t), deps[outer], w),
        0 <= inner < deps.len(),
        deps[inner].feature_id == FeatureId::krate(),
        deps[inner].kind != DependencyKind::Dev,
        direct_by(visible(rels, t), deps[inner], queries, col, w),
    ensures
        count_at(rels, deps, queries, col, true, t) == count_at(
            without_crate(rels, c),
            without_rows_of(rels, deps, c),
            queries,
            col,
            true,
            t,
        ) + 1,
{
    law_leaf_adds_itself_at(rels, deps, queries, col, true, c, t);
    crate::laws::law_counts_through_a_dependency(
        visible(rels, t),
        deps,
        queries,
        col,
        c,
        k,
        outer,
        inner,
        w,
    );
}

} // verus!
