//! Publishing every release a second time changes no count.

use crate::feature::{feature_views, FeatureId, VersionFeature};
use crate::graph::{
    cross_edge, cross_edge_by, cross_edge_of_enable, cross_edge_of_feature, dependency_edge,
    has_edge, intra_edge, is_seed, is_walk_in, own_feature_edge, reaches_match, release_edge,
    resolves_to, Edge,
};
use crate::id::{CrateId, VersionId};
use crate::resolve::{outranks, resolves_at, satisfies};
use crate::select::{
    column_accepts,
    is_latest,
    lemma_accepts_by_number,
    lemma_latest_unique,
    lemma_leader_exists,
    more_recent,
};
use crate::tally::{
    contributes, contributes_at, contributors, crate_count, depends, depends_directly,
    depends_transitively, direct_by,
};
use crate::version::ComparatorView;
use crate::{Dependency, Query, Release};
use vstd::prelude::*;

verus! {

/// `again` is the release `first` published once more, at its instant or
/// later.
pub open spec fn same_release_later(first: Release, again: Release) -> bool {
    &&& again.id == first.id
    &&& again.crate_id == first.crate_id
    &&& again.num@ == first.num@
    &&& feature_views(again.features@) == feature_views(first.features@)
    &&& first.created_at.spec_le(again.created_at)
}

/// `again` replays the releases `rels`: each release once more, later, and
/// in the same order in time.
pub open spec fn is_replay(rels: Seq<Release>, again: Seq<Release>) -> bool {
    &&& again.len() == rels.len()
    &&& forall|i: int| 0 <= i < rels.len() ==> same_release_later(#[trigger] rels[i], again[i])
    &&& forall|i: int, j: int|
        0 <= i < rels.len() && 0 <= j < rels.len() && (#[trigger] rels[i]).created_at.spec_lt(
            (#[trigger] rels[j]).created_at,
        ) ==> again[i].created_at.spec_lt(again[j].created_at)
    &&& forall|i: int, j: int|
        0 <= i < rels.len() && 0 <= j < rels.len() && (#[trigger] rels[i]).created_at == (
        #[trigger] rels[j]).created_at ==> again[i].created_at == again[j].created_at
}

/// The place in `rels` of the release that stands at `k` in the replayed
/// list.
pub open spec fn origin(rels: Seq<Release>, k: int) -> int {
    if k < rels.len() {
        k
    } else {
        k - rels.len()
    }
}

proof fn lemma_origin(rels: Seq<Release>, again: Seq<Release>, k: int)
    requires
        is_replay(rels, again),
        0 <= k < (rels + again).len(),
    ensures
        0 <= origin(rels, k) < rels.len(),
        (rels + again)[k].id == rels[origin(rels, k)].id,
        (rels + again)[k].crate_id == rels[origin(rels, k)].crate_id,
        (rels + again)[k].num@ == rels[origin(rels, k)].num@,
        feature_views((rels + again)[k].features@) == feature_views(
            rels[origin(rels, k)].features@,
        ),
        k < rels.len() ==> (rels + again)[k] == rels[k],
{
    if k >= rels.len() {
        assert((rels + again)[k] == again[k - rels.len()]);
        assert(same_release_later(rels[k - rels.len()], again[k - rels.len()]));
    }
}

/// A requirement resolves in the replayed list to what it resolves to in
/// the list itself.
proof fn lemma_replay_resolves(
    rels: Seq<Release>,
    again: Seq<Release>,
    crate_id: CrateId,
    req: Seq<ComparatorView>,
    k: int,
)
    requires
        is_replay(rels, again),
    ensures
        resolves_at(rels, crate_id, req, k) ==> resolves_at(rels + again, crate_id, req, k),
        resolves_at(rels + again, crate_id, req, k) ==> resolves_at(
            rels,
            crate_id,
            req,
            origin(rels, k),
        ),
{
    let both = rels + again;
    if resolves_at(rels, crate_id, req, k) {
        lemma_origin(rels, again, k);
        assert forall|j: int|
            0 <= j < both.len() && satisfies(#[trigger] both[j], crate_id, req) implies outranks(
            both[k],
            both[j],
        ) by {
            lemma_origin(rels, again, j);
            assert(satisfies(rels[origin(rels, j)], crate_id, req));
        }
    }
    if resolves_at(both, crate_id, req, k) {
        lemma_origin(rels, again, k);
        let o = origin(rels, k);
        assert forall|j: int|
            0 <= j < rels.len() && satisfies(#[trigger] rels[j], crate_id, req) implies outranks(
            rels[o],
            rels[j],
        ) by {
            lemma_origin(rels, again, j);
            assert(satisfies(both[j], crate_id, req));
        }
    }
}

proof fn lemma_replay_resolves_to(
    rels: Seq<Release>,
    again: Seq<Release>,
    dep: Dependency,
    w: VersionId,
)
    requires
        is_replay(rels, again),
    ensures
        resolves_to(rels + again, dep, w) == resolves_to(rels, dep, w),
{
    let both = rels + again;
    if resolves_to(both, dep, w) {
        let k = choose|k: int| #[trigger]
            resolves_at(both, dep.crate_id, dep.req@, k) && both[k].id == w;
        lemma_replay_resolves(rels, again, dep.crate_id, dep.req@, k);
        lemma_origin(rels, again, k);
    }
    if resolves_to(rels, dep, w) {
        let k = choose|k: int| #[trigger]
            resolves_at(rels, dep.crate_id, dep.req@, k) && rels[k].id == w;
        lemma_replay_resolves(rels, again, dep.crate_id, dep.req@, k);
        lemma_origin(rels, again, k);
    }
}

proof fn lemma_replay_direct(
    rels: Seq<Release>,
    again: Seq<Release>,
    deps: Seq<Dependency>,
    queries: Seq<Query>,
    col: int,
    v: VersionId,
)
    requires
        is_replay(rels, again),
    ensures
        depends_directly(rels + again, deps, queries, col, v) == depends_directly(
            rels,
            deps,
            queries,
            col,
            v,
        ),
{
    let both = rels + again;
    if depends_directly(both, deps, queries, col, v) {
        let d = choose|d: int|
            0 <= d < deps.len() && direct_by(both, #[trigger] deps[d], queries, col, v);
        let k = choose|k: int| #[trigger]
            resolves_at(both, deps[d].crate_id, deps[d].req@, k) && column_accepts(
                queries,
                col,
                both[k],
            );
        lemma_replay_resolves(rels, again, deps[d].crate_id, deps[d].req@, k);
        lemma_origin(rels, again, k);
        lemma_accepts_by_number(queries, col, both[k], rels[origin(rels, k)]);
        assert(direct_by(rels, deps[d], queries, col, v));
    }
    if depends_directly(rels, deps, queries, col, v) {
        let d = choose|d: int|
            0 <= d < deps.len() && direct_by(rels, #[trigger] deps[d], queries, col, v);
        let k = choose|k: int| #[trigger]
            resolves_at(rels, deps[d].crate_id, deps[d].req@, k) && column_accepts(
                queries,
                col,
                rels[k],
            );
        lemma_replay_resolves(rels, again, deps[d].crate_id, deps[d].req@, k);
        lemma_origin(rels, again, k);
        assert(direct_by(both, deps[d], queries, col, v));
    }
}

/// The edges from a release's own features depend on its identifier, its
/// crate and what its features are.
proof fn lemma_release_edge_by_view(
    one: Seq<Release>,
    other: Seq<Release>,
    deps: Seq<Dependency>,
    a: Release,
    b: Release,
    e: Edge,
)
    requires
        a.id == b.id,
        a.crate_id == b.crate_id,
        feature_views(a.features@) == feature_views(b.features@),
        forall|dep: Dependency, w: VersionId| #[trigger]
            resolves_to(one, dep, w) == resolves_to(other, dep, w),
        release_edge(one, deps, a, e),
    ensures
        release_edge(other, deps, b, e),
{
    assert(a.features@.len() == feature_views(a.features@).len());
    assert(b.features@.len() == feature_views(b.features@).len());
    if intra_edge(a, e) {
        if exists|i: int| 0 <= i < a.features@.len() && own_feature_edge(a, #[trigger] a.features@[i], e) {
            let i = choose|i: int|
                0 <= i < a.features@.len() && own_feature_edge(a, #[trigger] a.features@[i], e);
            assert(feature_views(a.features@)[i] == a.features@[i]@);
            assert(feature_views(b.features@)[i] == b.features@[i]@);
            assert(own_feature_edge(b, b.features@[i], e));
        }
        assert(intra_edge(b, e));
    } else {
        let i = choose|i: int|
            0 <= i < a.features@.len() && cross_edge_of_feature(
                one,
                deps,
                a,
                #[trigger] a.features@[i],
                e,
            );
        let fa = a.features@[i];
        let fb = b.features@[i];
        assert(feature_views(a.features@)[i] == fa@);
        assert(feature_views(b.features@)[i] == fb@);
        let j = choose|j: int|
            0 <= j < fa.spec_all().len() && cross_edge_of_enable(
                one,
                deps,
                a,
                fa,
                #[trigger] fa.spec_all()[j],
                e,
            );
        let d = choose|d: int|
            0 <= d < deps.len() && cross_edge_by(one, a, fa, fa.spec_all()[j], #[trigger] deps[d], e);
        assert(resolves_to(one, deps[d], e.to.version_id) == resolves_to(
            other,
            deps[d],
            e.to.version_id,
        ));
        assert(fb.spec_all()[j] == fa.spec_all()[j]);
        assert(cross_edge_by(other, b, fb, fb.spec_all()[j], deps[d], e));
        assert(cross_edge_of_enable(other, deps, b, fb, fb.spec_all()[j], e));
        assert(cross_edge_of_feature(other, deps, b, fb, e));
        assert(cross_edge(other, deps, b, e));
    }
}

proof fn lemma_replay_edges(rels: Seq<Release>, again: Seq<Release>, deps: Seq<Dependency>, e: Edge)
    requires
        is_replay(rels, again),
    ensures
        has_edge(rels + again, deps, e) == has_edge(rels, deps, e),
{
    let both = rels + again;
    assert forall|dep: Dependency, w: VersionId| #[trigger]
        resolves_to(both, dep, w) == resolves_to(rels, dep, w) by {
        lemma_replay_resolves_to(rels, again, dep, w);
    }
    if has_edge(both, deps, e) {
        if exists|d: int| 0 <= d < deps.len() && dependency_edge(both, #[trigger] deps[d], e) {
            let d = choose|d: int| 0 <= d < deps.len() && dependency_edge(both, #[trigger] deps[d], e);
            assert(resolves_to(both, deps[d], e.to.version_id) == resolves_to(
                rels,
                deps[d],
                e.to.version_id,
            ));
            assert(dependency_edge(rels, deps[d], e));
        } else {
            let k = choose|k: int|
                0 <= k < both.len() && release_edge(both, deps, #[trigger] both[k], e);
            lemma_origin(rels, again, k);
            lemma_release_edge_by_view(both, rels, deps, both[k], rels[origin(rels, k)], e);
        }
    }
    if has_edge(rels, deps, e) {
        if exists|d: int| 0 <= d < deps.len() && dependency_edge(rels, #[trigger] deps[d], e) {
            let d = choose|d: int| 0 <= d < deps.len() && dependency_edge(rels, #[trigger] deps[d], e);
            assert(resolves_to(both, deps[d], e.to.version_id) == resolves_to(
                rels,
                deps[d],
                e.to.version_id,
            ));
            assert(dependency_edge(both, deps[d], e));
        } else {
            let k = choose|k: int|
                0 <= k < rels.len() && release_edge(rels, deps, #[trigger] rels[k], e);
            lemma_origin(rels, again, k);
            lemma_release_edge_by_view(rels, both, deps, rels[k], both[k], e);
        }
    }
}

proof fn lemma_replay_seeds(
    rels: Seq<Release>,
    again: Seq<Release>,
    queries: Seq<Query>,
    col: int,
    node: VersionFeature,
)
    requires
        is_replay(rels, again),
    ensures
        is_seed(rels + again, queries, col, node) == is_seed(rels, queries, col, node),
{
    let both = rels + again;
    if is_seed(both, queries, col, node) {
        let k = choose|k: int|
            0 <= k < both.len() && (#[trigger] both[k]).id == node.version_id && column_accepts(
                queries,
                col,
                both[k],
            );
        lemma_origin(rels, again, k);
        lemma_accepts_by_number(queries, col, both[k], rels[origin(rels, k)]);
        assert(rels[origin(rels, k)].id == node.version_id);
    }
    if is_seed(rels, queries, col, node) {
        let k = choose|k: int|
            0 <= k < rels.len() && (#[trigger] rels[k]).id == node.version_id && column_accepts(
                queries,
                col,
                rels[k],
            );
        lemma_origin(rels, again, k);
        assert(both[k].id == node.version_id);
    }
}

proof fn lemma_replay_reaches(
    rels: Seq<Release>,
    again: Seq<Release>,
    deps: Seq<Dependency>,
    queries: Seq<Query>,
    col: int,
    node: VersionFeature,
)
    requires
        is_replay(rels, again),
    ensures
        reaches_match(rels + again, deps, queries, col, node) == reaches_match(
            rels,
            deps,
            queries,
            col,
            node,
        ),
{
    let both = rels + again;
    assert forall|e: Edge| has_edge(both, deps, e) == has_edge(rels, deps, e) by {
        lemma_replay_edges(rels, again, deps, e);
    }
    if reaches_match(both, deps, queries, col, node) {
        let walk = choose|walk: Seq<VersionFeature>|
            #[trigger] is_walk_in(both, deps, walk) && walk[0] == node && is_seed(
                both,
                queries,
                col,
                walk.last(),
            );
        lemma_replay_seeds(rels, again, queries, col, walk.last());
        assert(is_walk_in(rels, deps, walk));
    }
    if reaches_match(rels, deps, queries, col, node) {
        let walk = choose|walk: Seq<VersionFeature>|
            #[trigger] is_walk_in(rels, deps, walk) && walk[0] == node && is_seed(
                rels,
                queries,
                col,
                walk.last(),
            );
        lemma_replay_seeds(rels, again, queries, col, walk.last());
        assert(is_walk_in(both, deps, walk));
    }
}

proof fn lemma_replay_transitive(
    rels: Seq<Release>,
    again: Seq<Release>,
    deps: Seq<Dependency>,
    queries: Seq<Query>,
    col: int,
    v: VersionId,
)
    requires
        is_replay(rels, again),
    ensures
        depends_transitively(rels + again, deps, queries, col, v) == depends_transitively(
            rels,
            deps,
            queries,
            col,
            v,
        ),
{
    let both = rels + again;
    if depends_transitively(both, deps, queries, col, v) {
        let f = choose|f: FeatureId| #[trigger]
            reaches_match(both, deps, queries, col, VersionFeature { version_id: v, feature_id: f });
        lemma_replay_reaches(
            rels,
            again,
            deps,
            queries,
            col,
            VersionFeature { version_id: v, feature_id: f },
        );
    }
    if depends_transitively(rels, deps, queries, col, v) {
        let f = choose|f: FeatureId| #[trigger]
            reaches_match(rels, deps, queries, col, VersionFeature { version_id: v, feature_id: f });
        lemma_replay_reaches(
            rels,
            again,
            deps,
            queries,
            col,
            VersionFeature { version_id: v, feature_id: f },
        );
    }
}

proof fn lemma_replay_depends(
    rels: Seq<Release>,
    again: Seq<Release>,
    deps: Seq<Dependency>,
    queries: Seq<Query>,
    col: int,
    transitive: bool,
    v: VersionId,
)
    requires
        is_replay(rels, again),
    ensures
        depends(rels + again, deps, queries, col, transitive, v) == depends(
            rels,
            deps,
            queries,
            col,
            transitive,
            v,
        ),
{
    lemma_replay_direct(rels, again, deps, queries, col, v);
    lemma_replay_transitive(rels, again, deps, queries, col, v);
}

/// The active release of a crate, once more: it is the active release of
/// the crate in the replayed list.
proof fn lemma_replay_latest(rels: Seq<Release>, again: Seq<Release>, k: int)
    requires
        is_replay(rels, again),
        is_latest(rels, k),
    ensures
        is_latest(rels + again, rels.len() + k),
        (rels + again)[rels.len() + k].id == rels[k].id,
        (rels + again)[rels.len() + k].crate_id == rels[k].crate_id,
{
    let both = rels + again;
    let n = rels.len() as int;
    lemma_origin(rels, again, n + k);
    assert(both[n + k] == again[k]);
    assert(same_release_later(rels[k], again[k]));
    assert forall|j: int|
        0 <= j < both.len() && (#[trigger] both[j]).crate_id == both[n + k].crate_id implies more_recent(
        both[n + k],
        both[j],
    ) by {
        lemma_origin(rels, again, j);
        let o = origin(rels, j);
        assert(more_recent(rels[k], rels[o]));
        assert(same_release_later(rels[o], again[o]));
        assert(rels[k].num@.pre.len() == again[k].num@.pre.len());
        assert(rels[o].num@.pre.len() == again[o].num@.pre.len());
        if j < n {
            assert(both[j] == rels[j]);
        } else {
            assert(both[j] == again[o]);
            if rels[o].created_at.spec_lt(rels[k].created_at) {
                assert(again[o].created_at.spec_lt(again[k].created_at));
            } else if rels[o].created_at == rels[k].created_at {
                assert(again[o].created_at == again[k].created_at);
            }
        }
    }
}

proof fn lemma_replay_contributes(
    rels: Seq<Release>,
    again: Seq<Release>,
    deps: Seq<Dependency>,
    queries: Seq<Query>,
    col: int,
    transitive: bool,
    c: CrateId,
)
    requires
        is_replay(rels, again),
    ensures
        contributes(rels + again, deps, queries, col, transitive, c) == contributes(
            rels,
            deps,
            queries,
            col,
            transitive,
            c,
        ),
{
    let both = rels + again;
    let n = rels.len() as int;
    if contributes(both, deps, queries, col, transitive, c) {
        let k = choose|k: int| #[trigger] contributes_at(both, deps, queries, col, transitive, c, k);
        lemma_origin(rels, again, k);
        let lead = lemma_leader_exists(rels, origin(rels, k));
        lemma_replay_latest(rels, again, lead);
        lemma_latest_unique(both, k, n + lead);
        lemma_replay_depends(rels, again, deps, queries, col, transitive, rels[lead].id);
        assert(contributes_at(rels, deps, queries, col, transitive, c, lead));
    }
    if contributes(rels, deps, queries, col, transitive, c) {
        let k = choose|k: int| #[trigger] contributes_at(rels, deps, queries, col, transitive, c, k);
        lemma_replay_latest(rels, again, k);
        lemma_replay_depends(rels, again, deps, queries, col, transitive, rels[k].id);
        assert(contributes_at(both, deps, queries, col, transitive, c, n + k));
    }
}

/// To publish every release a second time changes no count: once the
/// releases have been replayed, each at its instant or later and in the
/// same order, the same crates count as before.
pub proof fn law_replay_keeps_counts(
    rels: Seq<Release>,
    again: Seq<Release>,
    deps: Seq<Dependency>,
    queries: Seq<Query>,
    col: int,
    transitive: bool,
)
    requires
        is_replay(rels, again),
    ensures
        contributors(rels + again, deps, queries, col, transitive) == contributors(
            rels,
            deps,
            queries,
            col,
            transitive,
        ),
        crate_count(rels + again, deps, queries, col, transitive) == crate_count(
            rels,
            deps,
            queries,
            col,
            transitive,
        ),
{
    let before = contributors(rels, deps, queries, col, transitive);
    let after = contributors(rels + again, deps, queries, col, transitive);
    assert forall|c: CrateId| after.contains(c) == before.contains(c) by {
        lemma_replay_contributes(rels, again, deps, queries, col, transitive, c);
    }
    assert(after =~= before);
}

} // verus!
