//! The graph that transitive counting walks. Its nodes are the features of
//! releases; its edges come from dependency rows and from what features
//! enable.

use crate::arena::Slice;
use crate::dependency::DependencyKind;
use crate::feature::{
    enabled_features, CrateFeature, DefaultFeatures, FeatureEnables, FeatureId, FeatureIter,
    VersionFeature,
};
use crate::id::VersionId;
use crate::resolve::{all_stable, lemma_resolution_unique, resolve_index, resolves_at};
use crate::select::{accepts_column, column_accepts};
use crate::{Dependency, Query, Release};
use vstd::prelude::*;

verus! {

/// `from` needs `to`: a feature of a release that brings in a feature of
/// another release, or of the same one.
#[derive(Debug)]
pub struct Edge<N = VersionFeature> {
    pub from: N,
    pub to: N,
}

impl<N: Copy> Copy for Edge<N> {

}

impl<N: Copy> Clone for Edge<N> {
    fn clone(&self) -> (copy: Self)
        ensures
            copy == *self,
    {
        *self
    }
}

/// What can be a node of a graph: a value that can be told from another.
pub trait Node: Copy + Sized {
    /// Whether the two are the same node.
    fn same(&self, other: &Self) -> (b: bool)
        ensures
            b == (*self == *other),
    ;
}

impl Node for VersionFeature {
    fn same(&self, other: &Self) -> (b: bool) {
        self.version_id.0 == other.version_id.0 && self.feature_id.0 == other.feature_id.0
    }
}

impl Node for crate::id::CrateId {
    fn same(&self, other: &Self) -> (b: bool) {
        self.0 == other.0
    }
}

/// A requirement on `crate_id` resolves to a release with identifier `w`.
pub open spec fn resolves_to(rels: Seq<Release>, dep: Dependency, w: VersionId) -> bool {
    exists|k: int| #[trigger] resolves_at(rels, dep.crate_id, dep.req@, k) && rels[k].id == w
}

/// The edge comes from the dependency row itself: from the feature that
/// brings the row in, to a feature that the row enables of the release it
/// resolves to. Rows of the development table give none.
pub open spec fn dependency_edge(rels: Seq<Release>, dep: Dependency, e: Edge) -> bool {
    &&& dep.kind != DependencyKind::Dev
    &&& e.from == (VersionFeature { version_id: dep.version_id, feature_id: dep.feature_id })
    &&& enabled_features(dep.default_features.0, dep.features@).contains(e.to.feature_id)
    &&& resolves_to(rels, dep, e.to.version_id)
}

/// The edge stays within the release and comes from the feature `fe`: to a
/// feature of the same crate that `fe` enables, for good or weakly, or,
/// unless `fe` is `default`, to the crate itself.
pub open spec fn own_feature_edge(r: Release, fe: FeatureEnables, e: Edge) -> bool {
    &&& e.from == (VersionFeature { version_id: r.id, feature_id: fe.id })
    &&& e.to.version_id == r.id
    &&& {
        ||| (fe.id != FeatureId::default_feature() && e.to.feature_id == FeatureId::krate())
        ||| fe.spec_all().contains(
            CrateFeature { crate_id: r.crate_id, feature_id: e.to.feature_id },
        )
    }
}

/// The edge stays within the release: from `default` to the crate itself, or
/// from one of the features that the release declares.
pub open spec fn intra_edge(r: Release, e: Edge) -> bool {
    ||| e == (Edge {
        from: VersionFeature { version_id: r.id, feature_id: FeatureId::default_feature() },
        to: VersionFeature { version_id: r.id, feature_id: FeatureId::krate() },
    })
    ||| exists|i: int| 0 <= i < r.features@.len() && own_feature_edge(r, #[trigger] r.features@[i], e)
}

/// The edge leaves the release through the dependency row `dep`: the feature
/// `fe` enables, for good or weakly, the feature `cf` of another crate, `dep`
/// is a row of the release on that crate, and the edge leads to what `dep`
/// resolves to.
pub open spec fn cross_edge_by(
    rels: Seq<Release>,
    r: Release,
    fe: FeatureEnables,
    cf: CrateFeature,
    dep: Dependency,
    e: Edge,
) -> bool {
    &&& cf.crate_id != r.crate_id
    &&& dep.version_id == r.id
    &&& dep.crate_id == cf.crate_id
    &&& e.from == (VersionFeature { version_id: r.id, feature_id: fe.id })
    &&& e.to.feature_id == cf.feature_id
    &&& resolves_to(rels, dep, e.to.version_id)
}

/// The edge leaves the release through one of its dependency rows, for the
/// feature `cf` that `fe` enables.
pub open spec fn cross_edge_of_enable(
    rels: Seq<Release>,
    deps: Seq<Dependency>,
    r: Release,
    fe: FeatureEnables,
    cf: CrateFeature,
    e: Edge,
) -> bool {
    exists|d: int| 0 <= d < deps.len() && cross_edge_by(rels, r, fe, cf, #[trigger] deps[d], e)
}

/// The edge leaves the release for one of the features that `fe` enables.
pub open spec fn cross_edge_of_feature(
    rels: Seq<Release>,
    deps: Seq<Dependency>,
    r: Release,
    fe: FeatureEnables,
    e: Edge,
) -> bool {
    exists|j: int|
        0 <= j < fe.spec_all().len() && cross_edge_of_enable(
            rels,
            deps,
            r,
            fe,
            #[trigger] fe.spec_all()[j],
            e,
        )
}

/// The edge leaves the release: one of its features enables a feature of a
/// crate that the release depends on.
pub open spec fn cross_edge(rels: Seq<Release>, deps: Seq<Dependency>, r: Release, e: Edge) -> bool {
    exists|i: int|
        0 <= i < r.features@.len() && cross_edge_of_feature(
            rels,
            deps,
            r,
            #[trigger] r.features@[i],
            e,
        )
}

/// The edge comes from the release's own features.
pub open spec fn release_edge(rels: Seq<Release>, deps: Seq<Dependency>, r: Release, e: Edge) -> bool {
    intra_edge(r, e) || cross_edge(rels, deps, r, e)
}

/// The graph that transitive counting walks has the edge `e`.
pub open spec fn has_edge(rels: Seq<Release>, deps: Seq<Dependency>, e: Edge) -> bool {
    ||| exists|d: int| 0 <= d < deps.len() && dependency_edge(rels, #[trigger] deps[d], e)
    ||| exists|k: int| 0 <= k < rels.len() && release_edge(rels, deps, #[trigger] rels[k], e)
}

/// A seed of column `col`: the crate itself, of a release in the column's
/// match set.
pub open spec fn is_seed(rels: Seq<Release>, queries: Seq<Query>, col: int, node: VersionFeature) -> bool {
    &&& node.feature_id == FeatureId::krate()
    &&& exists|k: int|
        0 <= k < rels.len() && (#[trigger] rels[k]).id == node.version_id && column_accepts(
            queries,
            col,
            rels[k],
        )
}

/// A walk along edges of `edges`: at least one node, each followed by one
/// that it needs.
pub open spec fn is_walk<N>(edges: Seq<Edge<N>>, walk: Seq<N>) -> bool {
    &&& walk.len() > 0
    &&& forall|i: int|
        0 <= i < walk.len() - 1 ==> edges.contains(
            Edge { from: #[trigger] walk[i], to: walk[i + 1] },
        )
}

/// There is a walk from `node` to one of `seeds`.
#[verifier::opaque]
pub open spec fn reaches<N>(edges: Seq<Edge<N>>, seeds: Seq<N>, node: N) -> bool {
    exists|walk: Seq<N>|
        #[trigger] is_walk(edges, walk) && walk[0] == node && seeds.contains(walk.last())
}

/// A walk in the graph of the releases and dependency rows.
pub open spec fn is_walk_in(rels: Seq<Release>, deps: Seq<Dependency>, walk: Seq<VersionFeature>) -> bool {
    &&& walk.len() > 0
    &&& forall|i: int|
        0 <= i < walk.len() - 1 ==> has_edge(
            rels,
            deps,
            Edge { from: #[trigger] walk[i], to: walk[i + 1] },
        )
}

/// From `node` a walk leads to a release in the match set of column `col`.
pub open spec fn reaches_match(
    rels: Seq<Release>,
    deps: Seq<Dependency>,
    queries: Seq<Query>,
    col: int,
    node: VersionFeature,
) -> bool {
    exists|walk: Seq<VersionFeature>|
        #[trigger] is_walk_in(rels, deps, walk) && walk[0] == node && is_seed(
            rels,
            queries,
            col,
            walk.last(),
        )
}

/// `edges` lists the edges of the graph, `seeds` its seeds.
pub open spec fn lists_graph(
    rels: Seq<Release>,
    deps: Seq<Dependency>,
    edges: Seq<Edge>,
) -> bool {
    forall|e: Edge| #![trigger edges.contains(e)] edges.contains(e) <==> has_edge(rels, deps, e)
}

/// `seeds` lists the seeds of column `col`.
pub open spec fn lists_seeds(
    rels: Seq<Release>,
    queries: Seq<Query>,
    col: int,
    seeds: Seq<VersionFeature>,
) -> bool {
    forall|s: VersionFeature|
        #![trigger seeds.contains(s)]
        seeds.contains(s) <==> is_seed(rels, queries, col, s)
}

/// Over a list of the graph's edges and seeds, to reach a seed is to reach
/// the match set.
pub proof fn lemma_reaches_listed(
    rels: Seq<Release>,
    deps: Seq<Dependency>,
    queries: Seq<Query>,
    col: int,
    edges: Seq<Edge>,
    seeds: Seq<VersionFeature>,
    node: VersionFeature,
)
    requires
        lists_graph(rels, deps, edges),
        lists_seeds(rels, queries, col, seeds),
    ensures
        reaches(edges, seeds, node) == reaches_match(rels, deps, queries, col, node),
{
    reveal(reaches);
    if reaches(edges, seeds, node) {
        let walk = choose|walk: Seq<VersionFeature>|
            #[trigger] is_walk(edges, walk) && walk[0] == node && seeds.contains(walk.last());
        assert(is_walk_in(rels, deps, walk));
    }
    if reaches_match(rels, deps, queries, col, node) {
        let walk = choose|walk: Seq<VersionFeature>|
            #[trigger] is_walk_in(rels, deps, walk) && walk[0] == node && is_seed(
                rels,
                queries,
                col,
                walk.last(),
            );
        assert(is_walk(edges, walk));
    }
}

fn push_edge<N: Node>(edges: &mut Vec<Edge<N>>, e: Edge<N>)
    ensures
        forall|x: Edge<N>|
            #![trigger final(edges)@.contains(x)]
            final(edges)@.contains(x) <==> old(edges)@.contains(x) || x == e,
        final(edges)@.len() == old(edges)@.len() + 1,
{
    edges.push(e);
    proof {
        let before = old(edges)@;
        let after = edges@;
        assert(after == before.push(e));
        assert forall|x: Edge<N>|
            #![trigger after.contains(x)]
            after.contains(x) <==> before.contains(x) || x == e by {
            if before.contains(x) {
                let i = choose|i: int| 0 <= i < before.len() && before[i] == x;
                assert(after[i] == x);
            }
            if x == e {
                assert(after[before.len() as int] == x);
            }
        }
    }
}

fn push_node<N: Node>(nodes: &mut Vec<N>, node: N)
    ensures
        forall|x: N|
            #![trigger final(nodes)@.contains(x)]
            final(nodes)@.contains(x) <==> old(nodes)@.contains(x) || x == node,
        final(nodes)@.len() == old(nodes)@.len() + 1,
{
    nodes.push(node);
    proof {
        let before = old(nodes)@;
        let after = nodes@;
        assert(after == before.push(node));
        assert forall|x: N| #![trigger after.contains(x)] after.contains(x) <==> before.contains(x) || x
            == node by {
            if before.contains(x) {
                let i = choose|i: int| 0 <= i < before.len() && before[i] == x;
                assert(after[i] == x);
            }
            if x == node {
                assert(after[before.len() as int] == x);
            }
        }
    }
}

/// Whether `node` stands in `nodes`.
pub fn has_node<N: Node>(nodes: &Vec<N>, node: N) -> (b: bool)
    ensures
        b == nodes@.contains(node),
{
    let n = nodes.len();
    let mut i: usize = 0;
    while i < n
        invariant
            n == nodes@.len(),
            i <= n,
            forall|k: int| 0 <= k < i ==> nodes@[k] != node,
        decreases n - i,
    {
        let x = nodes[i];
        if x.same(&node) {
            assert(nodes@[i as int] == node);
            return true;
        }
        i += 1;
    }
    false
}

/// The features that a dependency enables of its target, as a list.
pub fn enabled_list(default_features: DefaultFeatures, features: &Slice<FeatureId>) -> (list: Vec<
    FeatureId,
>)
    ensures
        list@ == enabled_features(default_features.0, features@),
{
    let mut it = FeatureIter::new(default_features, features);
    let mut list: Vec<FeatureId> = Vec::new();
    let ghost all = it@;
    loop
        invariant
            all == enabled_features(default_features.0, features@),
            list@ + it@ == all,
        decreases it@.len(),
    {
        let ghost before = it@;
        match it.next() {
            Some(f) => {
                proof {
                    assert(list@.push(f) + before.skip(1) =~= list@ + before);
                }
                list.push(f);
            },
            None => {
                proof {
                    assert(list@ + it@ =~= list@);
                }
                return list;
            },
        }
    }
}

/// Adds the edges that the dependency row `dep` gives.
fn add_dependency_edges(releases: &Vec<Release>, n: usize, dep: &Dependency, edges: &mut Vec<Edge>)
    requires
        n <= releases@.len(),
        all_stable(releases@.take(n as int)),
    ensures
        forall|e: Edge|
            #![trigger final(edges)@.contains(e)]
            final(edges)@.contains(e) <==> old(edges)@.contains(e) || dependency_edge(
                releases@.take(n as int),
                *dep,
                e,
            ),
{
    let ghost rels = releases@.take(n as int);
    match dep.kind {
        DependencyKind::Dev => {
            return ;
        },
        _ => {},
    }
    match resolve_index(releases, n, dep.crate_id, &dep.req) {
        None => {
            assert forall|e: Edge| !dependency_edge(rels, *dep, e) by {
                if resolves_to(rels, *dep, e.to.version_id) {
                    let k = choose|k: int| #[trigger]
                        resolves_at(rels, dep.crate_id, dep.req@, k) && rels[k].id
                            == e.to.version_id;
                    assert(!crate::resolve::satisfies(rels[k], dep.crate_id, dep.req@));
                }
            }
        },
        Some(k) => {
            let w = releases[k].id;
            assert(rels[k as int] == releases@[k as int]);
            let from = VersionFeature { version_id: dep.version_id, feature_id: dep.feature_id };
            let list = enabled_list(dep.default_features, &dep.features);
            let m = list.len();
            let mut i: usize = 0;
            while i < m
                invariant
                    m == list@.len(),
                    i <= m,
                    forall|e: Edge|
                        #![trigger edges@.contains(e)]
                        edges@.contains(e) <==> old(edges)@.contains(e) || (e.from == from
                            && e.to.version_id == w && list@.take(i as int).contains(
                            e.to.feature_id,
                        )),
                decreases m - i,
            {
                let e = Edge { from, to: VersionFeature { version_id: w, feature_id: list[i] } };
                let ghost before = edges@;
                push_edge(edges, e);
                proof {
                    assert(list@.take(i as int + 1) == list@.take(i as int).push(list@[i as int]));
                    assert forall|x: Edge|
                        #![trigger edges@.contains(x)]
                        edges@.contains(x) <==> old(edges)@.contains(x) || (x.from == from
                            && x.to.version_id == w && list@.take(i as int + 1).contains(
                            x.to.feature_id,
                        )) by {
                        crate::feature::lemma_push_in(
                            list@.take(i as int),
                            list@[i as int],
                            x.to.feature_id,
                        );
                    }
                }
                i += 1;
            }
            proof {
                assert(list@.take(m as int) == list@);
                assert forall|e: Edge|
                    (e.from == from && e.to.version_id == w && list@.contains(e.to.feature_id))
                        <==> dependency_edge(rels, *dep, e) by {
                    if resolves_to(rels, *dep, e.to.version_id) {
                        let k2 = choose|k2: int| #[trigger]
                            resolves_at(rels, dep.crate_id, dep.req@, k2) && rels[k2].id
                                == e.to.version_id;
                        lemma_resolution_unique(rels, dep.crate_id, dep.req@, k as int, k2);
                    }
                    if e.to.version_id == w {
                        assert(resolves_at(rels, dep.crate_id, dep.req@, k as int));
                    }
                }
            }
        },
    }
}

/// Adds the edges that stay within `r` and come from its feature `fe`.
fn add_own_feature_edges(r: &Release, fe: &FeatureEnables, edges: &mut Vec<Edge>)
    ensures
        forall|e: Edge|
            #![trigger final(edges)@.contains(e)]
            final(edges)@.contains(e) <==> old(edges)@.contains(e) || own_feature_edge(*r, *fe, e),
{
    let from = VersionFeature { version_id: r.id, feature_id: fe.id };
    let all = fe.all();
    let m = all.len();
    let mut j: usize = 0;
    while j < m
        invariant
            all@ == fe.spec_all(),
            m == all@.len(),
            j <= m,
            forall|e: Edge|
                #![trigger edges@.contains(e)]
                edges@.contains(e) <==> old(edges)@.contains(e) || (e.from == from
                    && e.to.version_id == r.id && fe.spec_all().take(j as int).contains(
                    CrateFeature { crate_id: r.crate_id, feature_id: e.to.feature_id },
                )),
        decreases m - j,
    {
        let cf = all[j];
        proof {
            assert(fe.spec_all().take(j as int + 1) == fe.spec_all().take(j as int).push(cf));
        }
        if cf.crate_id.0 == r.crate_id.0 {
            let e = Edge { from, to: VersionFeature { version_id: r.id, feature_id: cf.feature_id } };
            push_edge(edges, e);
        }
        proof {
            assert forall|x: Edge|
                #![trigger edges@.contains(x)]
                edges@.contains(x) <==> old(edges)@.contains(x) || (x.from == from
                    && x.to.version_id == r.id && fe.spec_all().take(j as int + 1).contains(
                    CrateFeature { crate_id: r.crate_id, feature_id: x.to.feature_id },
                )) by {
                crate::feature::lemma_push_in(
                    fe.spec_all().take(j as int),
                    cf,
                    CrateFeature { crate_id: r.crate_id, feature_id: x.to.feature_id },
                );
            }
        }
        j += 1;
    }
    proof {
        assert(fe.spec_all().take(m as int) == fe.spec_all());
    }
    if fe.id.0 != FeatureId::default_feature().0 {
        let e = Edge { from, to: VersionFeature { version_id: r.id, feature_id: FeatureId::krate() } };
        push_edge(edges, e);
    }
}

/// Adds the edges that stay within `r`.
fn add_intra_edges(r: &Release, edges: &mut Vec<Edge>)
    ensures
        forall|e: Edge|
            #![trigger final(edges)@.contains(e)]
            final(edges)@.contains(e) <==> old(edges)@.contains(e) || intra_edge(*r, e),
{
    let base = Edge {
        from: VersionFeature { version_id: r.id, feature_id: FeatureId::default_feature() },
        to: VersionFeature { version_id: r.id, feature_id: FeatureId::krate() },
    };
    push_edge(edges, base);
    let m = r.features.len();
    let mut i: usize = 0;
    while i < m
        invariant
            m == r.features@.len(),
            i <= m,
            forall|e: Edge|
                #![trigger edges@.contains(e)]
                edges@.contains(e) <==> old(edges)@.contains(e) || e == base || exists|k: int|
                    0 <= k < i && own_feature_edge(*r, #[trigger] r.features@[k], e),
        decreases m - i,
    {
        let ghost before = edges@;
        add_own_feature_edges(r, r.features.get(i), edges);
        proof {
            assert forall|e: Edge|
                #![trigger edges@.contains(e)]
                edges@.contains(e) <==> old(edges)@.contains(e) || e == base || exists|k: int|
                    0 <= k < i + 1 && own_feature_edge(*r, #[trigger] r.features@[k], e) by {
                if own_feature_edge(*r, r.features@[i as int], e) {
                    assert(edges@.contains(e));
                }
                if edges@.contains(e) && !before.contains(e) {
                    assert(own_feature_edge(*r, r.features@[i as int], e));
                }
            }
        }
        i += 1;
    }
}

/// Adds the edges that leave `r` from its feature `fe` through the feature
/// `cf` that it enables.
fn add_cross_edges_of_enable(
    releases: &Vec<Release>,
    n: usize,
    deps: &Vec<Dependency>,
    r: &Release,
    fe: &FeatureEnables,
    cf: CrateFeature,
    edges: &mut Vec<Edge>,
)
    requires
        n <= releases@.len(),
        all_stable(releases@.take(n as int)),
    ensures
        forall|e: Edge|
            #![trigger final(edges)@.contains(e)]
            final(edges)@.contains(e) <==> old(edges)@.contains(e) || cross_edge_of_enable(
                releases@.take(n as int),
                deps@,
                *r,
                *fe,
                cf,
                e,
            ),
{
    let ghost rels = releases@.take(n as int);
    if cf.crate_id.0 == r.crate_id.0 {
        return ;
    }
    let from = VersionFeature { version_id: r.id, feature_id: fe.id };
    let m = deps.len();
    let mut d: usize = 0;
    while d < m
        invariant
            m == deps@.len(),
            d <= m,
            n <= releases@.len(),
            rels == releases@.take(n as int),
            all_stable(rels),
            cf.crate_id != r.crate_id,
            from == (VersionFeature { version_id: r.id, feature_id: fe.id }),
            forall|e: Edge|
                #![trigger edges@.contains(e)]
                edges@.contains(e) <==> old(edges)@.contains(e) || exists|k: int|
                    0 <= k < d && cross_edge_by(rels, *r, *fe, cf, #[trigger] deps@[k], e),
        decreases m - d,
    {
        let dep = &deps[d];
        let ghost before = edges@;
        if dep.version_id.0 == r.id.0 && dep.crate_id.0 == cf.crate_id.0 {
            match resolve_index(releases, n, dep.crate_id, &dep.req) {
                None => {
                    assert forall|e: Edge| !cross_edge_by(rels, *r, *fe, cf, *dep, e) by {
                        if resolves_to(rels, *dep, e.to.version_id) {
                            let k = choose|k: int| #[trigger]
                                resolves_at(rels, dep.crate_id, dep.req@, k) && rels[k].id
                                    == e.to.version_id;
                            assert(!crate::resolve::satisfies(rels[k], dep.crate_id, dep.req@));
                        }
                    }
                },
                Some(k) => {
                    let w = releases[k].id;
                    assert(rels[k as int] == releases@[k as int]);
                    let e = Edge { from, to: VersionFeature { version_id: w, feature_id: cf.feature_id } };
                    push_edge(edges, e);
                    assert forall|x: Edge| x == e <==> cross_edge_by(rels, *r, *fe, cf, *dep, x) by {
                        if resolves_to(rels, *dep, x.to.version_id) {
                            let k2 = choose|k2: int| #[trigger]
                                resolves_at(rels, dep.crate_id, dep.req@, k2) && rels[k2].id
                                    == x.to.version_id;
                            lemma_resolution_unique(rels, dep.crate_id, dep.req@, k as int, k2);
                        }
                        if x == e {
                            assert(resolves_at(rels, dep.crate_id, dep.req@, k as int));
                        }
                    }
                },
            }
        }
        proof {
            assert forall|e: Edge|
                #![trigger edges@.contains(e)]
                edges@.contains(e) <==> old(edges)@.contains(e) || exists|k: int|
                    0 <= k < d + 1 && cross_edge_by(rels, *r, *fe, cf, #[trigger] deps@[k], e) by {
                if cross_edge_by(rels, *r, *fe, cf, deps@[d as int], e) {
                    assert(edges@.contains(e));
                }
                if edges@.contains(e) && !before.contains(e) {
                    assert(cross_edge_by(rels, *r, *fe, cf, deps@[d as int], e));
                }
            }
        }
        d += 1;
    }
}

/// Adds the edges that leave `r` from its feature `fe`.
fn add_cross_edges_of_feature(
    releases: &Vec<Release>,
    n: usize,
    deps: &Vec<Dependency>,
    r: &Release,
    fe: &FeatureEnables,
    edges: &mut Vec<Edge>,
)
    requires
        n <= releases@.len(),
        all_stable(releases@.take(n as int)),
    ensures
        forall|e: Edge|
            #![trigger final(edges)@.contains(e)]
            final(edges)@.contains(e) <==> old(edges)@.contains(e) || cross_edge_of_feature(
                releases@.take(n as int),
                deps@,
                *r,
                *fe,
                e,
            ),
{
    let ghost rels = releases@.take(n as int);
    let all = fe.all();
    let m = all.len();
    let mut j: usize = 0;
    while j < m
        invariant
            all@ == fe.spec_all(),
            m == all@.len(),
            j <= m,
            n <= releases@.len(),
            rels == releases@.take(n as int),
            all_stable(rels),
            forall|e: Edge|
                #![trigger edges@.contains(e)]
                edges@.contains(e) <==> old(edges)@.contains(e) || exists|k: int|
                    0 <= k < j && cross_edge_of_enable(
                        rels,
                        deps@,
                        *r,
                        *fe,
                        #[trigger] fe.spec_all()[k],
                        e,
                    ),
        decreases m - j,
    {
        let ghost before = edges@;
        let cf = all[j];
        add_cross_edges_of_enable(releases, n, deps, r, fe, cf, edges);
        proof {
            assert forall|e: Edge|
                #![trigger edges@.contains(e)]
                edges@.contains(e) <==> old(edges)@.contains(e) || exists|k: int|
                    0 <= k < j + 1 && cross_edge_of_enable(
                        rels,
                        deps@,
                        *r,
                        *fe,
                        #[trigger] fe.spec_all()[k],
                        e,
                    ) by {
                if cross_edge_of_enable(rels, deps@, *r, *fe, fe.spec_all()[j as int], e) {
                    assert(edges@.contains(e));
                }
                if edges@.contains(e) && !before.contains(e) {
                    assert(cross_edge_of_enable(rels, deps@, *r, *fe, fe.spec_all()[j as int], e));
                }
            }
        }
        j += 1;
    }
}

/// Adds the edges that leave `r`.
fn add_cross_edges(
    releases: &Vec<Release>,
    n: usize,
    deps: &Vec<Dependency>,
    r: &Release,
    edges: &mut Vec<Edge>,
)
    requires
        n <= releases@.len(),
        all_stable(releases@.take(n as int)),
    ensures
        forall|e: Edge|
            #![trigger final(edges)@.contains(e)]
            final(edges)@.contains(e) <==> old(edges)@.contains(e) || cross_edge(
                releases@.take(n as int),
                deps@,
                *r,
                e,
            ),
{
    let ghost rels = releases@.take(n as int);
    let m = r.features.len();
    let mut i: usize = 0;
    while i < m
        invariant
            m == r.features@.len(),
            i <= m,
            n <= releases@.len(),
            rels == releases@.take(n as int),
            all_stable(rels),
            forall|e: Edge|
                #![trigger edges@.contains(e)]
                edges@.contains(e) <==> old(edges)@.contains(e) || exists|k: int|
                    0 <= k < i && cross_edge_of_feature(
                        rels,
                        deps@,
                        *r,
                        #[trigger] r.features@[k],
                        e,
                    ),
        decreases m - i,
    {
        let ghost before = edges@;
        add_cross_edges_of_feature(releases, n, deps, r, r.features.get(i), edges);
        proof {
            assert forall|e: Edge|
                #![trigger edges@.contains(e)]
                edges@.contains(e) <==> old(edges)@.contains(e) || exists|k: int|
                    0 <= k < i + 1 && cross_edge_of_feature(
                        rels,
                        deps@,
                        *r,
                        #[trigger] r.features@[k],
                        e,
                    ) by {
                if cross_edge_of_feature(rels, deps@, *r, r.features@[i as int], e) {
                    assert(edges@.contains(e));
                }
                if edges@.contains(e) && !before.contains(e) {
                    assert(cross_edge_of_feature(rels, deps@, *r, r.features@[i as int], e));
                }
            }
        }
        i += 1;
    }
}

/// The edges of the graph over the first `n` releases.
pub fn build_edges(releases: &Vec<Release>, n: usize, deps: &Vec<Dependency>) -> (edges: Vec<Edge>)
    requires
        n <= releases@.len(),
        all_stable(releases@.take(n as int)),
    ensures
        lists_graph(releases@.take(n as int), deps@, edges@),
{
    let ghost rels = releases@.take(n as int);
    let mut edges: Vec<Edge> = Vec::new();
    let m = deps.len();
    let mut d: usize = 0;
    while d < m
        invariant
            m == deps@.len(),
            d <= m,
            n <= releases@.len(),
            rels == releases@.take(n as int),
            all_stable(rels),
            forall|e: Edge|
                #![trigger edges@.contains(e)]
                edges@.contains(e) <==> exists|k: int|
                    0 <= k < d && dependency_edge(rels, #[trigger] deps@[k], e),
        decreases m - d,
    {
        let ghost before = edges@;
        add_dependency_edges(releases, n, &deps[d], &mut edges);
        proof {
            assert forall|e: Edge|
                #![trigger edges@.contains(e)]
                edges@.contains(e) <==> exists|k: int|
                    0 <= k < d + 1 && dependency_edge(rels, #[trigger] deps@[k], e) by {
                if dependency_edge(rels, deps@[d as int], e) {
                    assert(edges@.contains(e));
                }
                if edges@.contains(e) && !before.contains(e) {
                    assert(dependency_edge(rels, deps@[d as int], e));
                }
            }
        }
        d += 1;
    }
    let ghost by_rows = edges@;
    let mut k: usize = 0;
    while k < n
        invariant
            k <= n <= releases@.len(),
            rels == releases@.take(n as int),
            all_stable(rels),
            forall|e: Edge|
                #![trigger edges@.contains(e)]
                edges@.contains(e) <==> by_rows.contains(e) || exists|i: int|
                    0 <= i < k && release_edge(rels, deps@, #[trigger] rels[i], e),
        decreases n - k,
    {
        let ghost before = edges@;
        let r = &releases[k];
        assert(*r == rels[k as int]);
        add_intra_edges(r, &mut edges);
        let ghost middle = edges@;
        add_cross_edges(releases, n, deps, r, &mut edges);
        proof {
            assert forall|e: Edge|
                #![trigger edges@.contains(e)]
                edges@.contains(e) <==> by_rows.contains(e) || exists|i: int|
                    0 <= i < k + 1 && release_edge(rels, deps@, #[trigger] rels[i], e) by {
                assert(middle.contains(e) <==> before.contains(e) || intra_edge(rels[k as int], e));
                assert(edges@.contains(e) <==> middle.contains(e) || cross_edge(
                    rels,
                    deps@,
                    rels[k as int],
                    e,
                ));
                if release_edge(rels, deps@, rels[k as int], e) {
                    assert(edges@.contains(e));
                }
                if edges@.contains(e) && !before.contains(e) {
                    assert(release_edge(rels, deps@, rels[k as int], e));
                }
            }
        }
        k += 1;
    }
    proof {
        assert(rels.len() == n);
        assert(forall|e: Edge|
            #![trigger edges@.contains(e)]
            edges@.contains(e) <==> has_edge(rels, deps@, e));
    }
    edges
}

/// The seeds of column `col` over the first `n` releases.
pub fn build_seeds(releases: &Vec<Release>, n: usize, queries: &[Query], col: usize) -> (seeds: Vec<
    VersionFeature,
>)
    requires
        n <= releases@.len(),
    ensures
        lists_seeds(releases@.take(n as int), queries@, col as int, seeds@),
{
    let ghost rels = releases@.take(n as int);
    let mut seeds: Vec<VersionFeature> = Vec::new();
    let mut k: usize = 0;
    while k < n
        invariant
            k <= n <= releases@.len(),
            rels == releases@.take(n as int),
            forall|s: VersionFeature|
                #![trigger seeds@.contains(s)]
                seeds@.contains(s) <==> s.feature_id == FeatureId::krate() && exists|i: int|
                    0 <= i < k && (#[trigger] rels[i]).id == s.version_id && column_accepts(
                        queries@,
                        col as int,
                        rels[i],
                    ),
        decreases n - k,
    {
        let r = &releases[k];
        assert(*r == rels[k as int]);
        let ghost before = seeds@;
        if accepts_column(queries, col, r) {
            push_node(&mut seeds, VersionFeature { version_id: r.id, feature_id: FeatureId::krate() });
        }
        proof {
            assert forall|s: VersionFeature|
                #![trigger seeds@.contains(s)]
                seeds@.contains(s) <==> s.feature_id == FeatureId::krate() && exists|i: int|
                    0 <= i < k + 1 && (#[trigger] rels[i]).id == s.version_id && column_accepts(
                        queries@,
                        col as int,
                        rels[i],
                    ) by {
                if seeds@.contains(s) && !before.contains(s) {
                    assert(rels[k as int].id == s.version_id);
                }
            }
        }
        k += 1;
    }
    seeds
}

/// A seed reaches itself.
proof fn lemma_seed_reaches<N>(edges: Seq<Edge<N>>, seeds: Seq<N>, node: N)
    requires
        seeds.contains(node),
    ensures
        reaches(edges, seeds, node),
{
    reveal(reaches);
    let walk = seq![node];
    assert(is_walk(edges, walk));
    assert(walk.last() == node);
}

/// What needs a node that reaches a seed reaches the seed too.
proof fn lemma_reaches_step<N>(edges: Seq<Edge<N>>, seeds: Seq<N>, e: Edge<N>)
    requires
        edges.contains(e),
        reaches(edges, seeds, e.to),
    ensures
        reaches(edges, seeds, e.from),
{
    reveal(reaches);
    let walk = choose|walk: Seq<N>|
        #[trigger] is_walk(edges, walk) && walk[0] == e.to && seeds.contains(walk.last());
    let longer = seq![e.from] + walk;
    assert forall|i: int| 0 <= i < longer.len() - 1 implies edges.contains(
        Edge { from: #[trigger] longer[i], to: longer[i + 1] },
    ) by {
        if i == 0 {
            assert(longer[1] == walk[0]);
        } else {
            assert(longer[i] == walk[i - 1]);
            assert(longer[i + 1] == walk[i]);
        }
    }
    assert(is_walk(edges, longer));
    assert(longer[0] == e.from);
    assert(longer.last() == walk.last());
}

/// A set of nodes that holds the seeds and, with the target of an edge, its
/// source, holds every node of a walk that ends in a seed.
proof fn lemma_closed_holds_walk<N>(
    edges: Seq<Edge<N>>,
    seeds: Seq<N>,
    visited: Seq<N>,
    walk: Seq<N>,
    i: int,
)
    requires
        is_walk(edges, walk),
        seeds.contains(walk.last()),
        forall|s: N| #[trigger] seeds.contains(s) ==> visited.contains(s),
        forall|e: Edge<N>| #[trigger]
            edges.contains(e) && visited.contains(e.to) ==> visited.contains(e.from),
        0 <= i < walk.len(),
    ensures
        visited.contains(walk[i]),
    decreases walk.len() - i,
{
    if i == walk.len() - 1 {
        assert(walk[i] == walk.last());
    } else {
        lemma_closed_holds_walk(edges, seeds, visited, walk, i + 1);
        let e = Edge { from: walk[i], to: walk[i + 1] };
        assert(edges.contains(e));
    }
}

/// A set of nodes that holds the seeds and, with the target of an edge, its
/// source, holds every node that reaches a seed.
proof fn lemma_closed_holds_reaching<N>(
    edges: Seq<Edge<N>>,
    seeds: Seq<N>,
    visited: Seq<N>,
    node: N,
)
    requires
        forall|s: N| #[trigger] seeds.contains(s) ==> visited.contains(s),
        forall|e: Edge<N>| #[trigger]
            edges.contains(e) && visited.contains(e.to) ==> visited.contains(e.from),
        reaches(edges, seeds, node),
    ensures
        visited.contains(node),
{
    reveal(reaches);
    let walk = choose|walk: Seq<N>|
        #[trigger] is_walk(edges, walk) && walk[0] == node && seeds.contains(walk.last());
    lemma_closed_holds_walk(edges, seeds, visited, walk, 0);
}

/// One pass over the edges that may still matter: an edge whose target is
/// known to reach a seed hands that on to its source and is dropped, the
/// others are kept.
fn relax_once<N: Node>(
    edges: Ghost<Seq<Edge<N>>>,
    seeds: Ghost<Seq<N>>,
    visited: &mut Vec<N>,
    remaining: &Vec<Edge<N>>,
) -> (r: (Vec<Edge<N>>, bool))
    requires
        forall|x: N| #[trigger] old(visited)@.contains(x) ==> reaches(edges@, seeds@, x),
        forall|e: Edge<N>| #[trigger] remaining@.contains(e) ==> edges@.contains(e),
    ensures
        forall|x: N| #[trigger] final(visited)@.contains(x) ==> reaches(edges@, seeds@, x),
        forall|x: N| #[trigger] old(visited)@.contains(x) ==> final(visited)@.contains(x),
        forall|e: Edge<N>| #[trigger]
            remaining@.contains(e) ==> r.0@.contains(e) || final(visited)@.contains(e.from),
        forall|e: Edge<N>| #[trigger] r.0@.contains(e) ==> remaining@.contains(e),
        r.1 ==> r.0@.len() < remaining@.len(),
        !r.1 ==> final(visited)@ == old(visited)@,
        !r.1 ==> forall|e: Edge<N>| #[trigger] remaining@.contains(e) ==> !final(visited)@.contains(e.to),
{
    let mut kept: Vec<Edge<N>> = Vec::new();
    let mut progress = false;
    let m = remaining.len();
    let mut i: usize = 0;
    while i < m
        invariant
            m == remaining@.len(),
            i <= m,
            forall|x: N| #[trigger] visited@.contains(x) ==> reaches(edges@, seeds@, x),
            forall|x: N| #[trigger] old(visited)@.contains(x) ==> visited@.contains(x),
            forall|e: Edge<N>| #[trigger] remaining@.contains(e) ==> edges@.contains(e),
            forall|j: int|
                0 <= j < i ==> kept@.contains(#[trigger] remaining@[j]) || visited@.contains(
                    remaining@[j].from,
                ),
            forall|e: Edge<N>| #[trigger] kept@.contains(e) ==> remaining@.contains(e),
            kept@.len() <= i,
            progress ==> kept@.len() < i,
            !progress ==> visited@ == old(visited)@,
            !progress ==> forall|j: int|
                0 <= j < i ==> !visited@.contains((#[trigger] remaining@[j]).to),
        decreases m - i,
    {
        let e = remaining[i];
        let ghost visited_before = visited@;
        let ghost kept_before = kept@;
        assert(remaining@.contains(e));
        if has_node(visited, e.to) {
            if !has_node(visited, e.from) {
                proof {
                    lemma_reaches_step(edges@, seeds@, e);
                }
                push_node(visited, e.from);
            }
            progress = true;
            proof {
                assert(visited@.contains(e.from));
                assert forall|x: N| #[trigger]
                    visited_before.contains(x) implies visited@.contains(x) by {}
                assert forall|j: int| 0 <= j < i + 1 implies kept@.contains(
                    #[trigger] remaining@[j],
                ) || visited@.contains(remaining@[j].from) by {
                    if j < i {
                        if !kept_before.contains(remaining@[j]) {
                            assert(visited_before.contains(remaining@[j].from));
                        }
                    }
                }
            }
        } else {
            push_edge(&mut kept, e);
            proof {
                assert forall|j: int| 0 <= j < i + 1 implies kept@.contains(
                    #[trigger] remaining@[j],
                ) || visited@.contains(remaining@[j].from) by {
                    if j < i {
                        if kept_before.contains(remaining@[j]) {
                            assert(kept@.contains(remaining@[j]));
                        }
                    } else {
                        assert(kept@.contains(e));
                    }
                }
                assert forall|x: Edge<N>| #[trigger] kept@.contains(x) implies remaining@.contains(
                    x,
                ) by {
                    if !kept_before.contains(x) {
                        assert(x == e);
                    }
                }
            }
        }
        i += 1;
    }
    proof {
        assert forall|e: Edge<N>| #[trigger] remaining@.contains(e) implies kept@.contains(e)
            || visited@.contains(e.from) by {
            let j = choose|j: int| 0 <= j < remaining@.len() && remaining@[j] == e;
            assert(kept@.contains(remaining@[j]) || visited@.contains(remaining@[j].from));
        }
        if !progress {
            assert forall|e: Edge<N>| #[trigger] remaining@.contains(e) implies !visited@.contains(
                e.to,
            ) by {
                let j = choose|j: int| 0 <= j < remaining@.len() && remaining@[j] == e;
                assert(!visited@.contains(remaining@[j].to));
            }
        }
    }
    (kept, progress)
}

/// The nodes from which a walk along `edges` leads to one of `seeds`.
pub fn reach_set<N: Node>(edges: &Vec<Edge<N>>, seeds: Vec<N>) -> (visited: Vec<N>)
    ensures
        forall|node: N|
            #![trigger visited@.contains(node)]
            visited@.contains(node) <==> reaches(edges@, seeds@, node),
{
    let ghost all = edges@;
    let ghost start = seeds@;
    let mut visited = seeds;
    let mut remaining: Vec<Edge<N>> = vstd::slice::slice_to_vec(edges.as_slice());
    proof {
        assert forall|x: N| #[trigger] visited@.contains(x) implies reaches(
            all,
            start,
            x,
        ) by {
            lemma_seed_reaches(all, start, x);
        }
    }
    loop
        invariant
            all == edges@,
            forall|x: N| #[trigger] visited@.contains(x) ==> reaches(all, start, x),
            forall|x: N| #[trigger] start.contains(x) ==> visited@.contains(x),
            forall|e: Edge<N>| #[trigger]
                all.contains(e) ==> remaining@.contains(e) || visited@.contains(e.from),
            forall|e: Edge<N>| #[trigger] remaining@.contains(e) ==> all.contains(e),
        ensures
            forall|x: N| #[trigger] visited@.contains(x) ==> reaches(all, start, x),
            forall|x: N| #[trigger] start.contains(x) ==> visited@.contains(x),
            forall|e: Edge<N>| #[trigger]
                all.contains(e) && visited@.contains(e.to) ==> visited@.contains(e.from),
        decreases remaining@.len(),
    {
        let ghost visited_before = visited@;
        let ghost remaining_before = remaining@;
        let (kept, progress) = relax_once(Ghost(all), Ghost(start), &mut visited, &remaining);
        proof {
            assert forall|e: Edge<N>| #[trigger] all.contains(e) implies kept@.contains(e)
                || visited@.contains(e.from) by {
                if !remaining_before.contains(e) {
                    assert(visited_before.contains(e.from));
                }
            }
        }
        if !progress {
            proof {
                assert forall|e: Edge<N>| #[trigger]
                    all.contains(e) && visited@.contains(e.to) implies visited@.contains(
                    e.from,
                ) by {
                    if remaining_before.contains(e) {
                        assert(!visited@.contains(e.to));
                    }
                }
            }
            break ;
        }
        remaining = kept;
    }
    proof {
        assert forall|node: N|
            #![trigger visited@.contains(node)]
            visited@.contains(node) <==> reaches(all, start, node) by {
            if reaches(all, start, node) {
                lemma_closed_holds_reaching(all, start, visited@, node);
            }
        }
    }
    visited
}

} // verus!
