//! The tally: for each query and instant, the number of crates whose active
//! release depends on a release that the query accepts.

use crate::feature::{FeatureId, VersionFeature};
use crate::graph::{
    build_edges, build_seeds, lemma_reaches_listed, lists_graph, reach_set, reaches_match, Edge,
};
use crate::id::{CrateId, VersionId};
use crate::matrix::Matrix;
use crate::resolve::{all_stable, lemma_resolution_unique, resolve_index, resolves_at, satisfies};
use crate::select::{
    accepts_column, column_accepts, is_latest, is_leader, leads, lemma_accepts_by_number,
    lemma_latest_unique, lemma_leader_exists, lemma_leader_unique,
};
use crate::timestamp::DateTime;
use crate::{DbDump, Dependency, Query, Release};
use vstd::prelude::*;

verus! {

/// The dependency row is one of release `v` and resolves to a release in the
/// match set of column `col`.
pub open spec fn direct_by(
    rels: Seq<Release>,
    dep: Dependency,
    queries: Seq<Query>,
    col: int,
    v: VersionId,
) -> bool {
    &&& dep.version_id == v
    &&& exists|k: int| #[trigger]
        resolves_at(rels, dep.crate_id, dep.req@, k) && column_accepts(queries, col, rels[k])
}

/// Release `v` depends directly on the match set of column `col`: one of its
/// dependency rows resolves into it.
pub open spec fn depends_directly(
    rels: Seq<Release>,
    deps: Seq<Dependency>,
    queries: Seq<Query>,
    col: int,
    v: VersionId,
) -> bool {
    exists|d: int| 0 <= d < deps.len() && direct_by(rels, #[trigger] deps[d], queries, col, v)
}

/// From one of the features of release `v` a walk leads into the match set
/// of column `col`. A walk may have no step: a release of the match set
/// counts itself.
pub open spec fn depends_transitively(
    rels: Seq<Release>,
    deps: Seq<Dependency>,
    queries: Seq<Query>,
    col: int,
    v: VersionId,
) -> bool {
    exists|f: FeatureId| #[trigger]
        reaches_match(rels, deps, queries, col, VersionFeature { version_id: v, feature_id: f })
}

/// Release `v` counts for column `col`: it depends on the match set
/// directly or, in transitive mode, through the graph.
pub open spec fn depends(
    rels: Seq<Release>,
    deps: Seq<Dependency>,
    queries: Seq<Query>,
    col: int,
    transitive: bool,
    v: VersionId,
) -> bool {
    depends_directly(rels, deps, queries, col, v) || (transitive && depends_transitively(
        rels,
        deps,
        queries,
        col,
        v,
    ))
}

/// The release at `k` is the active one of crate `c` and counts for column
/// `col`.
pub open spec fn contributes_at(
    rels: Seq<Release>,
    deps: Seq<Dependency>,
    queries: Seq<Query>,
    col: int,
    transitive: bool,
    c: CrateId,
    k: int,
) -> bool {
    is_latest(rels, k) && rels[k].crate_id == c && depends(
        rels,
        deps,
        queries,
        col,
        transitive,
        rels[k].id,
    )
}

/// Crate `c` counts for column `col`: its active release does.
pub open spec fn contributes(
    rels: Seq<Release>,
    deps: Seq<Dependency>,
    queries: Seq<Query>,
    col: int,
    transitive: bool,
    c: CrateId,
) -> bool {
    exists|k: int| #[trigger] contributes_at(rels, deps, queries, col, transitive, c, k)
}

/// The crates that count for column `col`.
pub open spec fn contributors(
    rels: Seq<Release>,
    deps: Seq<Dependency>,
    queries: Seq<Query>,
    col: int,
    transitive: bool,
) -> Set<CrateId> {
    Set::new(|c: CrateId| contributes(rels, deps, queries, col, transitive, c))
}

/// The count of column `col`: how many crates count for it.
pub open spec fn crate_count(
    rels: Seq<Release>,
    deps: Seq<Dependency>,
    queries: Seq<Query>,
    col: int,
    transitive: bool,
) -> nat {
    contributors(rels, deps, queries, col, transitive).len()
}

/// The crates that have a release.
pub open spec fn crates_present(rels: Seq<Release>) -> Set<CrateId> {
    Set::new(|c: CrateId| exists|k: int| 0 <= k < rels.len() && (#[trigger] rels[k]).crate_id == c)
}

/// The crates with a release among the first `n`.
pub proof fn lemma_crates_present_finite(rels: Seq<Release>, n: int)
    requires
        0 <= n <= rels.len(),
    ensures
        crates_present(rels.take(n)).finite(),
        crates_present(rels.take(n)).len() <= n,
    decreases n,
{
    if n == 0 {
        assert(crates_present(rels.take(0)) =~= Set::empty());
    } else {
        lemma_crates_present_finite(rels, n - 1);
        let before = crates_present(rels.take(n - 1));
        let now = crates_present(rels.take(n));
        let c = rels[n - 1].crate_id;
        assert forall|x: CrateId| now.contains(x) <==> before.insert(c).contains(x) by {
            if now.contains(x) {
                let k = choose|k: int| 0 <= k < n && (#[trigger] rels.take(n)[k]).crate_id == x;
                if k < n - 1 {
                    assert(rels.take(n - 1)[k].crate_id == x);
                }
            }
            if before.contains(x) {
                let k = choose|k: int|
                    0 <= k < n - 1 && (#[trigger] rels.take(n - 1)[k]).crate_id == x;
                assert(rels.take(n)[k].crate_id == x);
            }
            if x == c {
                assert(rels.take(n)[n - 1].crate_id == x);
            }
        }
        assert(now =~= before.insert(c));
    }
}

/// The crates that count are crates that have a release, so there are
/// finitely many of them.
pub proof fn lemma_contributors_present(
    rels: Seq<Release>,
    deps: Seq<Dependency>,
    queries: Seq<Query>,
    col: int,
    transitive: bool,
)
    ensures
        contributors(rels, deps, queries, col, transitive).subset_of(crates_present(rels)),
        crates_present(rels).finite(),
        contributors(rels, deps, queries, col, transitive).finite(),
        crate_count(rels, deps, queries, col, transitive) <= crates_present(rels).len(),
        crates_present(rels).len() <= rels.len(),
{
    let all = contributors(rels, deps, queries, col, transitive);
    assert forall|c: CrateId| all.contains(c) implies crates_present(rels).contains(c) by {
        let k = choose|k: int| #[trigger] contributes_at(rels, deps, queries, col, transitive, c, k);
        assert(rels[k].crate_id == c);
    }
    assert(rels.take(rels.len() as int) == rels);
    lemma_crates_present_finite(rels, rels.len() as int);
    vstd::set_lib::lemma_len_subset(all, crates_present(rels));
}

/// Whether release `v` depends directly on the match set of column `col`,
/// over the first `n` releases.
pub fn has_direct_dependency(
    releases: &Vec<Release>,
    n: usize,
    deps: &Vec<Dependency>,
    queries: &[Query],
    col: usize,
    v: VersionId,
) -> (b: bool)
    requires
        n <= releases@.len(),
        all_stable(releases@.take(n as int)),
    ensures
        b == depends_directly(releases@.take(n as int), deps@, queries@, col as int, v),
{
    let ghost rels = releases@.take(n as int);
    let m = deps.len();
    let mut d: usize = 0;
    while d < m
        invariant
            m == deps@.len(),
            d <= m,
            n <= releases@.len(),
            rels == releases@.take(n as int),
            all_stable(rels),
            forall|i: int| 0 <= i < d ==> !direct_by(rels, #[trigger] deps@[i], queries@, col as int, v),
        decreases m - d,
    {
        let dep = &deps[d];
        if dep.version_id.0 == v.0 {
            match resolve_index(releases, n, dep.crate_id, &dep.req) {
                Some(k) => {
                    assert(rels[k as int] == releases@[k as int]);
                    if accepts_column(queries, col, &releases[k]) {
                        assert(direct_by(rels, deps@[d as int], queries@, col as int, v));
                        return true;
                    }
                    proof {
                        assert forall|k2: int| #[trigger]
                            resolves_at(rels, dep.crate_id, dep.req@, k2) implies !column_accepts(
                            queries@,
                            col as int,
                            rels[k2],
                        ) by {
                            lemma_resolution_unique(rels, dep.crate_id, dep.req@, k as int, k2);
                            lemma_accepts_by_number(queries@, col as int, rels[k as int], rels[k2]);
                        }
                    }
                },
                None => {
                    proof {
                        assert forall|k2: int| #[trigger]
                            resolves_at(rels, dep.crate_id, dep.req@, k2) implies false by {
                            assert(!satisfies(rels[k2], dep.crate_id, dep.req@));
                        }
                    }
                },
            }
        }
        d += 1;
    }
    false
}

/// Whether a node of release `v` stands in `nodes`.
fn has_version(nodes: &Vec<VersionFeature>, v: VersionId) -> (b: bool)
    ensures
        b == exists|f: FeatureId| #[trigger]
            nodes@.contains(VersionFeature { version_id: v, feature_id: f }),
{
    let n = nodes.len();
    let mut i: usize = 0;
    while i < n
        invariant
            n == nodes@.len(),
            i <= n,
            forall|k: int| 0 <= k < i ==> (#[trigger] nodes@[k]).version_id != v,
        decreases n - i,
    {
        if nodes[i].version_id.0 == v.0 {
            let ghost f = nodes@[i as int].feature_id;
            assert(nodes@[i as int] == VersionFeature { version_id: v, feature_id: f });
            assert(nodes@.contains(VersionFeature { version_id: v, feature_id: f }));
            return true;
        }
        i += 1;
    }
    proof {
        assert forall|f: FeatureId|
            !(#[trigger] nodes@.contains(VersionFeature { version_id: v, feature_id: f })) by {
            let node = VersionFeature { version_id: v, feature_id: f };
            if nodes@.contains(node) {
                let k = choose|k: int| 0 <= k < nodes@.len() && nodes@[k] == node;
                assert(nodes@[k].version_id == v);
            }
        }
    }
    false
}

/// The release at `k` leads its crate and counts for column `col`.
pub open spec fn counted(
    rels: Seq<Release>,
    deps: Seq<Dependency>,
    queries: Seq<Query>,
    col: int,
    transitive: bool,
    k: int,
) -> bool {
    is_leader(rels, k) && depends(rels, deps, queries, col, transitive, rels[k].id)
}

/// The crates that count are those of the leaders that count.
proof fn lemma_contributors_by_leader(
    rels: Seq<Release>,
    deps: Seq<Dependency>,
    queries: Seq<Query>,
    col: int,
    transitive: bool,
    seen: Set<CrateId>,
)
    requires
        forall|c: CrateId|
            #![trigger seen.contains(c)]
            seen.contains(c) <==> exists|j: int|
                0 <= j < rels.len() && #[trigger] counted(rels, deps, queries, col, transitive, j)
                    && rels[j].crate_id == c,
    ensures
        seen == contributors(rels, deps, queries, col, transitive),
{
    let all = contributors(rels, deps, queries, col, transitive);
    assert forall|c: CrateId| seen.contains(c) <==> all.contains(c) by {
        if seen.contains(c) {
            let j = choose|j: int|
                0 <= j < rels.len() && #[trigger] counted(rels, deps, queries, col, transitive, j)
                    && rels[j].crate_id == c;
            assert(contributes_at(rels, deps, queries, col, transitive, c, j));
        }
        if all.contains(c) {
            let k = choose|k: int| #[trigger]
                contributes_at(rels, deps, queries, col, transitive, c, k);
            let lead = lemma_leader_exists(rels, k);
            lemma_latest_unique(rels, lead, k);
            assert(counted(rels, deps, queries, col, transitive, lead));
        }
    }
    assert(seen =~= all);
}

/// The count of column `col` over the first `n` releases. `edges` lists the
/// edges of the graph where the count is transitive.
pub fn count_column(
    releases: &Vec<Release>,
    n: usize,
    deps: &Vec<Dependency>,
    queries: &[Query],
    col: usize,
    transitive: bool,
    edges: &Vec<Edge>,
) -> (count: u32)
    requires
        n <= releases@.len(),
        n <= u32::MAX,
        all_stable(releases@.take(n as int)),
        transitive ==> lists_graph(releases@.take(n as int), deps@, edges@),
    ensures
        count == crate_count(releases@.take(n as int), deps@, queries@, col as int, transitive),
{
    let ghost rels = releases@.take(n as int);
    let reach = if transitive {
        let seeds = build_seeds(releases, n, queries, col);
        let ghost seeds_view = seeds@;
        let reach = reach_set(edges, seeds);
        proof {
            assert forall|node: VersionFeature|
                #![trigger reach@.contains(node)]
                reach@.contains(node) <==> reaches_match(
                    rels,
                    deps@,
                    queries@,
                    col as int,
                    node,
                ) by {
                lemma_reaches_listed(rels, deps@, queries@, col as int, edges@, seeds_view, node);
            }
        }
        reach
    } else {
        Vec::new()
    };
    let ghost mut seen: Set<CrateId> = Set::empty();
    let mut count: u32 = 0;
    let mut k: usize = 0;
    while k < n
        invariant
            k <= n <= releases@.len(),
            n <= u32::MAX,
            rels == releases@.take(n as int),
            all_stable(rels),
            transitive ==> forall|node: VersionFeature|
                #![trigger reach@.contains(node)]
                reach@.contains(node) <==> reaches_match(rels, deps@, queries@, col as int, node),
            seen.finite(),
            seen.len() == count,
            count <= k,
            forall|c: CrateId|
                #![trigger seen.contains(c)]
                seen.contains(c) <==> exists|j: int|
                    0 <= j < k && #[trigger] counted(rels, deps@, queries@, col as int, transitive, j)
                        && rels[j].crate_id == c,
        decreases n - k,
    {
        let r = &releases[k];
        assert(*r == rels[k as int]);
        let ghost seen_before = seen;
        if leads(releases, n, k) {
            let mut counts = has_direct_dependency(releases, n, deps, queries, col, r.id);
            if !counts && transitive {
                counts = has_version(&reach, r.id);
                proof {
                    if counts {
                        let f = choose|f: FeatureId| #[trigger]
                            reach@.contains(VersionFeature { version_id: r.id, feature_id: f });
                        assert(reaches_match(
                            rels,
                            deps@,
                            queries@,
                            col as int,
                            VersionFeature { version_id: r.id, feature_id: f },
                        ));
                    } else {
                        assert forall|f: FeatureId|
                            !(#[trigger] reaches_match(
                                rels,
                                deps@,
                                queries@,
                                col as int,
                                VersionFeature { version_id: r.id, feature_id: f },
                            )) by {
                            assert(!reach@.contains(
                                VersionFeature { version_id: r.id, feature_id: f },
                            ));
                        }
                    }
                }
            }
            assert(counts == depends(rels, deps@, queries@, col as int, transitive, r.id));
            if counts {
                proof {
                    assert(counted(rels, deps@, queries@, col as int, transitive, k as int));
                    if seen.contains(r.crate_id) {
                        let j = choose|j: int|
                            0 <= j < k && #[trigger] counted(
                                rels,
                                deps@,
                                queries@,
                                col as int,
                                transitive,
                                j,
                            ) && rels[j].crate_id == r.crate_id;
                        lemma_leader_unique(rels, j, k as int);
                    }
                    seen = seen.insert(r.crate_id);
                }
                count = count + 1;
            }
        }
        proof {
            assert forall|c: CrateId|
                #![trigger seen.contains(c)]
                seen.contains(c) <==> exists|j: int|
                    0 <= j < k + 1 && #[trigger] counted(
                        rels,
                        deps@,
                        queries@,
                        col as int,
                        transitive,
                        j,
                    ) && rels[j].crate_id == c by {
                if seen.contains(c) {
                    if seen_before.contains(c) {
                        let j = choose|j: int|
                            0 <= j < k && #[trigger] counted(
                                rels,
                                deps@,
                                queries@,
                                col as int,
                                transitive,
                                j,
                            ) && rels[j].crate_id == c;
                        assert(0 <= j < k + 1);
                    } else {
                        assert(counted(rels, deps@, queries@, col as int, transitive, k as int));
                    }
                }
                if exists|j: int|
                    0 <= j < k + 1 && #[trigger] counted(
                        rels,
                        deps@,
                        queries@,
                        col as int,
                        transitive,
                        j,
                    ) && rels[j].crate_id == c {
                    let j = choose|j: int|
                        0 <= j < k + 1 && #[trigger] counted(
                            rels,
                            deps@,
                            queries@,
                            col as int,
                            transitive,
                            j,
                        ) && rels[j].crate_id == c;
                    if j < k {
                        assert(seen_before.contains(c));
                    }
                }
            }
        }
        k += 1;
    }
    proof {
        assert(rels.len() == n);
        lemma_contributors_by_leader(rels, deps@, queries@, col as int, transitive, seen);
    }
    count
}

/// The counts of all columns, one for each query.
pub open spec fn counts(
    rels: Seq<Release>,
    deps: Seq<Dependency>,
    queries: Seq<Query>,
    transitive: bool,
) -> Seq<u32> {
    Seq::new(queries.len(), |col: int| crate_count(rels, deps, queries, col, transitive) as u32)
}

/// The releases stand in the order of their instants.
pub open spec fn chronological(rels: Seq<Release>) -> bool {
    forall|i: int, j: int|
        0 <= i <= j < rels.len() ==> (#[trigger] rels[i]).created_at.spec_le(
            (#[trigger] rels[j]).created_at,
        )
}

/// The first `n` releases are all those of some instant and before: the
/// next one, if there is one, is of another instant.
pub open spec fn ends_instant(rels: Seq<Release>, n: int) -> bool {
    0 < n <= rels.len() && (n == rels.len() || rels[n - 1].created_at != rels[n].created_at)
}

/// The counts that the last row holds; zeros before the first row.
pub open spec fn last_values(rows: Seq<(DateTime, Seq<u32>)>, width: nat) -> Seq<u32> {
    if rows.len() == 0 {
        Seq::new(width, |col: int| 0u32)
    } else {
        rows.last().1
    }
}

/// The rows that the first `n` releases give: one for each instant at which
/// a count differs from what it was, with the counts as they are from then
/// on.
pub open spec fn tally_rows(
    rels: Seq<Release>,
    deps: Seq<Dependency>,
    queries: Seq<Query>,
    transitive: bool,
    n: nat,
) -> Seq<(DateTime, Seq<u32>)>
    decreases n,
{
    if n == 0 {
        Seq::empty()
    } else {
        let before = tally_rows(rels, deps, queries, transitive, (n - 1) as nat);
        let now = counts(rels.take(n as int), deps, queries, transitive);
        if ends_instant(rels, n as int) && now != last_values(before, queries.len()) {
            before.push((rels[n - 1].created_at, now))
        } else {
            before
        }
    }
}

/// The counts of all columns over the first `n` releases.
pub fn count_columns(
    releases: &Vec<Release>,
    n: usize,
    deps: &Vec<Dependency>,
    queries: &[Query],
    transitive: bool,
) -> (values: Vec<u32>)
    requires
        n <= releases@.len(),
        n <= u32::MAX,
        all_stable(releases@.take(n as int)),
    ensures
        values@ == counts(releases@.take(n as int), deps@, queries@, transitive),
{
    let ghost rels = releases@.take(n as int);
    let edges = if transitive {
        build_edges(releases, n, deps)
    } else {
        Vec::new()
    };
    let mut values: Vec<u32> = Vec::new();
    let width = queries.len();
    let mut col: usize = 0;
    while col < width
        invariant
            width == queries@.len(),
            col <= width,
            n <= releases@.len(),
            n <= u32::MAX,
            rels == releases@.take(n as int),
            all_stable(rels),
            transitive ==> lists_graph(rels, deps@, edges@),
            values@.len() == col,
            forall|c: int|
                0 <= c < col ==> #[trigger] values@[c] == crate_count(
                    rels,
                    deps@,
                    queries@,
                    c,
                    transitive,
                ),
        decreases width - col,
    {
        let count = count_column(releases, n, deps, queries, col, transitive, &edges);
        values.push(count);
        col += 1;
    }
    proof {
        assert(values@ =~= counts(rels, deps@, queries@, transitive));
    }
    values
}

fn same_values(a: &Vec<u32>, b: &Vec<u32>) -> (same: bool)
    ensures
        same == (a@ == b@),
{
    if a.len() != b.len() {
        return false;
    }
    let n = a.len();
    let mut i: usize = 0;
    while i < n
        invariant
            n == a@.len(),
            n == b@.len(),
            i <= n,
            forall|k: int| 0 <= k < i ==> a@[k] == b@[k],
        decreases n - i,
    {
        if a[i] != b[i] {
            return false;
        }
        i += 1;
    }
    assert(a@ =~= b@);
    true
}

fn zeros(width: usize) -> (values: Vec<u32>)
    ensures
        values@ == Seq::new(width as nat, |col: int| 0u32),
{
    let mut values: Vec<u32> = Vec::new();
    let mut i: usize = 0;
    while i < width
        invariant
            i <= width,
            values@.len() == i,
            forall|k: int| 0 <= k < i ==> values@[k] == 0u32,
        decreases width - i,
    {
        values.push(0);
        i += 1;
    }
    assert(values@ =~= Seq::new(width as nat, |col: int| 0u32));
    values
}

fn copy_values(values: &Vec<u32>) -> (copy: Vec<u32>)
    ensures
        copy@ == values@,
{
    vstd::slice::slice_to_vec(values.as_slice())
}

/// Each release stands at the instant of the one before it or later.
pub open spec fn stepwise_chronological(rels: Seq<Release>) -> bool {
    forall|i: int|
        0 <= i < rels.len() - 1 ==> (#[trigger] rels[i]).created_at.spec_le(rels[i + 1].created_at)
}

/// Releases that stand in order one after the other stand in order
/// altogether.
proof fn lemma_stepwise(rels: Seq<Release>, i: int, j: int)
    requires
        stepwise_chronological(rels),
        0 <= i <= j < rels.len(),
    ensures
        rels[i].created_at.spec_le(rels[j].created_at),
    decreases j - i,
{
    if i < j {
        lemma_stepwise(rels, i, j - 1);
        assert(rels[j - 1].created_at.spec_le(rels[j - 1 + 1].created_at));
    }
}

/// Whether the releases stand in the order of their instants.
pub fn is_chronological(releases: &[Release]) -> (b: bool)
    ensures
        b == chronological(releases@),
{
    let n = releases.len();
    let mut i: usize = 1;
    while i < n
        invariant
            n == releases@.len(),
            1 <= i,
            forall|k: int|
                0 <= k < i - 1 && k < n - 1 ==> (#[trigger] releases@[k]).created_at.spec_le(
                    releases@[k + 1].created_at,
                ),
        decreases n - i,
    {
        if !releases[i - 1].created_at.le(releases[i].created_at) {
            return false;
        }
        i += 1;
    }
    proof {
        assert(stepwise_chronological(releases@));
        assert forall|a: int, b: int| 0 <= a <= b < releases@.len() implies (
        #[trigger] releases@[a]).created_at.spec_le((#[trigger] releases@[b]).created_at) by {
            lemma_stepwise(releases@, a, b);
        }
    }
    true
}

/// What `run` asks of the releases and the queries: the releases stand in
/// the order of their instants, none is a pre-release, there are no more
/// than a count of 32 bits holds, and each query has a column.
pub open spec fn run_ready(rels: Seq<Release>, queries: Seq<Query>) -> bool {
    &&& chronological(rels)
    &&& all_stable(rels)
    &&& rels.len() <= u32::MAX
    &&& forall|i: int| 0 <= i < queries.len() ==> (#[trigger] queries[i]).id.0 < queries.len()
}

/// Whether `run` can be called on the dump and the queries.
pub fn can_run(db_dump: &DbDump, queries: &[Query]) -> (b: bool)
    ensures
        b == run_ready(db_dump.releases@, queries@),
{
    let limit: usize = 0xffff_ffff;
    if db_dump.releases.len() > limit || !is_chronological(db_dump.releases.as_slice()) {
        return false;
    }
    let n = db_dump.releases.len();
    let mut k: usize = 0;
    while k < n
        invariant
            n == db_dump.releases@.len(),
            k <= n,
            forall|j: int| 0 <= j < k ==> (#[trigger] db_dump.releases@[j]).num.is_stable(),
        decreases n - k,
    {
        if !db_dump.releases[k].num.is_stable() {
            return false;
        }
        k += 1;
    }
    let m = queries.len();
    let mut i: usize = 0;
    while i < m
        invariant
            m == queries@.len(),
            i <= m,
            forall|j: int| 0 <= j < i ==> (#[trigger] queries@[j]).id.0 < m,
        decreases m - i,
    {
        if queries[i].id.0 as usize >= m {
            return false;
        }
        i += 1;
    }
    true
}

/// Counts, for each query and each instant at which a release was
/// published, the crates whose active release depends on a release that the
/// query accepts: directly or, where `transitive` is set, through the graph
/// of releases and features. The matrix has a row for each instant at which
/// a count changed. The engine works through the releases one instant after
/// the other; `jobs` has no part in the result.
pub fn run(db_dump: DbDump, jobs: usize, transitive: bool, queries: &[Query]) -> (matrix: Matrix)
    requires
        run_ready(db_dump.releases@, queries@),
    ensures
        matrix.width() == queries@.len(),
        matrix@ == tally_rows(
            db_dump.releases@,
            db_dump.dependencies@,
            queries@,
            transitive,
            db_dump.releases@.len(),
        ),
{
    let releases = &db_dump.releases;
    let deps = &db_dump.dependencies;
    let mut matrix = Matrix::new(queries.len());
    let mut last = zeros(queries.len());
    let total = releases.len();
    let mut n: usize = 0;
    assert(matrix@ =~= tally_rows(releases@, deps@, queries@, transitive, 0));
    while n < total
        invariant
            total == releases@.len(),
            total <= u32::MAX,
            n <= total,
            all_stable(releases@),
            matrix.width() == queries@.len(),
            matrix@ == tally_rows(releases@, deps@, queries@, transitive, n as nat),
            last@ == last_values(matrix@, queries@.len()),
        decreases total - n,
    {
        n += 1;
        let boundary = n == total || !same_instant(
            releases[n - 1].created_at,
            releases[n].created_at,
        );
        assert(boundary == ends_instant(releases@, n as int));
        if boundary {
            assert(all_stable(releases@.take(n as int)));
            let now = count_columns(releases, n, deps, queries, transitive);
            if !same_values(&now, &last) {
                matrix.push(releases[n - 1].created_at, copy_values(&now));
                last = now;
            }
        }
    }
    matrix
}

fn same_instant(a: DateTime, b: DateTime) -> (same: bool)
    ensures
        same == (a == b),
{
    a.secs == b.secs && a.nanos == b.nanos
}

} // verus!
