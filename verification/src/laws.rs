//! What holds of every tally: counts against time, against the total, and
//! against each other.

use crate::collect::is_tally;
use crate::dependency::DependencyKind;
use crate::feature::{enabled_features, FeatureId, VersionFeature};
use crate::graph::{
    dependency_edge, has_edge, intra_edge, is_seed, is_walk_in, reaches_match, release_edge,
    resolves_to, Edge,
};
use crate::id::{CrateId, VersionId};
use crate::resolve::{all_stable, resolves_at, version_lt};
use crate::select::{column_accepts, is_latest, more_recent};
use crate::tally::{
    chronological, contributes, contributes_at, contributors, counts, crate_count, crates_present,
    depends_directly, depends_transitively, direct_by, ends_instant, last_values,
    lemma_contributors_present, tally_rows,
};
use crate::timestamp::DateTime;
use crate::{Dependency, Query, Release};
use vstd::prelude::*;

verus! {

/// The releases that exist at the instant `t`.
pub open spec fn visible(rels: Seq<Release>, t: DateTime) -> Seq<Release> {
    rels.filter(|r: Release| r.created_at.spec_le(t))
}

/// The count of column `col` at the instant `t`.
pub open spec fn count_at(
    rels: Seq<Release>,
    deps: Seq<Dependency>,
    queries: Seq<Query>,
    col: int,
    transitive: bool,
    t: DateTime,
) -> nat {
    crate_count(visible(rels, t), deps, queries, col, transitive)
}

/// The number of crates that have a release at the instant `t`.
pub open spec fn total_at(rels: Seq<Release>, t: DateTime) -> nat {
    crates_present(visible(rels, t)).len()
}

/// Two conditions that agree on the items of a list pick the same items.
pub proof fn lemma_filter_agree<A>(s: Seq<A>, p: spec_fn(A) -> bool, q: spec_fn(A) -> bool)
    requires
        forall|i: int| 0 <= i < s.len() ==> p(#[trigger] s[i]) == q(s[i]),
    ensures
        s.filter(p) == s.filter(q),
    decreases s.len(),
{
    reveal(Seq::filter);
    if s.len() > 0 {
        lemma_filter_agree(s.drop_last(), p, q);
    }
}

/// A condition that holds of the first `m` items of a list and of no other
/// picks those `m`.
pub proof fn lemma_filter_prefix<A>(s: Seq<A>, p: spec_fn(A) -> bool, m: int)
    requires
        0 <= m <= s.len(),
        forall|i: int| 0 <= i < m ==> p(#[trigger] s[i]),
        forall|i: int| m <= i < s.len() ==> !p(#[trigger] s[i]),
    ensures
        s.filter(p) == s.take(m),
    decreases s.len(),
{
    reveal(Seq::filter);
    if s.len() == 0 {
        assert(s.take(m) =~= s.filter(p));
    } else if m == s.len() {
        lemma_filter_prefix(s.drop_last(), p, m - 1);
        assert(s.drop_last().take(m - 1) =~= s.drop_last());
        assert(s.drop_last().push(s.last()) =~= s);
        assert(s.take(m) =~= s);
    } else {
        lemma_filter_prefix(s.drop_last(), p, m);
        assert(s.drop_last().take(m) =~= s.take(m));
    }
}

/// A count changes only at an instant at which a release is published:
/// where no release falls after `t1` and up to `t2`, the count at `t2` is
/// the count at `t1`.
pub proof fn law_count_constant_between_releases(
    rels: Seq<Release>,
    deps: Seq<Dependency>,
    queries: Seq<Query>,
    col: int,
    transitive: bool,
    t1: DateTime,
    t2: DateTime,
)
    requires
        t1.spec_le(t2),
        forall|i: int|
            0 <= i < rels.len() ==> !(t1.spec_lt((#[trigger] rels[i]).created_at)
                && rels[i].created_at.spec_le(t2)),
    ensures
        count_at(rels, deps, queries, col, transitive, t1) == count_at(
            rels,
            deps,
            queries,
            col,
            transitive,
            t2,
        ),
{
    lemma_filter_agree(
        rels,
        |r: Release| r.created_at.spec_le(t1),
        |r: Release| r.created_at.spec_le(t2),
    );
}

/// In a chronological list, the releases up to the end of an instant are
/// the releases that exist at that instant.
pub proof fn lemma_visible_is_prefix(rels: Seq<Release>, n: int)
    requires
        chronological(rels),
        ends_instant(rels, n),
    ensures
        visible(rels, rels[n - 1].created_at) == rels.take(n),
{
    let t = rels[n - 1].created_at;
    assert forall|i: int| n <= i < rels.len() implies !(#[trigger] rels[i]).created_at.spec_le(
        t,
    ) by {
        assert(rels[n].created_at.spec_le(rels[i].created_at));
        assert(rels[n - 1].created_at.spec_le(rels[n].created_at));
    }
    assert forall|i: int| 0 <= i < n implies (#[trigger] rels[i]).created_at.spec_le(t) by {
        assert(rels[i].created_at.spec_le(rels[n - 1].created_at));
    }
    lemma_filter_prefix(rels, |r: Release| r.created_at.spec_le(t), n);
}

/// Each row of a tally holds, at its instant, the counts of that instant;
/// and the instants of the rows increase.
pub proof fn law_rows_hold_counts_of_their_instant(
    rels: Seq<Release>,
    deps: Seq<Dependency>,
    queries: Seq<Query>,
    transitive: bool,
    n: nat,
    i: int,
)
    requires
        chronological(rels),
        n <= rels.len(),
        0 <= i < tally_rows(rels, deps, queries, transitive, n).len(),
    ensures
        tally_rows(rels, deps, queries, transitive, n)[i].1 == counts(
            visible(rels, tally_rows(rels, deps, queries, transitive, n)[i].0),
            deps,
            queries,
            transitive,
        ),
        n > 0 ==> tally_rows(rels, deps, queries, transitive, n)[i].0.spec_le(
            rels[n - 1].created_at,
        ),
        i > 0 ==> tally_rows(rels, deps, queries, transitive, n)[i - 1].0.spec_lt(
            tally_rows(rels, deps, queries, transitive, n)[i].0,
        ),
        i > 0 ==> tally_rows(rels, deps, queries, transitive, n)[i - 1].1 != tally_rows(
            rels,
            deps,
            queries,
            transitive,
            n,
        )[i].1,
    decreases n,
{
    let rows = tally_rows(rels, deps, queries, transitive, n);
    let before = tally_rows(rels, deps, queries, transitive, (n - 1) as nat);
    if i < before.len() {
        law_rows_hold_counts_of_their_instant(rels, deps, queries, transitive, (n - 1) as nat, i);
        if n > 1 {
            assert(rels[n - 2].created_at.spec_le(rels[n - 1].created_at));
        }
    } else {
        assert(ends_instant(rels, n as int));
        lemma_visible_is_prefix(rels, n as int);
        if i > 0 {
            lemma_rows_end_before(rels, deps, queries, transitive, (n - 1) as nat);
        }
    }
}

/// The rows of the first `n` releases lie before the instant that ends with
/// the `n`-th, if it ends one.
proof fn lemma_rows_end_before(
    rels: Seq<Release>,
    deps: Seq<Dependency>,
    queries: Seq<Query>,
    transitive: bool,
    n: nat,
)
    requires
        chronological(rels),
        n < rels.len(),
        ends_instant(rels, n as int + 1),
    ensures
        tally_rows(rels, deps, queries, transitive, n).len() > 0 ==> tally_rows(
            rels,
            deps,
            queries,
            transitive,
            n,
        ).last().0.spec_lt(rels[n as int].created_at),
    decreases n,
{
    let rows = tally_rows(rels, deps, queries, transitive, n);
    if n > 0 {
        let before = tally_rows(rels, deps, queries, transitive, (n - 1) as nat);
        assert(rels[n - 1].created_at.spec_le(rels[n as int].created_at));
        if rows.len() > before.len() {
            assert(ends_instant(rels, n as int));
        } else if rows.len() > 0 {
            lemma_rows_last_at_most(rels, deps, queries, transitive, (n - 1) as nat);
            if ends_instant(rels, n as int) {
                if n > 1 {
                    assert(rels[n - 2].created_at.spec_le(rels[n - 1].created_at));
                }
            } else {
                lemma_rows_before_open_instant(rels, deps, queries, transitive, n);
            }
        }
    }
}

/// The last row of the first `n` releases is of the `n`-th release's instant
/// or an earlier one.
proof fn lemma_rows_last_at_most(
    rels: Seq<Release>,
    deps: Seq<Dependency>,
    queries: Seq<Query>,
    transitive: bool,
    n: nat,
)
    requires
        chronological(rels),
        n <= rels.len(),
    ensures
        tally_rows(rels, deps, queries, transitive, n).len() > 0 ==> n > 0 && tally_rows(
            rels,
            deps,
            queries,
            transitive,
            n,
        ).last().0.spec_le(rels[n - 1].created_at),
    decreases n,
{
    if n > 0 {
        lemma_rows_last_at_most(rels, deps, queries, transitive, (n - 1) as nat);
        if n > 1 {
            assert(rels[n - 2].created_at.spec_le(rels[n - 1].created_at));
        }
    }
}

/// While an instant has not ended, no row is of it: the last row lies
/// before the `n`-th release's instant if the next release shares it.
proof fn lemma_rows_before_open_instant(
    rels: Seq<Release>,
    deps: Seq<Dependency>,
    queries: Seq<Query>,
    transitive: bool,
    n: nat,
)
    requires
        chronological(rels),
        0 < n < rels.len(),
        rels[n - 1].created_at == rels[n as int].created_at,
    ensures
        tally_rows(rels, deps, queries, transitive, n).len() > 0 ==> tally_rows(
            rels,
            deps,
            queries,
            transitive,
            n,
        ).last().0.spec_lt(rels[n as int].created_at),
    decreases n,
{
    assert(!ends_instant(rels, n as int));
    let before = tally_rows(rels, deps, queries, transitive, (n - 1) as nat);
    if before.len() > 0 {
        if ends_instant(rels, n as int - 1) {
            lemma_rows_last_at_most(rels, deps, queries, transitive, (n - 1) as nat);
            assert(rels[n - 2].created_at.spec_le(rels[n - 1].created_at));
        } else {
            lemma_rows_last_at_most(rels, deps, queries, transitive, (n - 1) as nat);
            assert(n > 1);
            assert(rels[n - 2].created_at == rels[n - 1].created_at);
            lemma_rows_before_open_instant(rels, deps, queries, transitive, (n - 1) as nat);
        }
    }
}

/// The rows of the first `n` releases are as wide as there are queries, are
/// of instants of releases, and each differs from the row before it, the
/// first from counts of zero.
proof fn lemma_rows_differ(
    rels: Seq<Release>,
    deps: Seq<Dependency>,
    queries: Seq<Query>,
    transitive: bool,
    n: nat,
    i: int,
)
    requires
        n <= rels.len(),
        0 <= i < tally_rows(rels, deps, queries, transitive, n).len(),
    ensures
        ({
            let rows = tally_rows(rels, deps, queries, transitive, n);
            &&& rows[i].1.len() == queries.len()
            &&& rows[i].1 != last_values(rows.take(i), queries.len())
            &&& exists|m: int| 0 <= m < n && rows[i].0 == (#[trigger] rels[m]).created_at
        }),
    decreases n,
{
    let rows = tally_rows(rels, deps, queries, transitive, n);
    let before = tally_rows(rels, deps, queries, transitive, (n - 1) as nat);
    if i < before.len() {
        lemma_rows_differ(rels, deps, queries, transitive, (n - 1) as nat, i);
        assert(rows.take(i) =~= before.take(i));
        let m = choose|m: int| 0 <= m < n - 1 && before[i].0 == (#[trigger] rels[m]).created_at;
        assert(rows[i].0 == rels[m].created_at);
    } else {
        assert(rows.take(i) =~= before);
        assert(rows[i].0 == rels[n - 1].created_at);
    }
}

/// The matrix of a tally of at most 256 queries over releases of the epoch
/// or later is a tally in the sense of the collector: its differences,
/// collected, give it back.
pub proof fn law_rows_are_a_tally(
    rels: Seq<Release>,
    deps: Seq<Dependency>,
    queries: Seq<Query>,
    transitive: bool,
)
    requires
        chronological(rels),
        queries.len() <= 256,
        forall|i: int|
            0 <= i < rels.len() ==> (DateTime { secs: 0, nanos: 0 }).spec_le(
                (#[trigger] rels[i]).created_at,
            ),
    ensures
        is_tally(queries.len(), tally_rows(rels, deps, queries, transitive, rels.len())),
{
    let rows = tally_rows(rels, deps, queries, transitive, rels.len());
    assert forall|i: int| 0 <= i < rows.len() implies (#[trigger] rows[i]).1.len() == queries.len()
        && (DateTime { secs: 0, nanos: 0 }).spec_le(rows[i].0) && rows[i].1 != last_values(
        rows.take(i),
        queries.len(),
    ) by {
        lemma_rows_differ(rels, deps, queries, transitive, rels.len(), i);
    }
    assert forall|i: int, j: int| 0 <= i < j < rows.len() implies (#[trigger] rows[i]).0.spec_lt(
        (#[trigger] rows[j]).0,
    ) by {
        lemma_rows_ascend(rels, deps, queries, transitive, i, j);
    }
}

/// The instants of the rows ascend.
proof fn lemma_rows_ascend(
    rels: Seq<Release>,
    deps: Seq<Dependency>,
    queries: Seq<Query>,
    transitive: bool,
    i: int,
    j: int,
)
    requires
        chronological(rels),
        0 <= i < j < tally_rows(rels, deps, queries, transitive, rels.len()).len(),
    ensures
        tally_rows(rels, deps, queries, transitive, rels.len())[i].0.spec_lt(
            tally_rows(rels, deps, queries, transitive, rels.len())[j].0,
        ),
    decreases j - i,
{
    law_rows_hold_counts_of_their_instant(rels, deps, queries, transitive, rels.len(), j);
    if i < j - 1 {
        lemma_rows_ascend(rels, deps, queries, transitive, i, j - 1);
    }
}

/// What counts directly counts transitively: the direct count of a column
/// is at most its transitive count.
pub proof fn law_direct_at_most_transitive(
    rels: Seq<Release>,
    deps: Seq<Dependency>,
    queries: Seq<Query>,
    col: int,
)
    ensures
        contributors(rels, deps, queries, col, false).subset_of(
            contributors(rels, deps, queries, col, true),
        ),
        crate_count(rels, deps, queries, col, false) <= crate_count(rels, deps, queries, col, true),
{
    let direct = contributors(rels, deps, queries, col, false);
    let through = contributors(rels, deps, queries, col, true);
    assert forall|c: CrateId| direct.contains(c) implies through.contains(c) by {
        let k = choose|k: int| #[trigger] contributes_at(rels, deps, queries, col, false, c, k);
        assert(contributes_at(rels, deps, queries, col, true, c, k));
    }
    lemma_contributors_present(rels, deps, queries, col, true);
    vstd::set_lib::lemma_len_subset(direct, through);
}

/// A count is at most the number of crates that have a release, so that a
/// count taken as a share of that number lies between zero and one.
pub proof fn law_count_at_most_total(
    rels: Seq<Release>,
    deps: Seq<Dependency>,
    queries: Seq<Query>,
    col: int,
    transitive: bool,
    t: DateTime,
)
    ensures
        count_at(rels, deps, queries, col, transitive, t) <= total_at(rels, t),
        total_at(rels, t) <= rels.len(),
{
    lemma_contributors_present(visible(rels, t), deps, queries, col, transitive);
    rels.lemma_filter_len(|r: Release| r.created_at.spec_le(t));
}

/// A crate counts once, however many of its releases depend on the match
/// set: without the crate the count is one less if the crate counts, and
/// the same if it does not.
pub proof fn law_crate_counts_once(
    rels: Seq<Release>,
    deps: Seq<Dependency>,
    queries: Seq<Query>,
    col: int,
    transitive: bool,
    c: CrateId,
)
    ensures
        contributes(rels, deps, queries, col, transitive, c) ==> crate_count(
            rels,
            deps,
            queries,
            col,
            transitive,
        ) == contributors(rels, deps, queries, col, transitive).remove(c).len() + 1,
        !contributes(rels, deps, queries, col, transitive, c) ==> crate_count(
            rels,
            deps,
            queries,
            col,
            transitive,
        ) == contributors(rels, deps, queries, col, transitive).remove(c).len(),
{
    lemma_contributors_present(rels, deps, queries, col, transitive);
    let all = contributors(rels, deps, queries, col, transitive);
    if !all.contains(c) {
        assert(all.remove(c) =~= all);
    }
}

/// The crate itself, of the release `v`.
pub open spec fn crate_node(v: VersionId) -> VersionFeature {
    VersionFeature { version_id: v, feature_id: FeatureId::krate() }
}

/// A release of the match set reaches it without a step.
pub proof fn law_match_reaches_itself(
    rels: Seq<Release>,
    deps: Seq<Dependency>,
    queries: Seq<Query>,
    col: int,
    k: int,
)
    requires
        0 <= k < rels.len(),
        column_accepts(queries, col, rels[k]),
    ensures
        reaches_match(rels, deps, queries, col, crate_node(rels[k].id)),
{
    let walk = seq![crate_node(rels[k].id)];
    assert(is_walk_in(rels, deps, walk));
    assert(is_seed(rels, queries, col, walk.last()));
}

/// A step in front of a walk makes a walk.
proof fn lemma_walk_extends(
    rels: Seq<Release>,
    deps: Seq<Dependency>,
    queries: Seq<Query>,
    col: int,
    from: VersionFeature,
    to: VersionFeature,
)
    requires
        has_edge(rels, deps, Edge { from, to }),
        reaches_match(rels, deps, queries, col, to),
    ensures
        reaches_match(rels, deps, queries, col, from),
{
    let rest = choose|walk: Seq<VersionFeature>| #[trigger]
        is_walk_in(rels, deps, walk) && walk[0] == to && is_seed(rels, queries, col, walk.last());
    let walk = seq![from] + rest;
    assert forall|i: int| 0 <= i < walk.len() - 1 implies has_edge(
        rels,
        deps,
        Edge { from: #[trigger] walk[i], to: walk[i + 1] },
    ) by {
        if i > 0 {
            assert(walk[i] == rest[i - 1] && walk[i + 1] == rest[i]);
        }
    }
    assert(is_walk_in(rels, deps, walk));
    assert(walk.last() == rest.last());
}

/// Dependencies chain. Where a row of the normal or the build table
/// resolves to the release `w`, and the crate itself of `w` reaches the
/// match set, the feature that brings the row in reaches it too: so the
/// declaring release depends on the match set transitively.
pub proof fn law_dependent_reaches_match(
    rels: Seq<Release>,
    deps: Seq<Dependency>,
    queries: Seq<Query>,
    col: int,
    d: int,
    w: VersionId,
)
    requires
        0 <= d < deps.len(),
        deps[d].kind != DependencyKind::Dev,
        resolves_to(rels, deps[d], w),
        reaches_match(rels, deps, queries, col, crate_node(w)),
    ensures
        reaches_match(
            rels,
            deps,
            queries,
            col,
            VersionFeature { version_id: deps[d].version_id, feature_id: deps[d].feature_id },
        ),
        depends_transitively(rels, deps, queries, col, deps[d].version_id),
{
    let dep = deps[d];
    let from = VersionFeature { version_id: dep.version_id, feature_id: dep.feature_id };
    let enabled = enabled_features(dep.default_features.0, dep.features@);
    if !dep.default_features.0 && dep.features@.len() == 0 {
        assert(enabled[0] == FeatureId::krate());
        assert(dependency_edge(rels, dep, Edge { from, to: crate_node(w) }));
        lemma_walk_extends(rels, deps, queries, col, from, crate_node(w));
    } else {
        let k = choose|k: int| #[trigger]
            resolves_at(rels, dep.crate_id, dep.req@, k) && rels[k].id == w;
        let default = VersionFeature { version_id: w, feature_id: FeatureId::default_feature() };
        assert(intra_edge(rels[k], Edge { from: default, to: crate_node(w) }));
        assert(release_edge(rels, deps, rels[k], Edge { from: default, to: crate_node(w) }));
        lemma_walk_extends(rels, deps, queries, col, default, crate_node(w));
        assert(enabled[0] == FeatureId::default_feature());
        assert(dependency_edge(rels, dep, Edge { from, to: default }));
        lemma_walk_extends(rels, deps, queries, col, from, default);
    }
}

/// A dependency of a dependency counts in transitive mode. Where the active
/// release of crate `c` has a row that resolves to the release `w`, and a
/// row that `w` always has resolves into the match set, `c` counts.
pub proof fn law_counts_through_a_dependency(
    rels: Seq<Release>,
    deps: Seq<Dependency>,
    queries: Seq<Query>,
    col: int,
    c: CrateId,
    k: int,
    outer: int,
    inner: int,
    w: VersionId,
)
    requires
        is_latest(rels, k),
        rels[k].crate_id == c,
        0 <= outer < deps.len(),
        deps[outer].version_id == rels[k].id,
        deps[outer].kind != DependencyKind::Dev,
        resolves_to(rels, deps[outer], w),
        0 <= inner < deps.len(),
        deps[inner].feature_id == FeatureId::krate(),
        deps[inner].kind != DependencyKind::Dev,
        direct_by(rels, deps[inner], queries, col, w),
    ensures
        contributes(rels, deps, queries, col, true, c),
{
    let row = deps[inner];
    let m = choose|m: int| #[trigger]
        resolves_at(rels, row.crate_id, row.req@, m) && column_accepts(queries, col, rels[m]);
    law_match_reaches_itself(rels, deps, queries, col, m);
    assert(resolves_to(rels, row, rels[m].id));
    law_dependent_reaches_match(rels, deps, queries, col, inner, rels[m].id);
    law_dependent_reaches_match(rels, deps, queries, col, outer, w);
    assert(contributes_at(rels, deps, queries, col, true, c, k));
}

/// In direct mode only a crate's own rows count: a crate none of whose
/// releases has a row that resolves into the match set does not count,
/// whatever its dependencies depend on.
pub proof fn law_direct_counts_own_rows_only(
    rels: Seq<Release>,
    deps: Seq<Dependency>,
    queries: Seq<Query>,
    col: int,
    c: CrateId,
)
    requires
        forall|k: int, d: int|
            0 <= k < rels.len() && 0 <= d < deps.len() && (#[trigger] rels[k]).crate_id == c
                ==> !direct_by(rels, #[trigger] deps[d], queries, col, rels[k].id),
    ensures
        !contributes(rels, deps, queries, col, false, c),
{
    if contributes(rels, deps, queries, col, false, c) {
        let k = choose|k: int| #[trigger] contributes_at(rels, deps, queries, col, false, c, k);
        assert(depends_directly(rels, deps, queries, col, rels[k].id));
        let d = choose|d: int|
            0 <= d < deps.len() && direct_by(rels, #[trigger] deps[d], queries, col, rels[k].id);
        assert(!direct_by(rels, deps[d], queries, col, rels[k].id));
    }
}

/// A crate does not count before its first release.
pub proof fn law_no_count_before_first_release(
    rels: Seq<Release>,
    deps: Seq<Dependency>,
    queries: Seq<Query>,
    col: int,
    transitive: bool,
    c: CrateId,
    t: DateTime,
)
    requires
        forall|i: int|
            0 <= i < rels.len() && (#[trigger] rels[i]).crate_id == c ==> t.spec_lt(
                rels[i].created_at,
            ),
    ensures
        !contributes(visible(rels, t), deps, queries, col, transitive, c),
{
    let seen = visible(rels, t);
    lemma_contributors_present(seen, deps, queries, col, transitive);
    if crates_present(seen).contains(c) {
        let k = choose|k: int| 0 <= k < seen.len() && (#[trigger] seen[k]).crate_id == c;
        assert(seen.contains(seen[k]));
        rels.lemma_filter_contains_rev(|r: Release| r.created_at.spec_le(t), seen[k]);
        let i = choose|i: int| 0 <= i < rels.len() && rels[i] == seen[k];
        assert(t.spec_lt(rels[i].created_at));
    }
    assert(!contributors(seen, deps, queries, col, transitive).contains(c));
}

/// The releases of each crate were published in the order of their
/// versions: a higher version came later.
pub open spec fn versions_ascend(rels: Seq<Release>) -> bool {
    forall|i: int, j: int|
        0 <= i < rels.len() && 0 <= j < rels.len() && (#[trigger] rels[i]).crate_id == (
        #[trigger] rels[j]).crate_id && version_lt(rels[i].num@, rels[j].num@)
            ==> rels[i].created_at.spec_lt(rels[j].created_at)
}

/// Where the releases of each crate come in the order of their versions,
/// the active release of a crate is the one with its largest version.
pub proof fn law_active_release_is_the_largest(rels: Seq<Release>, k: int, j: int)
    requires
        all_stable(rels),
        versions_ascend(rels),
        is_latest(rels, k),
        0 <= j < rels.len(),
        rels[j].crate_id == rels[k].crate_id,
    ensures
        !version_lt(rels[k].num@, rels[j].num@),
{
    assert(more_recent(rels[k], rels[j]));
}

/// No release has two rows that ask for the same crate.
pub open spec fn one_row_per_crate(deps: Seq<Dependency>) -> bool {
    forall|a: int, b: int|
        0 <= a < deps.len() && 0 <= b < deps.len() && (#[trigger] deps[a]).version_id == (
        #[trigger] deps[b]).version_id && deps[a].crate_id == deps[b].crate_id ==> a == b
}

/// The match set of column `col` holds releases of the crate `c` only.
pub open spec fn column_is_of(rels: Seq<Release>, queries: Seq<Query>, col: int, c: CrateId) -> bool {
    forall|k: int|
        0 <= k < rels.len() && column_accepts(queries, col, #[trigger] rels[k]) ==> rels[k].crate_id
            == c
}

/// No release is in the match sets of both columns.
pub open spec fn columns_apart(rels: Seq<Release>, queries: Seq<Query>, first: int, second: int) -> bool {
    forall|k: int|
        0 <= k < rels.len() ==> !(column_accepts(queries, first, #[trigger] rels[k])
            && column_accepts(queries, second, rels[k]))
}

/// What one of the two columns accepts, the column `both` accepts.
pub open spec fn column_covers(
    rels: Seq<Release>,
    queries: Seq<Query>,
    first: int,
    second: int,
    both: int,
) -> bool {
    forall|k: int|
        0 <= k < rels.len() && (column_accepts(queries, first, #[trigger] rels[k])
            || column_accepts(queries, second, rels[k])) ==> column_accepts(
            queries,
            both,
            rels[k],
        )
}

/// A release with one row on the crate `c` depends directly on one of two
/// match sets of `c` that lie apart, not on both.
proof fn lemma_one_row_one_column(
    rels: Seq<Release>,
    deps: Seq<Dependency>,
    queries: Seq<Query>,
    first: int,
    second: int,
    c: CrateId,
    v: VersionId,
)
    requires
        all_stable(rels),
        one_row_per_crate(deps),
        column_is_of(rels, queries, first, c),
        column_is_of(rels, queries, second, c),
        columns_apart(rels, queries, first, second),
    ensures
        !(depends_directly(rels, deps, queries, first, v) && depends_directly(
            rels,
            deps,
            queries,
            second,
            v,
        )),
{
    if depends_directly(rels, deps, queries, first, v) && depends_directly(
        rels,
        deps,
        queries,
        second,
        v,
    ) {
        let a = choose|a: int|
            0 <= a < deps.len() && direct_by(rels, #[trigger] deps[a], queries, first, v);
        let b = choose|b: int|
            0 <= b < deps.len() && direct_by(rels, #[trigger] deps[b], queries, second, v);
        let i = choose|i: int| #[trigger]
            resolves_at(rels, deps[a].crate_id, deps[a].req@, i) && column_accepts(
                queries,
                first,
                rels[i],
            );
        let j = choose|j: int| #[trigger]
            resolves_at(rels, deps[b].crate_id, deps[b].req@, j) && column_accepts(
                queries,
                second,
                rels[j],
            );
        assert(rels[i].crate_id == c && rels[j].crate_id == c);
        assert(a == b);
        crate::resolve::lemma_resolution_unique(rels, deps[a].crate_id, deps[a].req@, i, j);
        crate::select::lemma_accepts_by_number(queries, first, rels[i], rels[j]);
    }
}

/// Two queries on one crate whose match sets lie apart share the
/// dependants of the crate between them: where no release has two rows on
/// the crate, their direct counts together are at most the direct count of
/// a query that accepts what either accepts.
pub proof fn law_counts_of_columns_apart(
    rels: Seq<Release>,
    deps: Seq<Dependency>,
    queries: Seq<Query>,
    first: int,
    second: int,
    both: int,
    c: CrateId,
)
    requires
        all_stable(rels),
        one_row_per_crate(deps),
        column_is_of(rels, queries, first, c),
        column_is_of(rels, queries, second, c),
        columns_apart(rels, queries, first, second),
        column_covers(rels, queries, first, second, both),
    ensures
        crate_count(rels, deps, queries, first, false) + crate_count(
            rels,
            deps,
            queries,
            second,
            false,
        ) <= crate_count(rels, deps, queries, both, false),
{
    let one = contributors(rels, deps, queries, first, false);
    let two = contributors(rels, deps, queries, second, false);
    let all = contributors(rels, deps, queries, both, false);
    lemma_contributors_present(rels, deps, queries, first, false);
    lemma_contributors_present(rels, deps, queries, second, false);
    lemma_contributors_present(rels, deps, queries, both, false);
    assert forall|b: CrateId| !(one.contains(b) && two.contains(b)) by {
        if one.contains(b) && two.contains(b) {
            let i = choose|i: int| #[trigger]
                contributes_at(rels, deps, queries, first, false, b, i);
            let j = choose|j: int| #[trigger]
                contributes_at(rels, deps, queries, second, false, b, j);
            crate::select::lemma_latest_unique(rels, i, j);
            lemma_one_row_one_column(rels, deps, queries, first, second, c, rels[i].id);
        }
    }
    assert(one.disjoint(two));
    assert forall|b: CrateId| one.contains(b) || two.contains(b) implies all.contains(b) by {
        let col = if one.contains(b) {
            first
        } else {
            second
        };
        let k = choose|k: int| #[trigger] contributes_at(rels, deps, queries, col, false, b, k);
        let d = choose|d: int|
            0 <= d < deps.len() && direct_by(rels, #[trigger] deps[d], queries, col, rels[k].id);
        let m = choose|m: int| #[trigger]
            resolves_at(rels, deps[d].crate_id, deps[d].req@, m) && column_accepts(
                queries,
                col,
                rels[m],
            );
        assert(column_accepts(queries, both, rels[m]));
        assert(direct_by(rels, deps[d], queries, both, rels[k].id));
        assert(depends_directly(rels, deps, queries, both, rels[k].id));
        assert(contributes_at(rels, deps, queries, both, false, b, k));
    }
    assert((one + two).subset_of(all));
    vstd::set_lib::lemma_set_disjoint_lens(one, two);
    vstd::set_lib::lemma_len_subset(one + two, all);
}

} // verus!
