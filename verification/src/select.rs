//! The active release of a crate, and the releases that a query accepts.

use crate::id::CrateId;
use crate::version::spec_matches;
use crate::{Predicate, Query, Release};
use vstd::prelude::*;

verus! {

/// `a` is the more recent of the two releases, or as recent: a stable one
/// before a pre-release, then the later one, then the higher identifier.
pub open spec fn more_recent(a: Release, b: Release) -> bool {
    let stable_a = a.num.is_stable();
    let stable_b = b.num.is_stable();
    if stable_a != stable_b {
        stable_a
    } else {
        b.created_at.spec_lt(a.created_at) || (b.created_at == a.created_at && b.id.0 <= a.id.0)
    }
}

/// The release at `k` is the active one of its crate: none of the crate's
/// releases is more recent.
pub open spec fn is_latest(rels: Seq<Release>, k: int) -> bool {
    &&& 0 <= k < rels.len()
    &&& forall|j: int|
        0 <= j < rels.len() && (#[trigger] rels[j]).crate_id == rels[k].crate_id ==> more_recent(
            rels[k],
            rels[j],
        )
}

/// The release at `k` is the active one of its crate and the first in the
/// list that is.
pub open spec fn is_leader(rels: Seq<Release>, k: int) -> bool {
    &&& is_latest(rels, k)
    &&& forall|j: int|
        0 <= j < k && (#[trigger] rels[j]).crate_id == rels[k].crate_id ==> !more_recent(
            rels[j],
            rels[k],
        )
}

/// Of two releases one is at least as recent as the other; two that are
/// as recent as each other have the same identifier and instant.
pub proof fn lemma_more_recent_total(a: Release, b: Release)
    ensures
        more_recent(a, b) || more_recent(b, a),
        more_recent(a, b) && more_recent(b, a) ==> a.id == b.id && a.created_at == b.created_at,
{
}

/// To be at least as recent is transitive.
pub proof fn lemma_more_recent_transitive(a: Release, b: Release, c: Release)
    requires
        more_recent(a, b),
        more_recent(b, c),
    ensures
        more_recent(a, c),
{
}

/// `a` is at least as recent as `b`.
pub fn is_more_recent(a: &Release, b: &Release) -> (r: bool)
    ensures
        r == more_recent(*a, *b),
{
    let stable_a = a.num.is_stable();
    let stable_b = b.num.is_stable();
    if stable_a != stable_b {
        stable_a
    } else {
        b.created_at.lt(a.created_at) || (b.created_at.secs == a.created_at.secs
            && b.created_at.nanos == a.created_at.nanos && b.id.0 <= a.id.0)
    }
}

/// Whether the release at `k` leads its crate among the first `n` releases.
pub fn leads(releases: &Vec<Release>, n: usize, k: usize) -> (r: bool)
    requires
        k < n <= releases@.len(),
    ensures
        r == is_leader(releases@.take(n as int), k as int),
{
    let ghost rels = releases@.take(n as int);
    let me = &releases[k];
    assert(*me == rels[k as int]);
    let mut j: usize = 0;
    while j < n
        invariant
            k < n <= releases@.len(),
            j <= n,
            rels == releases@.take(n as int),
            *me == rels[k as int],
            forall|i: int|
                0 <= i < j && (#[trigger] rels[i]).crate_id == rels[k as int].crate_id
                    ==> more_recent(rels[k as int], rels[i]),
            forall|i: int|
                0 <= i < j && i < k && (#[trigger] rels[i]).crate_id == rels[k as int].crate_id
                    ==> !more_recent(rels[i], rels[k as int]),
        decreases n - j,
    {
        let other = &releases[j];
        assert(*other == rels[j as int]);
        if other.crate_id.0 == me.crate_id.0 {
            if !is_more_recent(me, other) {
                return false;
            }
            if j < k && is_more_recent(other, me) {
                return false;
            }
        }
        j += 1;
    }
    true
}

/// Every crate with a release has exactly one leader.
pub proof fn lemma_leader_exists(rels: Seq<Release>, k: int) -> (lead: int)
    requires
        0 <= k < rels.len(),
    ensures
        is_leader(rels, lead),
        rels[lead].crate_id == rels[k].crate_id,
{
    let latest = lemma_latest_among(rels, rels[k].crate_id, rels.len() as int, k);
    lemma_first_latest(rels, latest, latest)
}

/// The most recent release of `c` among the first `n`, given that `k` is one.
proof fn lemma_latest_among(rels: Seq<Release>, c: CrateId, n: int, k: int) -> (best: int)
    requires
        0 <= k < n <= rels.len(),
        rels[k].crate_id == c,
    ensures
        0 <= best < n,
        rels[best].crate_id == c,
        forall|j: int|
            0 <= j < n && (#[trigger] rels[j]).crate_id == c ==> more_recent(rels[best], rels[j]),
    decreases n,
{
    if k == n - 1 {
        if exists|i: int| 0 <= i < n - 1 && rels[i].crate_id == c {
            let i = choose|i: int| 0 <= i < n - 1 && rels[i].crate_id == c;
            let prev = lemma_latest_among(rels, c, n - 1, i);
            lemma_more_recent_total(rels[prev], rels[k]);
            if more_recent(rels[prev], rels[k]) {
                prev
            } else {
                assert forall|j: int| 0 <= j < n && (#[trigger] rels[j]).crate_id == c implies more_recent(
                    rels[k],
                    rels[j],
                ) by {
                    if j < n - 1 {
                        lemma_more_recent_transitive(rels[k], rels[prev], rels[j]);
                    }
                }
                k
            }
        } else {
            k
        }
    } else {
        let prev = lemma_latest_among(rels, c, n - 1, k);
        if rels[n - 1].crate_id == c {
            lemma_more_recent_total(rels[prev], rels[n - 1]);
            if more_recent(rels[prev], rels[n - 1]) {
                prev
            } else {
                assert forall|j: int| 0 <= j < n && (#[trigger] rels[j]).crate_id == c implies more_recent(
                    rels[n - 1],
                    rels[j],
                ) by {
                    if j < n - 1 {
                        lemma_more_recent_transitive(rels[n - 1], rels[prev], rels[j]);
                    }
                }
                n - 1
            }
        } else {
            prev
        }
    }
}

/// The first of the releases that are as recent as the latest one.
proof fn lemma_first_latest(rels: Seq<Release>, latest: int, upto: int) -> (lead: int)
    requires
        is_latest(rels, latest),
        0 <= upto <= latest,
        forall|j: int|
            upto <= j < latest && (#[trigger] rels[j]).crate_id == rels[latest].crate_id
                ==> !more_recent(rels[j], rels[latest]),
    ensures
        is_leader(rels, lead),
        rels[lead].crate_id == rels[latest].crate_id,
    decreases upto,
{
    if upto == 0 {
        latest
    } else {
        let j = upto - 1;
        if rels[j].crate_id == rels[latest].crate_id && more_recent(rels[j], rels[latest]) {
            assert forall|i: int|
                0 <= i < rels.len() && (#[trigger] rels[i]).crate_id == rels[j].crate_id implies more_recent(
                rels[j],
                rels[i],
            ) by {
                lemma_more_recent_transitive(rels[j], rels[latest], rels[i]);
            }
            lemma_first_latest(rels, j, j)
        } else {
            lemma_first_latest(rels, latest, j)
        }
    }
}

/// Two releases that are both the active one of a crate have the same
/// identifier and time.
pub proof fn lemma_latest_unique(rels: Seq<Release>, k1: int, k2: int)
    requires
        is_latest(rels, k1),
        is_latest(rels, k2),
        rels[k1].crate_id == rels[k2].crate_id,
    ensures
        rels[k1].id == rels[k2].id,
        rels[k1].created_at == rels[k2].created_at,
{
    lemma_more_recent_total(rels[k1], rels[k2]);
}

/// A crate has one leader only.
pub proof fn lemma_leader_unique(rels: Seq<Release>, k1: int, k2: int)
    requires
        is_leader(rels, k1),
        is_leader(rels, k2),
        rels[k1].crate_id == rels[k2].crate_id,
    ensures
        k1 == k2,
{
}

/// The predicate names the release's crate and, where it has a requirement,
/// one that accepts the release's version.
pub open spec fn predicate_accepts(p: Predicate, r: Release) -> bool {
    &&& p.crate_id == r.crate_id
    &&& match p.req {
        Some(req) => spec_matches(req@, r.num@),
        None => true,
    }
}

/// One of the query's predicates accepts the release.
pub open spec fn query_accepts(q: Query, r: Release) -> bool {
    exists|i: int| 0 <= i < q.predicates@.len() && predicate_accepts(#[trigger] q.predicates@[i], r)
}

/// The release belongs to the match set of column `col`: a query with that
/// identifier accepts it.
pub open spec fn column_accepts(queries: Seq<Query>, col: int, r: Release) -> bool {
    exists|i: int|
        0 <= i < queries.len() && (#[trigger] queries[i]).id.0 == col && query_accepts(
            queries[i],
            r,
        )
}

/// Acceptance looks at the release's crate and version only.
pub proof fn lemma_accepts_by_number(queries: Seq<Query>, col: int, a: Release, b: Release)
    requires
        a.crate_id == b.crate_id,
        a.num@ == b.num@,
    ensures
        column_accepts(queries, col, a) == column_accepts(queries, col, b),
{
    if column_accepts(queries, col, a) {
        let i = choose|i: int|
            0 <= i < queries.len() && (#[trigger] queries[i]).id.0 == col && query_accepts(
                queries[i],
                a,
            );
        let j = choose|j: int|
            0 <= j < queries[i].predicates@.len() && predicate_accepts(
                #[trigger] queries[i].predicates@[j],
                a,
            );
        assert(predicate_accepts(queries[i].predicates@[j], b));
        assert(query_accepts(queries[i], b));
    }
    if column_accepts(queries, col, b) {
        let i = choose|i: int|
            0 <= i < queries.len() && (#[trigger] queries[i]).id.0 == col && query_accepts(
                queries[i],
                b,
            );
        let j = choose|j: int|
            0 <= j < queries[i].predicates@.len() && predicate_accepts(
                #[trigger] queries[i].predicates@[j],
                b,
            );
        assert(predicate_accepts(queries[i].predicates@[j], a));
        assert(query_accepts(queries[i], a));
    }
}

/// Whether the predicate accepts the release.
pub fn accepts_predicate(p: &Predicate, r: &Release) -> (b: bool)
    ensures
        b == predicate_accepts(*p, *r),
{
    if p.crate_id.0 != r.crate_id.0 {
        return false;
    }
    match &p.req {
        Some(req) => req.matches(&r.num),
        None => true,
    }
}

/// Whether one of the predicates of the query accepts the release.
pub fn accepts_query(q: &Query, r: &Release) -> (b: bool)
    ensures
        b == query_accepts(*q, *r),
{
    let n = q.predicates.len();
    let mut i: usize = 0;
    while i < n
        invariant
            n == q.predicates@.len(),
            i <= n,
            forall|k: int| 0 <= k < i ==> !predicate_accepts(#[trigger] q.predicates@[k], *r),
        decreases n - i,
    {
        if accepts_predicate(q.predicates.get(i), r) {
            return true;
        }
        i += 1;
    }
    false
}

/// Whether a query of column `col` accepts the release.
pub fn accepts_column(queries: &[Query], col: usize, r: &Release) -> (b: bool)
    ensures
        b == column_accepts(queries@, col as int, *r),
{
    let n = queries.len();
    let mut i: usize = 0;
    while i < n
        invariant
            n == queries@.len(),
            i <= n,
            forall|k: int|
                0 <= k < i && (#[trigger] queries@[k]).id.0 == col ==> !query_accepts(
                    queries@[k],
                    *r,
                ),
        decreases n - i,
    {
        if queries[i].id.0 as usize == col && accepts_query(&queries[i], r) {
            return true;
        }
        i += 1;
    }
    false
}

} // verus!
