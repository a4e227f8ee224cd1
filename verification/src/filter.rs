//! What is taken out of a dump before the tally: the crates that the user
//! excludes, and what has nothing to do with the queries.

use crate::clean::same_but_req;
use crate::cratemap::CrateMap;
use crate::graph::{is_walk, reach_set, reaches, Edge};
use crate::id::{CrateId, VersionId};
use crate::{same_release, DbDump, Dependency, Query, Release};
use vstd::prelude::*;

verus! {

/// Whether the regular expression `pattern` matches somewhere in `text`, as
/// `regex` has it; `None` where `regex` does not take the pattern.
pub uninterp spec fn regex_accepts(pattern: Seq<char>, text: Seq<char>) -> Option<bool>;

/// Calls `regex::Regex::new` on the pattern, once, and `Regex::is_match` on
/// each name in turn. Claims that each outcome depends on the pattern and
/// the name alone.
#[verifier::external_body]
fn pattern_matches(pattern: &str, names: &Vec<String>) -> (r: Option<Vec<bool>>)
    ensures
        match r {
            Some(hits) => hits@.len() == names@.len() && forall|i: int|
                0 <= i < names@.len() ==> regex_accepts(pattern@, (#[trigger] names@[i])@) == Some(
                    hits@[i],
                ),
            None => forall|i: int|
                0 <= i < names@.len() ==> regex_accepts(pattern@, (#[trigger] names@[i])@) is None,
        },
{
    match regex::Regex::new(pattern) {
        Ok(re) => Some(names.iter().map(|name| re.is_match(name)).collect()),
        Err(_) => None,
    }
}

/// One of the patterns matches the name.
pub open spec fn name_is_excluded(name: Seq<char>, patterns: Seq<String>) -> bool {
    exists|p: int|
        0 <= p < patterns.len() && regex_accepts((#[trigger] patterns[p])@, name) == Some(true)
}

/// The crate is excluded: it is known, and one of the patterns matches its
/// name.
pub open spec fn crate_is_excluded(
    crates: Seq<(CrateId, Seq<char>)>,
    patterns: Seq<String>,
    c: CrateId,
) -> bool {
    exists|i: int|
        0 <= i < crates.len() && (#[trigger] crates[i]).0 == c && name_is_excluded(
            crates[i].1,
            patterns,
        )
}

/// `after` are the releases of `before` whose crate is not excluded, in
/// their order.
pub open spec fn without_excluded(
    before: Seq<Release>,
    after: Seq<Release>,
    crates: Seq<(CrateId, Seq<char>)>,
    patterns: Seq<String>,
) -> bool
    decreases before.len(),
{
    if before.len() == 0 {
        after.len() == 0
    } else if crate_is_excluded(crates, patterns, before.last().crate_id) {
        without_excluded(before.drop_last(), after, crates, patterns)
    } else {
        &&& after.len() > 0
        &&& without_excluded(before.drop_last(), after.drop_last(), crates, patterns)
        &&& same_release(before.last(), after.last())
    }
}

/// To be excluded by one of the first patterns, or by the next.
proof fn lemma_excluded_by_next(name: Seq<char>, patterns: Seq<String>, p: int)
    requires
        0 <= p < patterns.len(),
    ensures
        name_is_excluded(name, patterns.take(p + 1)) == (name_is_excluded(name, patterns.take(p))
            || regex_accepts(patterns[p]@, name) == Some(true)),
{
    let before = patterns.take(p);
    let after = patterns.take(p + 1);
    if name_is_excluded(name, before) {
        let k = choose|k: int|
            0 <= k < before.len() && regex_accepts((#[trigger] before[k])@, name) == Some(true);
        assert(after[k] == before[k]);
    }
    if regex_accepts(patterns[p]@, name) == Some(true) {
        assert(after[p] == patterns[p]);
    }
    if name_is_excluded(name, after) {
        let k = choose|k: int|
            0 <= k < after.len() && regex_accepts((#[trigger] after[k])@, name) == Some(true);
        if k < p {
            assert(before[k] == after[k]);
        }
    }
}

/// For each name, whether one of the patterns matches it. Each pattern is
/// put to `regex` once.
pub fn excluded_names(names: &Vec<String>, patterns: &[String]) -> (hit: Vec<bool>)
    ensures
        hit@.len() == names@.len(),
        forall|i: int|
            0 <= i < names@.len() ==> hit@[i] == name_is_excluded(
                (#[trigger] names@[i])@,
                patterns@,
            ),
{
    let n = names.len();
    let mut hit: Vec<bool> = Vec::new();
    let mut i: usize = 0;
    while i < n
        invariant
            n == names@.len(),
            i <= n,
            hit@.len() == i,
            forall|k: int| 0 <= k < i ==> !hit@[k],
        decreases n - i,
    {
        hit.push(false);
        i += 1;
    }
    let m = patterns.len();
    let mut p: usize = 0;
    while p < m
        invariant
            n == names@.len(),
            m == patterns@.len(),
            p <= m,
            hit@.len() == n,
            forall|k: int|
                0 <= k < n ==> hit@[k] == name_is_excluded(
                    (#[trigger] names@[k])@,
                    patterns@.take(p as int),
                ),
        decreases m - p,
    {
        proof {
            assert forall|k: int| 0 <= k < n implies name_is_excluded(
                (#[trigger] names@[k])@,
                patterns@.take(p as int + 1),
            ) == (hit@[k] || regex_accepts(patterns@[p as int]@, names@[k]@) == Some(true)) by {
                lemma_excluded_by_next(names@[k]@, patterns@, p as int);
            }
        }
        match pattern_matches(patterns[p].as_str(), names) {
            Some(hits) => {
                let mut both: Vec<bool> = Vec::new();
                let mut i: usize = 0;
                while i < n
                    invariant
                        n == names@.len(),
                        hit@.len() == n,
                        hits@.len() == n,
                        i <= n,
                        both@.len() == i,
                        forall|k: int| 0 <= k < i ==> both@[k] == (hit@[k] || hits@[k]),
                    decreases n - i,
                {
                    both.push(hit[i] || hits[i]);
                    i += 1;
                }
                hit = both;
            },
            None => {},
        }
        p += 1;
    }
    proof {
        assert(patterns@.take(m as int) =~= patterns@);
    }
    hit
}

/// Whether one of the patterns matches the name.
pub fn matches_any(name: &str, patterns: &[String]) -> (b: bool)
    ensures
        b == name_is_excluded(name@, patterns@),
{
    let mut names: Vec<String> = Vec::new();
    names.push(name.to_owned());
    let hit = excluded_names(&names, patterns);
    assert(names@[0]@ == name@);
    hit[0]
}

/// The crates that are excluded.
pub fn excluded_crates(crates: &CrateMap, patterns: &[String]) -> (list: Vec<CrateId>)
    ensures
        forall|c: CrateId|
            #![trigger list@.contains(c)]
            list@.contains(c) <==> crate_is_excluded(crates@, patterns@, c),
{
    let n = crates.entries.len();
    let mut names: Vec<String> = Vec::new();
    let mut i: usize = 0;
    while i < n
        invariant
            n == crates.entries@.len(),
            i <= n,
            names@.len() == i,
            forall|k: int| 0 <= k < i ==> (#[trigger] names@[k])@ == crates.entries@[k].name@,
        decreases n - i,
    {
        names.push(crates.entries[i].name.clone());
        i += 1;
    }
    let hit = excluded_names(&names, patterns);
    let mut list: Vec<CrateId> = Vec::new();
    let mut i: usize = 0;
    while i < n
        invariant
            n == crates@.len(),
            n == crates.entries@.len(),
            n == names@.len(),
            n == hit@.len(),
            i <= n,
            forall|k: int| 0 <= k < n ==> (#[trigger] names@[k])@ == crates.entries@[k].name@,
            forall|k: int|
                0 <= k < n ==> hit@[k] == name_is_excluded((#[trigger] names@[k])@, patterns@),
            forall|c: CrateId|
                #![trigger list@.contains(c)]
                list@.contains(c) <==> exists|k: int|
                    0 <= k < i && (#[trigger] crates@[k]).0 == c && name_is_excluded(
                        crates@[k].1,
                        patterns@,
                    ),
        decreases n - i,
    {
        let entry = &crates.entries[i];
        let ghost before = list@;
        assert(crates@[i as int] == (entry.id, entry.name@));
        assert(names@[i as int]@ == entry.name@);
        if hit[i] {
            list.push(entry.id);
            proof {
                assert forall|c: CrateId| list@.contains(c) <==> before.contains(c) || c
                    == entry.id by {
                    crate::feature::lemma_push_in(before, entry.id, c);
                }
            }
        }
        proof {
            assert forall|c: CrateId|
                #![trigger list@.contains(c)]
                list@.contains(c) <==> exists|k: int|
                    0 <= k < i + 1 && (#[trigger] crates@[k]).0 == c && name_is_excluded(
                        crates@[k].1,
                        patterns@,
                    ) by {
                if list@.contains(c) && !before.contains(c) {
                    assert(crates@[i as int].0 == c);
                }
                if before.contains(c) {
                    let k = choose|k: int|
                        0 <= k < i && (#[trigger] crates@[k]).0 == c && name_is_excluded(
                            crates@[k].1,
                            patterns@,
                        );
                    assert(0 <= k < i + 1);
                }
                if exists|k: int|
                    0 <= k < i + 1 && (#[trigger] crates@[k]).0 == c && name_is_excluded(
                        crates@[k].1,
                        patterns@,
                    ) {
                    let k = choose|k: int|
                        0 <= k < i + 1 && (#[trigger] crates@[k]).0 == c && name_is_excluded(
                            crates@[k].1,
                            patterns@,
                        );
                    if k < i {
                        assert(before.contains(c));
                    }
                }
            }
        }
        i += 1;
    }
    list
}

fn has_crate(list: &Vec<CrateId>, c: CrateId) -> (b: bool)
    ensures
        b == list@.contains(c),
{
    let n = list.len();
    let mut i: usize = 0;
    while i < n
        invariant
            n == list@.len(),
            i <= n,
            forall|k: int| 0 <= k < i ==> list@[k] != c,
        decreases n - i,
    {
        if list[i].0 == c.0 {
            assert(list@[i as int] == c);
            return true;
        }
        i += 1;
    }
    false
}

/// Takes out the releases of every crate whose name one of the regular
/// expressions `exclude` matches.
pub fn exclude(db_dump: &mut DbDump, crates: &CrateMap, exclude: &[String])
    ensures
        without_excluded(
            old(db_dump).releases@,
            final(db_dump).releases@,
            crates@,
            exclude@,
        ),
        final(db_dump).dependencies == old(db_dump).dependencies,
        final(db_dump).features == old(db_dump).features,
{
    let excluded = excluded_crates(crates, exclude);
    let mut kept: Vec<Release> = Vec::new();
    let n = db_dump.releases.len();
    let mut i: usize = 0;
    proof {
        assert(db_dump.releases@.take(0) =~= Seq::<Release>::empty());
    }
    while i < n
        invariant
            n == db_dump.releases@.len(),
            i <= n,
            *db_dump == *old(db_dump),
            forall|c: CrateId|
                #![trigger excluded@.contains(c)]
                excluded@.contains(c) <==> crate_is_excluded(crates@, exclude@, c),
            without_excluded(db_dump.releases@.take(i as int), kept@, crates@, exclude@),
        decreases n - i,
    {
        let ghost before = kept@;
        proof {
            assert(db_dump.releases@.take(i as int + 1).drop_last() =~= db_dump.releases@.take(
                i as int,
            ));
            assert(db_dump.releases@.take(i as int + 1).last() == db_dump.releases@[i as int]);
        }
        if !has_crate(&excluded, db_dump.releases[i].crate_id) {
            kept.push(db_dump.releases[i].duplicate());
            proof {
                assert(kept@.drop_last() =~= before);
            }
        }
        i += 1;
    }
    proof {
        assert(db_dump.releases@.take(n as int) =~= db_dump.releases@);
    }
    db_dump.releases = kept;
}

/// The release at `k` is the one that counts for the identifier `v`: the
/// last that has it.
pub open spec fn release_of(rels: Seq<Release>, v: VersionId, k: int) -> bool {
    &&& 0 <= k < rels.len()
    &&& rels[k].id == v
    &&& forall|j: int| k < j < rels.len() ==> (#[trigger] rels[j]).id != v
}

/// The dependency row makes the crate `from` depend on the crate `to`: it
/// asks for `to` and is declared by a release of `from`.
pub open spec fn row_links(rels: Seq<Release>, dep: Dependency, from: CrateId, to: CrateId) -> bool {
    dep.crate_id == to && exists|k: int| #[trigger]
        release_of(rels, dep.version_id, k) && rels[k].crate_id == from
}

/// A release of the crate `from` depends on the crate `to`.
pub open spec fn crate_depends(
    rels: Seq<Release>,
    deps: Seq<Dependency>,
    from: CrateId,
    to: CrateId,
) -> bool {
    exists|d: int| 0 <= d < deps.len() && row_links(rels, #[trigger] deps[d], from, to)
}

/// One of the predicates of the query names the crate.
pub open spec fn query_names(q: Query, c: CrateId) -> bool {
    exists|j: int| 0 <= j < q.predicates@.len() && (#[trigger] q.predicates@[j]).crate_id == c
}

/// One of the queries names the crate.
pub open spec fn is_queried(queries: Seq<Query>, c: CrateId) -> bool {
    exists|i: int| 0 <= i < queries.len() && query_names(#[trigger] queries[i], c)
}

/// A chain of crates, each of which depends on the next.
pub open spec fn is_chain(rels: Seq<Release>, deps: Seq<Dependency>, chain: Seq<CrateId>) -> bool {
    &&& chain.len() > 0
    &&& forall|i: int|
        0 <= i < chain.len() - 1 ==> crate_depends(rels, deps, #[trigger] chain[i], chain[i + 1])
}

/// The crate has to do with the queries: a chain of dependencies leads from
/// it to a crate that a query names, or it is such a crate.
pub open spec fn is_connected(
    rels: Seq<Release>,
    deps: Seq<Dependency>,
    queries: Seq<Query>,
    c: CrateId,
) -> bool {
    exists|chain: Seq<CrateId>|
        #[trigger] is_chain(rels, deps, chain) && chain[0] == c && is_queried(
            queries,
            chain.last(),
        )
}

/// `after` are the releases of `before` whose crate has to do with the
/// queries, in their order.
pub open spec fn connected_releases(
    before: Seq<Release>,
    after: Seq<Release>,
    rels: Seq<Release>,
    deps: Seq<Dependency>,
    queries: Seq<Query>,
) -> bool
    decreases before.len(),
{
    if before.len() == 0 {
        after.len() == 0
    } else if !is_connected(rels, deps, queries, before.last().crate_id) {
        connected_releases(before.drop_last(), after, rels, deps, queries)
    } else {
        &&& after.len() > 0
        &&& connected_releases(before.drop_last(), after.drop_last(), rels, deps, queries)
        &&& same_release(before.last(), after.last())
    }
}

/// `after` are the rows of `before` that ask for a crate that has to do
/// with the queries, in their order.
pub open spec fn connected_rows(
    before: Seq<Dependency>,
    after: Seq<Dependency>,
    rels: Seq<Release>,
    deps: Seq<Dependency>,
    queries: Seq<Query>,
) -> bool
    decreases before.len(),
{
    if before.len() == 0 {
        after.len() == 0
    } else if !is_connected(rels, deps, queries, before.last().crate_id) {
        connected_rows(before.drop_last(), after, rels, deps, queries)
    } else {
        &&& after.len() > 0
        &&& connected_rows(before.drop_last(), after.drop_last(), rels, deps, queries)
        &&& same_but_req(before.last(), after.last())
        &&& after.last().req@ == before.last().req@
    }
}

/// The place of the release that counts for the identifier `v`.
fn find_release_of(releases: &Vec<Release>, v: VersionId) -> (found: Option<usize>)
    ensures
        match found {
            Some(k) => release_of(releases@, v, k as int),
            None => forall|k: int| !release_of(releases@, v, k),
        },
{
    let n = releases.len();
    let mut i: usize = n;
    while i > 0
        invariant
            n == releases@.len(),
            i <= n,
            forall|j: int| i <= j < n ==> (#[trigger] releases@[j]).id != v,
        decreases i,
    {
        i -= 1;
        if releases[i].id.0 == v.0 {
            return Some(i);
        }
    }
    None
}

/// The dependencies between crates, one edge for each row of a known
/// release.
fn crate_edges(releases: &Vec<Release>, deps: &Vec<Dependency>) -> (edges: Vec<Edge<CrateId>>)
    ensures
        forall|e: Edge<CrateId>|
            #![trigger edges@.contains(e)]
            edges@.contains(e) <==> crate_depends(releases@, deps@, e.from, e.to),
{
    let mut edges: Vec<Edge<CrateId>> = Vec::new();
    let n = deps.len();
    let mut d: usize = 0;
    while d < n
        invariant
            n == deps@.len(),
            d <= n,
            forall|e: Edge<CrateId>|
                #![trigger edges@.contains(e)]
                edges@.contains(e) <==> exists|i: int|
                    0 <= i < d && row_links(releases@, #[trigger] deps@[i], e.from, e.to),
        decreases n - d,
    {
        let ghost before = edges@;
        let dep = &deps[d];
        match find_release_of(releases, dep.version_id) {
            Some(k) => {
                let edge = Edge { from: releases[k].crate_id, to: dep.crate_id };
                edges.push(edge);
                proof {
                    assert forall|e: Edge<CrateId>|
                        #![trigger edges@.contains(e)]
                        edges@.contains(e) <==> before.contains(e) || row_links(
                            releases@,
                            *dep,
                            e.from,
                            e.to,
                        ) by {
                        crate::feature::lemma_push_in(before, edge, e);
                        if row_links(releases@, *dep, e.from, e.to) {
                            let k2 = choose|k2: int| #[trigger]
                                release_of(releases@, dep.version_id, k2) && releases@[k2].crate_id
                                    == e.from;
                            assert(k2 == k);
                            assert(e == edge);
                        }
                        if e == edge {
                            assert(release_of(releases@, dep.version_id, k as int));
                        }
                    }
                }
            },
            None => {
                proof {
                    assert forall|e: Edge<CrateId>|
                        #![trigger edges@.contains(e)]
                        edges@.contains(e) <==> before.contains(e) || row_links(
                            releases@,
                            *dep,
                            e.from,
                            e.to,
                        ) by {}
                }
            },
        }
        proof {
            assert forall|e: Edge<CrateId>|
                #![trigger edges@.contains(e)]
                edges@.contains(e) <==> exists|i: int|
                    0 <= i < d + 1 && row_links(releases@, #[trigger] deps@[i], e.from, e.to) by {
                assert(edges@.contains(e) <==> before.contains(e) || row_links(
                    releases@,
                    deps@[d as int],
                    e.from,
                    e.to,
                ));
                if before.contains(e) {
                    let i = choose|i: int|
                        0 <= i < d && row_links(releases@, #[trigger] deps@[i], e.from, e.to);
                    assert(0 <= i < d + 1);
                }
                if exists|i: int|
                    0 <= i < d + 1 && row_links(releases@, #[trigger] deps@[i], e.from, e.to) {
                    let i = choose|i: int|
                        0 <= i < d + 1 && row_links(releases@, #[trigger] deps@[i], e.from, e.to);
                    if i < d {
                        assert(before.contains(e));
                    }
                }
            }
        }
        d += 1;
    }
    edges
}

/// The crates that the queries name.
fn queried_crates(queries: &[Query]) -> (list: Vec<CrateId>)
    ensures
        forall|c: CrateId| #![trigger list@.contains(c)] list@.contains(c) <==> is_queried(queries@, c),
{
    let mut list: Vec<CrateId> = Vec::new();
    let n = queries.len();
    let mut i: usize = 0;
    while i < n
        invariant
            n == queries@.len(),
            i <= n,
            forall|c: CrateId|
                #![trigger list@.contains(c)]
                list@.contains(c) <==> exists|k: int|
                    0 <= k < i && query_names(#[trigger] queries@[k], c),
        decreases n - i,
    {
        let q = &queries[i];
        let ghost listed = list@;
        let m = q.predicates.len();
        let mut j: usize = 0;
        while j < m
            invariant
                m == q.predicates@.len(),
                j <= m,
                forall|c: CrateId|
                    #![trigger list@.contains(c)]
                    list@.contains(c) <==> listed.contains(c) || exists|k: int|
                        0 <= k < j && (#[trigger] q.predicates@[k]).crate_id == c,
            decreases m - j,
        {
            let ghost before = list@;
            let c0 = q.predicates.get(j).crate_id;
            list.push(c0);
            proof {
                assert forall|c: CrateId|
                    #![trigger list@.contains(c)]
                    list@.contains(c) <==> listed.contains(c) || exists|k: int|
                        0 <= k < j + 1 && (#[trigger] q.predicates@[k]).crate_id == c by {
                    crate::feature::lemma_push_in(before, c0, c);
                    if exists|k: int| 0 <= k < j + 1 && (#[trigger] q.predicates@[k]).crate_id == c {
                        let k = choose|k: int|
                            0 <= k < j + 1 && (#[trigger] q.predicates@[k]).crate_id == c;
                        if k < j {
                            assert(before.contains(c));
                        }
                    }
                    if before.contains(c) && !listed.contains(c) {
                        let k = choose|k: int|
                            0 <= k < j && (#[trigger] q.predicates@[k]).crate_id == c;
                        assert(0 <= k < j + 1);
                    }
                }
            }
            j += 1;
        }
        proof {
            assert forall|c: CrateId|
                #![trigger list@.contains(c)]
                list@.contains(c) <==> exists|k: int|
                    0 <= k < i + 1 && query_names(#[trigger] queries@[k], c) by {
                if list@.contains(c) {
                    if listed.contains(c) {
                        let k = choose|k: int| 0 <= k < i && query_names(#[trigger] queries@[k], c);
                        assert(0 <= k < i + 1);
                    } else {
                        assert(query_names(queries@[i as int], c));
                    }
                }
                if exists|k: int| 0 <= k < i + 1 && query_names(#[trigger] queries@[k], c) {
                    let k = choose|k: int| 0 <= k < i + 1 && query_names(#[trigger] queries@[k], c);
                    if k < i {
                        assert(listed.contains(c));
                    } else {
                        let j2 = choose|j2: int|
                            0 <= j2 < q.predicates@.len() && (#[trigger] q.predicates@[j2]).crate_id
                                == c;
                        assert(list@.contains(c));
                    }
                }
            }
        }
        i += 1;
    }
    list
}

/// Over a list of the dependencies between crates and of the crates that
/// the queries name, what reaches one of these has to do with the queries.
proof fn lemma_reaching_is_connected(
    rels: Seq<Release>,
    deps: Seq<Dependency>,
    queries: Seq<Query>,
    edges: Seq<Edge<CrateId>>,
    seeds: Seq<CrateId>,
    c: CrateId,
)
    requires
        forall|e: Edge<CrateId>| #[trigger]
            edges.contains(e) ==> crate_depends(rels, deps, e.from, e.to),
        forall|x: CrateId| #[trigger] seeds.contains(x) ==> is_queried(queries, x),
        reaches(edges, seeds, c),
    ensures
        is_connected(rels, deps, queries, c),
{
    reveal(reaches);
    let walk = choose|walk: Seq<CrateId>|
        #[trigger] is_walk(edges, walk) && walk[0] == c && seeds.contains(walk.last());
    assert forall|i: int| 0 <= i < walk.len() - 1 implies crate_depends(
        rels,
        deps,
        #[trigger] walk[i],
        walk[i + 1],
    ) by {
        assert(edges.contains(Edge { from: walk[i], to: walk[i + 1] }));
    }
    assert(is_chain(rels, deps, walk));
}

/// And what has to do with the queries reaches one of the crates that they
/// name.
proof fn lemma_connected_is_reaching(
    rels: Seq<Release>,
    deps: Seq<Dependency>,
    queries: Seq<Query>,
    edges: Seq<Edge<CrateId>>,
    seeds: Seq<CrateId>,
    c: CrateId,
)
    requires
        forall|from: CrateId, to: CrateId| #[trigger]
            crate_depends(rels, deps, from, to) ==> edges.contains(Edge { from, to }),
        forall|x: CrateId| #[trigger] is_queried(queries, x) ==> seeds.contains(x),
        is_connected(rels, deps, queries, c),
    ensures
        reaches(edges, seeds, c),
{
    reveal(reaches);
    let chain = choose|chain: Seq<CrateId>|
        #[trigger] is_chain(rels, deps, chain) && chain[0] == c && is_queried(
            queries,
            chain.last(),
        );
    assert forall|i: int| 0 <= i < chain.len() - 1 implies edges.contains(
        Edge { from: #[trigger] chain[i], to: chain[i + 1] },
    ) by {
        assert(crate_depends(rels, deps, chain[i], chain[i + 1]));
    }
    assert(is_walk(edges, chain));
}

/// Keeps what has to do with the queries: the releases of the crates that
/// a query names and of the crates that depend on them, however far, and the
/// dependency rows that ask for one of these crates.
pub fn disjoin(db_dump: &mut DbDump, queries: &[Query])
    ensures
        connected_releases(
            old(db_dump).releases@,
            final(db_dump).releases@,
            old(db_dump).releases@,
            old(db_dump).dependencies@,
            queries@,
        ),
        connected_rows(
            old(db_dump).dependencies@,
            final(db_dump).dependencies@,
            old(db_dump).releases@,
            old(db_dump).dependencies@,
            queries@,
        ),
        final(db_dump).features == old(db_dump).features,
{
    let ghost rels = db_dump.releases@;
    let ghost deps = db_dump.dependencies@;
    let edges = crate_edges(&db_dump.releases, &db_dump.dependencies);
    let seeds = queried_crates(queries);
    let ghost seeds_view = seeds@;
    let connected = reach_set(&edges, seeds);
    proof {
        assert forall|from: CrateId, to: CrateId| #[trigger]
            crate_depends(rels, deps, from, to) implies edges@.contains(Edge { from, to }) by {
            let e = Edge { from, to };
            assert(crate_depends(rels, deps, e.from, e.to));
        }
        assert forall|c: CrateId|
            #![trigger connected@.contains(c)]
            connected@.contains(c) <==> is_connected(rels, deps, queries@, c) by {
            if reaches(edges@, seeds_view, c) {
                lemma_reaching_is_connected(rels, deps, queries@, edges@, seeds_view, c);
            }
            if is_connected(rels, deps, queries@, c) {
                lemma_connected_is_reaching(rels, deps, queries@, edges@, seeds_view, c);
            }
        }
    }
    let mut kept: Vec<Release> = Vec::new();
    let n = db_dump.releases.len();
    let mut i: usize = 0;
    proof {
        assert(rels.take(0) =~= Seq::<Release>::empty());
    }
    while i < n
        invariant
            n == rels.len(),
            i <= n,
            *db_dump == *old(db_dump),
            rels == db_dump.releases@,
            deps == db_dump.dependencies@,
            forall|c: CrateId|
                #![trigger connected@.contains(c)]
                connected@.contains(c) <==> is_connected(rels, deps, queries@, c),
            connected_releases(rels.take(i as int), kept@, rels, deps, queries@),
        decreases n - i,
    {
        let ghost before = kept@;
        proof {
            assert(rels.take(i as int + 1).drop_last() =~= rels.take(i as int));
            assert(rels.take(i as int + 1).last() == rels[i as int]);
        }
        if has_crate(&connected, db_dump.releases[i].crate_id) {
            kept.push(db_dump.releases[i].duplicate());
            proof {
                assert(kept@.drop_last() =~= before);
            }
        }
        i += 1;
    }
    let mut rows: Vec<Dependency> = Vec::new();
    let m = db_dump.dependencies.len();
    let mut j: usize = 0;
    proof {
        assert(rels.take(n as int) =~= rels);
        assert(deps.take(0) =~= Seq::<Dependency>::empty());
    }
    while j < m
        invariant
            m == deps.len(),
            j <= m,
            *db_dump == *old(db_dump),
            rels == db_dump.releases@,
            deps == db_dump.dependencies@,
            forall|c: CrateId|
                #![trigger connected@.contains(c)]
                connected@.contains(c) <==> is_connected(rels, deps, queries@, c),
            connected_rows(deps.take(j as int), rows@, rels, deps, queries@),
        decreases m - j,
    {
        let ghost before = rows@;
        proof {
            assert(deps.take(j as int + 1).drop_last() =~= deps.take(j as int));
            assert(deps.take(j as int + 1).last() == deps[j as int]);
        }
        if has_crate(&connected, db_dump.dependencies[j].crate_id) {
            rows.push(db_dump.dependencies[j].duplicate());
            proof {
                assert(rows@.drop_last() =~= before);
            }
        }
        j += 1;
    }
    proof {
        assert(deps.take(m as int) =~= deps);
    }
    db_dump.releases = kept;
    db_dump.dependencies = rows;
}

} // verus!
