//! The cleaning of dependency rows against the chronological list of
//! releases: rows that cannot resolve are dropped, requirements that are too
//! wide are narrowed.

use crate::arena::Slice;
use crate::cratemap::CrateMap;
use crate::id::{CrateId, VersionId};
use crate::resolve::{version_less, version_lt};
use crate::version::{
    spec_matches, Comparator, ComparatorView, Op, Version, VersionReq, VersionView,
};
use crate::{DbDump, Dependency, Release};
use vstd::prelude::*;

verus! {

/// The release at `k` is the one that declares the rows of version `v`: the
/// first with that identifier.
pub open spec fn declares(rels: Seq<Release>, v: VersionId, k: int) -> bool {
    &&& 0 <= k < rels.len()
    &&& rels[k].id == v
    &&& forall|j: int| 0 <= j < k ==> (#[trigger] rels[j]).id != v
}

/// The highest version of crate `c` among the first `n` releases, `None` if
/// none of them is of that crate.
pub open spec fn highest(rels: Seq<Release>, n: nat, c: CrateId) -> Option<VersionView>
    decreases n,
{
    if n == 0 {
        None
    } else {
        let before = highest(rels, (n - 1) as nat, c);
        let r = rels[n - 1];
        if r.crate_id != c {
            before
        } else {
            match before {
                Some(v) if !version_lt(v, r.num@) => before,
                _ => Some(r.num@),
            }
        }
    }
}

/// The lowest version that is not compatible with `v` any more: the next
/// major version or, before 1.0.0, the next minor or patch version. `None`
/// where there is no such number.
pub open spec fn next_incompatible(v: VersionView) -> Option<VersionView> {
    if v.major > 0 {
        if v.major < u64::MAX {
            Some(
                VersionView {
                    major: (v.major + 1) as u64,
                    minor: 0,
                    patch: 0,
                    pre: Seq::empty(),
                },
            )
        } else {
            None
        }
    } else if v.minor > 0 {
        if v.minor < u64::MAX {
            Some(
                VersionView {
                    major: 0,
                    minor: (v.minor + 1) as u64,
                    patch: 0,
                    pre: Seq::empty(),
                },
            )
        } else {
            None
        }
    } else {
        if v.patch < u64::MAX {
            Some(
                VersionView {
                    major: 0,
                    minor: 0,
                    patch: (v.patch + 1) as u64,
                    pre: Seq::empty(),
                },
            )
        } else {
            None
        }
    }
}

/// `^major.minor.patch`, as a requirement.
pub open spec fn caret_of(v: VersionView) -> Seq<ComparatorView> {
    seq![
        ComparatorView {
            op: Op::Caret,
            major: v.major,
            minor: Some(v.minor),
            patch: Some(v.patch),
            pre: Seq::empty(),
        },
    ]
}

/// The row is dropped: when the release that declares it was published, no
/// release of the crate it asks for had been.
pub open spec fn is_dropped(rels: Seq<Release>, dep: Dependency) -> bool {
    exists|k: int| #[trigger]
        declares(rels, dep.version_id, k) && highest(rels, (k + 1) as nat, dep.crate_id) is None
}

/// The row's requirement is too wide: it accepts the lowest version that is
/// incompatible with `max`, the highest version of its crate that was
/// published when the declaring release was.
pub open spec fn is_too_wide(rels: Seq<Release>, dep: Dependency, max: VersionView) -> bool {
    &&& exists|k: int| #[trigger]
        declares(rels, dep.version_id, k) && highest(rels, (k + 1) as nat, dep.crate_id) == Some(
            max,
        )
    &&& next_incompatible(max) is Some
    &&& spec_matches(dep.req@, next_incompatible(max)->0)
}

/// The requirement that cleaning leaves the row with: `^max` where the
/// row's own is too wide, else its own.
pub open spec fn cleaned_req(rels: Seq<Release>, dep: Dependency) -> Seq<ComparatorView> {
    if exists|max: VersionView| is_too_wide(rels, dep, max) {
        caret_of(choose|max: VersionView| is_too_wide(rels, dep, max))
    } else {
        dep.req@
    }
}

/// `after` is `before` but for its requirement.
pub open spec fn same_but_req(before: Dependency, after: Dependency) -> bool {
    &&& after.id == before.id
    &&& after.version_id == before.version_id
    &&& after.crate_id == before.crate_id
    &&& after.feature_id == before.feature_id
    &&& after.default_features == before.default_features
    &&& after.features@ == before.features@
    &&& after.kind == before.kind
}

/// `after` is what cleaning makes of the rows `before`: the rows that are
/// not dropped, in their order, each with its cleaned requirement.
pub open spec fn cleaned(rels: Seq<Release>, before: Seq<Dependency>, after: Seq<Dependency>) -> bool
    decreases before.len(),
{
    if before.len() == 0 {
        after.len() == 0
    } else if is_dropped(rels, before.last()) {
        cleaned(rels, before.drop_last(), after)
    } else {
        &&& after.len() > 0
        &&& cleaned(rels, before.drop_last(), after.drop_last())
        &&& same_but_req(before.last(), after.last())
        &&& after.last().req@ == cleaned_req(rels, before.last())
    }
}

impl Dependency {
    /// A second row with the same content.
    pub fn duplicate(&self) -> (copy: Dependency)
        ensures
            same_but_req(*self, copy),
            copy.req@ == self.req@,
    {
        Dependency {
            id: self.id,
            version_id: self.version_id,
            crate_id: self.crate_id,
            req: self.req.duplicate(),
            feature_id: self.feature_id,
            default_features: self.default_features,
            features: self.features.duplicate(),
            kind: self.kind,
        }
    }
}

/// The place of the release that declares the rows of version `v`.
pub fn find_release(releases: &Vec<Release>, v: VersionId) -> (found: Option<usize>)
    ensures
        match found {
            Some(k) => declares(releases@, v, k as int),
            None => forall|j: int| 0 <= j < releases@.len() ==> (#[trigger] releases@[j]).id != v,
        },
{
    let n = releases.len();
    let mut i: usize = 0;
    while i < n
        invariant
            n == releases@.len(),
            i <= n,
            forall|j: int| 0 <= j < i ==> (#[trigger] releases@[j]).id != v,
        decreases n - i,
    {
        if releases[i].id.0 == v.0 {
            return Some(i);
        }
        i += 1;
    }
    None
}

/// The place of the release with the highest version of crate `c` among the
/// first `n`.
pub fn highest_release(releases: &Vec<Release>, n: usize, c: CrateId) -> (found: Option<usize>)
    requires
        n <= releases@.len(),
    ensures
        match found {
            Some(m) => m < n && highest(releases@, n as nat, c) == Some(releases@[m as int].num@),
            None => highest(releases@, n as nat, c) is None,
        },
{
    let mut best: Option<usize> = None;
    let mut i: usize = 0;
    while i < n
        invariant
            i <= n <= releases@.len(),
            match best {
                Some(m) => m < i && highest(releases@, i as nat, c) == Some(
                    releases@[m as int].num@,
                ),
                None => highest(releases@, i as nat, c) is None,
            },
        decreases n - i,
    {
        let r = &releases[i];
        if r.crate_id.0 == c.0 {
            match best {
                Some(m) => {
                    if version_less(&releases[m].num, &r.num) {
                        best = Some(i);
                    }
                },
                None => {
                    best = Some(i);
                },
            }
        }
        i += 1;
    }
    best
}

/// The lowest version that is incompatible with `v`.
pub fn incompatible_with(v: &Version) -> (next: Option<Version>)
    ensures
        match next {
            Some(next) => next_incompatible(v@) == Some(next@),
            None => next_incompatible(v@) is None,
        },
{
    if v.major > 0 {
        if v.major < u64::MAX {
            Some(Version::new(v.major + 1, 0, 0))
        } else {
            None
        }
    } else if v.minor > 0 {
        if v.minor < u64::MAX {
            Some(Version::new(0, v.minor + 1, 0))
        } else {
            None
        }
    } else {
        if v.patch < u64::MAX {
            Some(Version::new(0, 0, v.patch + 1))
        } else {
            None
        }
    }
}

/// The requirement `^major.minor.patch` of a version's three numbers.
pub fn caret_req(v: &Version) -> (req: VersionReq)
    ensures
        req@ == caret_of(v@),
{
    let mut comparators: Vec<Comparator> = Vec::new();
    comparators.push(
        Comparator {
            op: Op::Caret,
            major: v.major,
            minor: Some(v.minor),
            patch: Some(v.patch),
            pre: String::new(),
        },
    );
    let req = VersionReq { comparators: Slice::from(comparators) };
    assert(req@ =~= caret_of(v@));
    req
}

/// Two places that declare the rows of one version are one place.
proof fn lemma_declares_once(rels: Seq<Release>, v: VersionId, k1: int, k2: int)
    requires
        declares(rels, v, k1),
        declares(rels, v, k2),
    ensures
        k1 == k2,
{
}

/// Cleans one row: `None` where it is dropped, else the row with its
/// cleaned requirement.
pub fn clean_row(releases: &Vec<Release>, dep: &Dependency) -> (row: Option<Dependency>)
    ensures
        row is None <==> is_dropped(releases@, *dep),
        row is Some ==> same_but_req(*dep, row->0) && row->0.req@ == cleaned_req(releases@, *dep),
{
    let ghost rels = releases@;
    let mut row = dep.duplicate();
    let k = match find_release(releases, dep.version_id) {
        Some(k) => k,
        None => {
            proof {
                assert forall|k: int| !(#[trigger] declares(rels, dep.version_id, k)) by {}
                assert forall|max: VersionView| !is_too_wide(rels, *dep, max) by {}
            }
            return Some(row);
        },
    };
    let total = releases.len();
    assert(declares(rels, dep.version_id, k as int));
    assert(k < total);
    let m = match highest_release(releases, k + 1, dep.crate_id) {
        Some(m) => m,
        None => {
            return None;
        },
    };
    let max = &releases[m].num;
    proof {
        assert forall|k2: int| #[trigger] declares(rels, dep.version_id, k2) implies highest(
            rels,
            (k2 + 1) as nat,
            dep.crate_id,
        ) == Some(max@) by {
            lemma_declares_once(rels, dep.version_id, k as int, k2);
        }
        assert(!is_dropped(rels, *dep));
    }
    let too_wide = match incompatible_with(max) {
        Some(next) => dep.req.matches(&next),
        None => false,
    };
    proof {
        assert(too_wide == is_too_wide(rels, *dep, max@));
        assert forall|other: VersionView| is_too_wide(rels, *dep, other) implies other == max@ by {
            let k2 = choose|k2: int| #[trigger]
                declares(rels, dep.version_id, k2) && highest(
                    rels,
                    (k2 + 1) as nat,
                    dep.crate_id,
                ) == Some(other);
            lemma_declares_once(rels, dep.version_id, k as int, k2);
        }
    }
    if too_wide {
        row.req = caret_req(max);
    }
    Some(row)
}

/// Goes through the dependency rows against the chronological list of
/// releases. A row on a crate of which nothing had been published when the
/// declaring release was is dropped. A row whose requirement accepts a
/// version that is incompatible with the highest one published by then is
/// narrowed to that highest version's caret requirement.
pub fn clean(db_dump: &mut DbDump, crates: &CrateMap)
    ensures
        cleaned(old(db_dump).releases@, old(db_dump).dependencies@, final(db_dump).dependencies@),
        final(db_dump).releases == old(db_dump).releases,
        final(db_dump).features == old(db_dump).features,
{
    let mut out: Vec<Dependency> = Vec::new();
    let n = db_dump.dependencies.len();
    let mut i: usize = 0;
    while i < n
        invariant
            n == db_dump.dependencies@.len(),
            i <= n,
            *db_dump == *old(db_dump),
            cleaned(db_dump.releases@, db_dump.dependencies@.take(i as int), out@),
        decreases n - i,
    {
        let ghost before = db_dump.dependencies@.take(i as int + 1);
        let ghost out_before = out@;
        proof {
            assert(before.drop_last() == db_dump.dependencies@.take(i as int));
            assert(before.last() == db_dump.dependencies@[i as int]);
        }
        match clean_row(&db_dump.releases, &db_dump.dependencies[i]) {
            Some(row) => {
                out.push(row);
                proof {
                    assert(out@.drop_last() == out_before);
                }
            },
            None => {},
        }
        i += 1;
    }
    proof {
        assert(db_dump.dependencies@.take(n as int) == db_dump.dependencies@);
    }
    db_dump.dependencies = out;
}

} // verus!
