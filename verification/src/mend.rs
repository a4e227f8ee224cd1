//! Releases that were deleted from the registry while crates still depend on
//! them, and how they are put back.

use crate::arena::Slice;
use crate::cratemap::{id_of, CrateMap};
use crate::dependency::DependencyKind;
use crate::feature::{
    feature_of, feature_views, interned, CrateFeature, DefaultFeatures, FeatureEnables,
    FeatureEnablesView, FeatureId, FeatureNames,
};
use crate::id::{CrateId, DependencyId, VersionId};
use crate::timestamp::DateTime;
use crate::version::{Comparator, ComparatorView, Op, Version, VersionReq, VersionView};
use crate::{DbDump, Dependency, Release};
use std::collections::HashSet;
use vstd::prelude::*;

verus! {

broadcast use vstd::std_specs::hash::group_hash_axioms;

/// The dependency rows that a patched release gets.
#[derive(Copy, Clone, PartialEq, Eq, Structural, Debug)]
pub enum RowSet {
    /// None at all.
    Bare,
    /// The rows of the first release of `partial-io`.
    First,
    /// The rows of its releases up to 0.2.5.
    Early,
    /// The rows of its release 0.3.0.
    Late,
}

/// A release that was deleted from the registry and is put back.
#[derive(Copy, Clone, Debug)]
pub struct ReleasePatch {
    pub krate: &'static str,
    pub major: u64,
    pub minor: u64,
    pub patch: u64,
    /// When it was published, in seconds since the epoch.
    pub secs: i64,
    pub rows: RowSet,
}

/// A dependency row of a release that is put back: on `target`, with the
/// requirement `^major.minor`, brought in by `feature` or, without one, by
/// the crate itself.
#[derive(Copy, Clone, Debug)]
pub struct RowPatch {
    pub target: &'static str,
    pub major: u64,
    pub minor: u64,
    pub feature: Option<&'static str>,
    pub kind: DependencyKind,
}

/// The releases that are put back, in the order in which they are added:
/// `git-version` 0.1.0 to 0.2.0 and `partial-io` 0.1.0 to 0.3.0.
pub open spec fn release_patches() -> Seq<ReleasePatch> {
    seq![
        // 18 Oct 2017 13:53:11
        ReleasePatch { krate: "git-version", major: 0, minor: 1, patch: 0, secs: 1508334791, rows: RowSet::Bare },
        // 18 Oct 2017 13:55:40
        ReleasePatch { krate: "git-version", major: 0, minor: 1, patch: 1, secs: 1508334940, rows: RowSet::Bare },
        // 18 Oct 2017 13:57:15
        ReleasePatch { krate: "git-version", major: 0, minor: 1, patch: 2, secs: 1508335035, rows: RowSet::Bare },
        // 5 Apr 2018 09:14:16
        ReleasePatch { krate: "git-version", major: 0, minor: 2, patch: 0, secs: 1522919656, rows: RowSet::Bare },
        // 26 May 2017 02:38:58
        ReleasePatch { krate: "partial-io", major: 0, minor: 1, patch: 0, secs: 1495766338, rows: RowSet::First },
        // 27 May 2017 00:56:37
        ReleasePatch { krate: "partial-io", major: 0, minor: 1, patch: 1, secs: 1495846597, rows: RowSet::Early },
        // 30 May 2017 21:01:28
        ReleasePatch { krate: "partial-io", major: 0, minor: 2, patch: 0, secs: 1496178088, rows: RowSet::Early },
        // 30 May 2017 21:47:41
        ReleasePatch { krate: "partial-io", major: 0, minor: 2, patch: 1, secs: 1496180861, rows: RowSet::Early },
        // 12 Jun 2017 05:26:52
        ReleasePatch { krate: "partial-io", major: 0, minor: 2, patch: 2, secs: 1497245212, rows: RowSet::Early },
        // 20 Jul 2017 20:01:22
        ReleasePatch { krate: "partial-io", major: 0, minor: 2, patch: 3, secs: 1500580882, rows: RowSet::Early },
        // 19 Aug 2017 23:37:51
        ReleasePatch { krate: "partial-io", major: 0, minor: 2, patch: 4, secs: 1503185871, rows: RowSet::Early },
        // 18 Nov 2017 02:26:25
        ReleasePatch { krate: "partial-io", major: 0, minor: 2, patch: 5, secs: 1510971985, rows: RowSet::Early },
        // 12 Jan 2018 22:15:15
        ReleasePatch { krate: "partial-io", major: 0, minor: 3, patch: 0, secs: 1515795315, rows: RowSet::Late },
    ]
}

/// The dependency rows of a set, in the order in which they are added.
pub open spec fn row_patches(set: RowSet) -> Seq<RowPatch> {
    match set {
        RowSet::Bare => Seq::empty(),
        RowSet::First => seq![
            RowPatch { target: "futures", major: 0, minor: 1, feature: Some("futures"), kind: DependencyKind::Normal },
            RowPatch { target: "lazy_static", major: 0, minor: 2, feature: None, kind: DependencyKind::Dev },
            RowPatch { target: "quickcheck", major: 0, minor: 4, feature: Some("quickcheck"), kind: DependencyKind::Normal },
            RowPatch { target: "quickcheck", major: 0, minor: 4, feature: None, kind: DependencyKind::Dev },
            RowPatch { target: "tokio-core", major: 0, minor: 1, feature: None, kind: DependencyKind::Dev },
            RowPatch { target: "tokio-io", major: 0, minor: 1, feature: Some("tokio-io"), kind: DependencyKind::Normal },
        ],
        RowSet::Early => seq![
            RowPatch { target: "futures", major: 0, minor: 1, feature: Some("futures"), kind: DependencyKind::Normal },
            RowPatch { target: "lazy_static", major: 0, minor: 2, feature: None, kind: DependencyKind::Dev },
            RowPatch { target: "quickcheck", major: 0, minor: 4, feature: None, kind: DependencyKind::Dev },
            RowPatch { target: "quickcheck", major: 0, minor: 4, feature: Some("quickcheck"), kind: DependencyKind::Normal },
            RowPatch { target: "tokio-core", major: 0, minor: 1, feature: None, kind: DependencyKind::Dev },
            RowPatch { target: "tokio-io", major: 0, minor: 1, feature: Some("tokio-io"), kind: DependencyKind::Normal },
        ],
        RowSet::Late => seq![
            RowPatch { target: "futures", major: 0, minor: 1, feature: Some("futures"), kind: DependencyKind::Normal },
            RowPatch { target: "lazy_static", major: 1, minor: 0, feature: None, kind: DependencyKind::Dev },
            RowPatch { target: "quickcheck", major: 0, minor: 6, feature: None, kind: DependencyKind::Dev },
            RowPatch { target: "quickcheck", major: 0, minor: 6, feature: Some("quickcheck"), kind: DependencyKind::Normal },
            RowPatch { target: "tokio-core", major: 0, minor: 1, feature: None, kind: DependencyKind::Dev },
            RowPatch { target: "tokio-io", major: 0, minor: 1, feature: Some("tokio-io"), kind: DependencyKind::Normal },
        ],
    }
}

/// The feature names that the patches use, in the order in which they are
/// entered in the table of names.
pub open spec fn patch_feature_names() -> Seq<Seq<char>> {
    seq!["tokio"@, "tokio-io"@, "futures"@, "quickcheck"@]
}

/// The list of `release_patches`.
pub fn release_patch_list() -> (list: Vec<ReleasePatch>)
    ensures
        list@ == release_patches(),
{
    let mut list: Vec<ReleasePatch> = Vec::new();
    list.push(ReleasePatch { krate: "git-version", major: 0, minor: 1, patch: 0, secs: 1508334791, rows: RowSet::Bare });
    list.push(ReleasePatch { krate: "git-version", major: 0, minor: 1, patch: 1, secs: 1508334940, rows: RowSet::Bare });
    list.push(ReleasePatch { krate: "git-version", major: 0, minor: 1, patch: 2, secs: 1508335035, rows: RowSet::Bare });
    list.push(ReleasePatch { krate: "git-version", major: 0, minor: 2, patch: 0, secs: 1522919656, rows: RowSet::Bare });
    list.push(ReleasePatch { krate: "partial-io", major: 0, minor: 1, patch: 0, secs: 1495766338, rows: RowSet::First });
    list.push(ReleasePatch { krate: "partial-io", major: 0, minor: 1, patch: 1, secs: 1495846597, rows: RowSet::Early });
    list.push(ReleasePatch { krate: "partial-io", major: 0, minor: 2, patch: 0, secs: 1496178088, rows: RowSet::Early });
    list.push(ReleasePatch { krate: "partial-io", major: 0, minor: 2, patch: 1, secs: 1496180861, rows: RowSet::Early });
    list.push(ReleasePatch { krate: "partial-io", major: 0, minor: 2, patch: 2, secs: 1497245212, rows: RowSet::Early });
    list.push(ReleasePatch { krate: "partial-io", major: 0, minor: 2, patch: 3, secs: 1500580882, rows: RowSet::Early });
    list.push(ReleasePatch { krate: "partial-io", major: 0, minor: 2, patch: 4, secs: 1503185871, rows: RowSet::Early });
    list.push(ReleasePatch { krate: "partial-io", major: 0, minor: 2, patch: 5, secs: 1510971985, rows: RowSet::Early });
    list.push(ReleasePatch { krate: "partial-io", major: 0, minor: 3, patch: 0, secs: 1515795315, rows: RowSet::Late });
    assert(list@ =~= release_patches());
    list
}

fn row(target: &'static str, major: u64, minor: u64, feature: Option<&'static str>, kind: DependencyKind) -> (r: RowPatch)
    ensures
        r == (RowPatch { target, major, minor, feature, kind }),
{
    RowPatch { target, major, minor, feature, kind }
}

/// The list of `row_patches(set)`.
pub fn row_patch_list(set: RowSet) -> (list: Vec<RowPatch>)
    ensures
        list@ == row_patches(set),
{
    let mut list: Vec<RowPatch> = Vec::new();
    match set {
        RowSet::Bare => {},
        RowSet::First => {
            list.push(row("futures", 0, 1, Some("futures"), DependencyKind::Normal));
            list.push(row("lazy_static", 0, 2, None, DependencyKind::Dev));
            list.push(row("quickcheck", 0, 4, Some("quickcheck"), DependencyKind::Normal));
            list.push(row("quickcheck", 0, 4, None, DependencyKind::Dev));
            list.push(row("tokio-core", 0, 1, None, DependencyKind::Dev));
            list.push(row("tokio-io", 0, 1, Some("tokio-io"), DependencyKind::Normal));
        },
        RowSet::Early => {
            list.push(row("futures", 0, 1, Some("futures"), DependencyKind::Normal));
            list.push(row("lazy_static", 0, 2, None, DependencyKind::Dev));
            list.push(row("quickcheck", 0, 4, None, DependencyKind::Dev));
            list.push(row("quickcheck", 0, 4, Some("quickcheck"), DependencyKind::Normal));
            list.push(row("tokio-core", 0, 1, None, DependencyKind::Dev));
            list.push(row("tokio-io", 0, 1, Some("tokio-io"), DependencyKind::Normal));
        },
        RowSet::Late => {
            list.push(row("futures", 0, 1, Some("futures"), DependencyKind::Normal));
            list.push(row("lazy_static", 1, 0, None, DependencyKind::Dev));
            list.push(row("quickcheck", 0, 6, None, DependencyKind::Dev));
            list.push(row("quickcheck", 0, 6, Some("quickcheck"), DependencyKind::Normal));
            list.push(row("tokio-core", 0, 1, None, DependencyKind::Dev));
            list.push(row("tokio-io", 0, 1, Some("tokio-io"), DependencyKind::Normal));
        },
    }
    assert(list@ =~= row_patches(set));
    list
}

/// The requirement `^major.minor`.
pub open spec fn caret_minor(major: u64, minor: u64) -> Seq<ComparatorView> {
    seq![
        ComparatorView {
            op: Op::Caret,
            major,
            minor: Some(minor),
            patch: None,
            pre: Seq::empty(),
        },
    ]
}

/// The features of a patched release: none for `git-version`; for
/// `partial-io` the feature `tokio`, which enables its features `tokio-io`
/// and `futures`.
pub open spec fn patched_features(
    set: RowSet,
    crate_id: CrateId,
    names: Seq<Seq<char>>,
) -> Seq<FeatureEnablesView> {
    if set == RowSet::Bare {
        Seq::empty()
    } else {
        seq![
            FeatureEnablesView {
                id: feature_of(names, "tokio"@),
                enables: seq![
                    CrateFeature { crate_id, feature_id: feature_of(names, "tokio-io"@) },
                    CrateFeature { crate_id, feature_id: feature_of(names, "futures"@) },
                ],
                weak_enables: Seq::empty(),
            },
        ]
    }
}

/// The release is what the patch `p` describes.
pub open spec fn is_patched_release(
    r: Release,
    p: ReleasePatch,
    crates: Seq<(CrateId, Seq<char>)>,
    names: Seq<Seq<char>>,
) -> bool {
    &&& id_of(crates, p.krate@) == Some(r.crate_id)
    &&& r.num@ == (VersionView {
        major: p.major,
        minor: p.minor,
        patch: p.patch,
        pre: Seq::empty(),
    })
    &&& r.created_at == (DateTime { secs: p.secs, nanos: 0 })
    &&& feature_views(r.features@) == patched_features(p.rows, r.crate_id, names)
}

/// The dependency row is what the patch `row` describes, for the release
/// `version_id`.
pub open spec fn is_patched_row(
    d: Dependency,
    row: RowPatch,
    version_id: VersionId,
    crates: Seq<(CrateId, Seq<char>)>,
    names: Seq<Seq<char>>,
) -> bool {
    &&& d.version_id == version_id
    &&& id_of(crates, row.target@) == Some(d.crate_id)
    &&& d.req@ == caret_minor(row.major, row.minor)
    &&& d.feature_id == match row.feature {
        Some(name) => feature_of(names, name@),
        None => FeatureId::krate(),
    }
    &&& d.default_features.0
    &&& d.features@.len() == 0
    &&& d.kind == row.kind
}

/// One of the first `p` releases has the identifier `x`.
pub open spec fn version_id_taken(rels: Seq<Release>, p: int, x: u32) -> bool {
    exists|k: int| 0 <= k < p && (#[trigger] rels[k]).id.0 == x
}

/// One of the first `p` rows has the identifier `x`.
pub open spec fn row_id_taken(deps: Seq<Dependency>, p: int, x: u32) -> bool {
    exists|k: int| 0 <= k < p && (#[trigger] deps[k]).id.0 == x
}

/// The release at `p` has the least identifier that no release before it
/// has.
pub open spec fn has_least_free_version(rels: Seq<Release>, p: int) -> bool {
    &&& !version_id_taken(rels, p, rels[p].id.0)
    &&& forall|x: u32| x < rels[p].id.0 ==> #[trigger] version_id_taken(rels, p, x)
}

/// The row at `p` has the least identifier that no row before it has.
pub open spec fn has_least_free_row(deps: Seq<Dependency>, p: int) -> bool {
    &&& !row_id_taken(deps, p, deps[p].id.0)
    &&& forall|x: u32| x < deps[p].id.0 ==> #[trigger] row_id_taken(deps, p, x)
}

/// The last `rows.len()` rows of `deps` are what `rows` describes, for the
/// release `version_id`.
pub open spec fn ends_with_rows(
    deps: Seq<Dependency>,
    rows: Seq<RowPatch>,
    version_id: VersionId,
    crates: Seq<(CrateId, Seq<char>)>,
    names: Seq<Seq<char>>,
) -> bool {
    &&& deps.len() >= rows.len()
    &&& forall|j: int|
        0 <= j < rows.len() ==> is_patched_row(
            #[trigger] deps[deps.len() - rows.len() + j],
            rows[j],
            version_id,
            crates,
            names,
        ) && has_least_free_row(deps, deps.len() - rows.len() + j)
}

/// `rels` and `deps` are what the first `n` patches make of `old_rels` and
/// `old_deps`: each patch adds its release at the end, after the rows of
/// that release.
pub open spec fn mended(
    old_rels: Seq<Release>,
    old_deps: Seq<Dependency>,
    rels: Seq<Release>,
    deps: Seq<Dependency>,
    crates: Seq<(CrateId, Seq<char>)>,
    names: Seq<Seq<char>>,
    n: nat,
) -> bool
    decreases n,
{
    if n == 0 {
        rels == old_rels && deps == old_deps
    } else if n > release_patches().len() {
        false
    } else {
        let p = release_patches()[n - 1];
        let rows = row_patches(p.rows);
        &&& rels.len() > 0
        &&& deps.len() >= rows.len()
        &&& mended(
            old_rels,
            old_deps,
            rels.drop_last(),
            deps.take(deps.len() - rows.len()),
            crates,
            names,
            (n - 1) as nat,
        )
        &&& is_patched_release(rels.last(), p, crates, names)
        &&& has_least_free_version(rels, rels.len() - 1)
        &&& ends_with_rows(deps, rows, rels.last().id, crates, names)
    }
}

/// The crates that the patches name.
pub open spec fn patch_crate_names() -> Seq<Seq<char>> {
    seq![
        "git-version"@,
        "partial-io"@,
        "futures"@,
        "lazy_static"@,
        "quickcheck"@,
        "tokio-core"@,
        "tokio-io"@,
    ]
}

/// What mending needs: the crates that the patches name are known, none of
/// the releases to put back is there, and identifiers are left for what is
/// added.
pub open spec fn mend_ready(db_dump: DbDump, crates: CrateMap) -> bool {
    &&& crates.wf()
    &&& db_dump.features.wf()
    &&& db_dump.features@.len() + 4 <= u32::MAX
    &&& db_dump.releases@.len() + 13 <= u32::MAX
    &&& db_dump.dependencies@.len() + 54 <= u32::MAX
    &&& forall|i: int|
        0 <= i < patch_crate_names().len() ==> id_of(crates@, #[trigger] patch_crate_names()[i]) is Some
    &&& forall|i: int, k: int|
        0 <= i < release_patches().len() && 0 <= k < db_dump.releases@.len() ==> !is_release_of(
            #[trigger] db_dump.releases@[k],
            #[trigger] release_patches()[i],
            crates@,
        )
}

/// The release is of the crate and version that the patch names.
pub open spec fn is_release_of(r: Release, p: ReleasePatch, crates: Seq<(CrateId, Seq<char>)>) -> bool {
    &&& id_of(crates, p.krate@) == Some(r.crate_id)
    &&& r.num@ == (VersionView {
        major: p.major,
        minor: p.minor,
        patch: p.patch,
        pre: Seq::empty(),
    })
}

/// A finite set that holds every number up to `c` has more than `c`
/// members.
proof fn lemma_full_below(s: Set<u32>, c: u32)
    requires
        s.finite(),
        forall|x: u32| x <= c ==> s.contains(x),
    ensures
        s.len() > c,
    decreases c,
{
    if c == 0 {
        assert(s.contains(0u32));
        assert(s.remove(0u32).len() >= 0);
    } else {
        let rest = s.remove(c);
        assert forall|x: u32| x <= (c - 1) as u32 implies rest.contains(x) by {}
        lemma_full_below(rest, (c - 1) as u32);
    }
}

/// Takes the least identifier that `used` does not hold, not looking below
/// `counter`, and enters it.
fn next_free(used: &mut HashSet<u32>, counter: &mut u32) -> (id: u32)
    requires
        old(used)@.finite(),
        old(used)@.len() < u32::MAX,
        forall|x: u32| x < *old(counter) ==> old(used)@.contains(x),
    ensures
        !old(used)@.contains(id),
        forall|x: u32| x < id ==> old(used)@.contains(x),
        final(used)@ == old(used)@.insert(id),
        *final(counter) == id,
{
    loop
        invariant
            used@ == old(used)@,
            used@.finite(),
            used@.len() < u32::MAX,
            forall|x: u32| x < *counter ==> used@.contains(x),
        decreases u32::MAX - *counter,
    {
        let candidate = *counter;
        if used.insert(candidate) {
            return candidate;
        }
        proof {
            assert(used@ =~= old(used)@);
            assert forall|x: u32| x <= candidate implies used@.contains(x) by {}
            lemma_full_below(used@, candidate);
        }
        *counter = candidate + 1;
    }
}

/// The identifiers of the releases.
fn used_version_ids(releases: &Vec<Release>) -> (used: HashSet<u32>)
    ensures
        used@.finite(),
        used@.len() <= releases@.len(),
        forall|x: u32|
            #![trigger used@.contains(x)]
            used@.contains(x) <==> version_id_taken(releases@, releases@.len() as int, x),
{
    let mut used: HashSet<u32> = HashSet::new();
    let n = releases.len();
    let mut i: usize = 0;
    while i < n
        invariant
            n == releases@.len(),
            i <= n,
            used@.finite(),
            used@.len() <= i,
            forall|x: u32|
                #![trigger used@.contains(x)]
                used@.contains(x) <==> version_id_taken(releases@, i as int, x),
        decreases n - i,
    {
        let ghost before = used@;
        used.insert(releases[i].id.0);
        proof {
            assert forall|x: u32|
                #![trigger used@.contains(x)]
                used@.contains(x) <==> version_id_taken(releases@, i as int + 1, x) by {
                if used@.contains(x) && !before.contains(x) {
                    assert(releases@[i as int].id.0 == x);
                }
                if version_id_taken(releases@, i as int + 1, x) {
                    let k = choose|k: int| 0 <= k < i + 1 && (#[trigger] releases@[k]).id.0 == x;
                    if k < i {
                        assert(version_id_taken(releases@, i as int, x));
                    }
                }
            }
        }
        i += 1;
    }
    used
}

/// The identifiers of the dependency rows.
fn used_row_ids(deps: &Vec<Dependency>) -> (used: HashSet<u32>)
    ensures
        used@.finite(),
        used@.len() <= deps@.len(),
        forall|x: u32|
            #![trigger used@.contains(x)]
            used@.contains(x) <==> row_id_taken(deps@, deps@.len() as int, x),
{
    let mut used: HashSet<u32> = HashSet::new();
    let n = deps.len();
    let mut i: usize = 0;
    while i < n
        invariant
            n == deps@.len(),
            i <= n,
            used@.finite(),
            used@.len() <= i,
            forall|x: u32|
                #![trigger used@.contains(x)]
                used@.contains(x) <==> row_id_taken(deps@, i as int, x),
        decreases n - i,
    {
        let ghost before = used@;
        used.insert(deps[i].id.0);
        proof {
            assert forall|x: u32|
                #![trigger used@.contains(x)]
                used@.contains(x) <==> row_id_taken(deps@, i as int + 1, x) by {
                if used@.contains(x) && !before.contains(x) {
                    assert(deps@[i as int].id.0 == x);
                }
                if row_id_taken(deps@, i as int + 1, x) {
                    let k = choose|k: int| 0 <= k < i + 1 && (#[trigger] deps@[k]).id.0 == x;
                    if k < i {
                        assert(row_id_taken(deps@, i as int, x));
                    }
                }
            }
        }
        i += 1;
    }
    used
}

/// The handle of a name that the table has.
fn known_feature(names: &FeatureNames, name: &str) -> (id: FeatureId)
    requires
        names.wf(),
        names@.contains(name@),
    ensures
        id == feature_of(names@, name@),
{
    match names.find(name) {
        Some(id) => {
            proof {
                let i = names@.index_of(name@);
                assert(names@[i] == name@);
                if i < id.0 {
                    assert(names@[i] != names@[id.0 as int]);
                } else if id.0 < i {
                    assert(names@[id.0 as int] != names@[i]);
                }
            }
            id
        },
        // The table has the name.
        None => FeatureId::krate(),
    }
}

/// The requirement `^major.minor`.
fn caret_minor_req(major: u64, minor: u64) -> (req: VersionReq)
    ensures
        req@ == caret_minor(major, minor),
{
    let mut comparators: Vec<Comparator> = Vec::new();
    comparators.push(
        Comparator { op: Op::Caret, major, minor: Some(minor), patch: None, pre: String::new() },
    );
    let req = VersionReq { comparators: Slice::from(comparators) };
    assert(req@ =~= caret_minor(major, minor));
    req
}

/// The features of a patched release.
fn build_features(set: RowSet, crate_id: CrateId, names: &FeatureNames) -> (features: Slice<
    FeatureEnables,
>)
    requires
        names.wf(),
        forall|i: int| 0 <= i < patch_feature_names().len() ==> names@.contains(
            #[trigger] patch_feature_names()[i],
        ),
    ensures
        feature_views(features@) == patched_features(set, crate_id, names@),
{
    let mut list: Vec<FeatureEnables> = Vec::new();
    match set {
        RowSet::Bare => {},
        _ => {
            proof {
                assert(patch_feature_names()[0] == "tokio"@);
                assert(patch_feature_names()[1] == "tokio-io"@);
                assert(patch_feature_names()[2] == "futures"@);
            }
            let mut enables: Vec<CrateFeature> = Vec::new();
            enables.push(CrateFeature { crate_id, feature_id: known_feature(names, "tokio-io") });
            enables.push(CrateFeature { crate_id, feature_id: known_feature(names, "futures") });
            let entry = FeatureEnables {
                id: known_feature(names, "tokio"),
                enables: Slice::from(enables),
                weak_enables: Slice::empty(),
            };
            proof {
                let wanted = patched_features(set, crate_id, names@);
                assert(entry@.enables =~= wanted[0].enables);
                assert(entry@.weak_enables =~= wanted[0].weak_enables);
                assert(entry@ == wanted[0]);
            }
            list.push(entry);
        },
    }
    let features = Slice::from(list);
    proof {
        assert(feature_views(features@) =~= patched_features(set, crate_id, names@));
    }
    features
}

/// Each release patch names one of the first two crates of
/// `patch_crate_names`.
proof fn lemma_patch_crates(i: int)
    requires
        0 <= i < release_patches().len(),
    ensures
        release_patches()[i].krate@ == patch_crate_names()[0] || release_patches()[i].krate@
            == patch_crate_names()[1],
        i < 4 ==> release_patches()[i].rows == RowSet::Bare,
{
    let all = release_patches();
    assert(all[0].rows == RowSet::Bare);
    assert(all[1].rows == RowSet::Bare);
    assert(all[2].rows == RowSet::Bare);
    assert(all[3].rows == RowSet::Bare);
    assert(all[0].krate@ == "git-version"@);
    assert(all[1].krate@ == "git-version"@);
    assert(all[2].krate@ == "git-version"@);
    assert(all[3].krate@ == "git-version"@);
    assert(all[4].krate@ == "partial-io"@);
    assert(all[5].krate@ == "partial-io"@);
    assert(all[6].krate@ == "partial-io"@);
    assert(all[7].krate@ == "partial-io"@);
    assert(all[8].krate@ == "partial-io"@);
    assert(all[9].krate@ == "partial-io"@);
    assert(all[10].krate@ == "partial-io"@);
    assert(all[11].krate@ == "partial-io"@);
    assert(all[12].krate@ == "partial-io"@);
}

/// Each row patch names one of `patch_crate_names`, and its feature, where
/// it has one, is one of `patch_feature_names`.
proof fn lemma_patch_rows(set: RowSet, j: int)
    requires
        0 <= j < row_patches(set).len(),
    ensures
        row_patches(set).len() == 6,
        exists|i: int|
            2 <= i < patch_crate_names().len() && #[trigger] patch_crate_names()[i] == row_patches(
                set,
            )[j].target@,
        match row_patches(set)[j].feature {
            Some(name) => exists|i: int|
                0 <= i < patch_feature_names().len() && #[trigger] patch_feature_names()[i]
                    == name@,
            None => true,
        },
{
    let rows = row_patches(set);
    let crates = patch_crate_names();
    let names = patch_feature_names();
    assert(crates[2] == "futures"@);
    assert(crates[3] == "lazy_static"@);
    assert(crates[4] == "quickcheck"@);
    assert(crates[5] == "tokio-core"@);
    assert(crates[6] == "tokio-io"@);
    assert(names[1] == "tokio-io"@);
    assert(names[2] == "futures"@);
    assert(names[3] == "quickcheck"@);
    assert(rows[0].target@ == "futures"@ && rows[0].feature == Some("futures"));
    assert(rows[1].target@ == "lazy_static"@ && rows[1].feature is None);
    assert(rows[2].target@ == "quickcheck"@);
    assert(rows[3].target@ == "quickcheck"@);
    assert(rows[2].feature == Some("quickcheck") || rows[2].feature is None);
    assert(rows[3].feature == Some("quickcheck") || rows[3].feature is None);
    assert(rows[4].target@ == "tokio-core"@ && rows[4].feature is None);
    assert(rows[5].target@ == "tokio-io"@ && rows[5].feature == Some("tokio-io"));
}

/// Enters the feature names of the patches in the table.
fn intern_patch_names(names: &mut FeatureNames)
    requires
        old(names).wf(),
        old(names)@.len() + 4 <= u32::MAX,
    ensures
        final(names).wf(),
        final(names)@ == interned(old(names)@, patch_feature_names()),
        forall|i: int|
            0 <= i < patch_feature_names().len() ==> final(names)@.contains(
                #[trigger] patch_feature_names()[i],
            ),
{
    let ghost all = patch_feature_names();
    let ghost n0 = names@;
    names.id("tokio");
    let ghost n1 = names@;
    names.id("tokio-io");
    let ghost n2 = names@;
    names.id("futures");
    let ghost n3 = names@;
    names.id("quickcheck");
    proof {
        let m1 = seq!["tokio"@];
        let m2 = seq!["tokio"@, "tokio-io"@];
        let m3 = seq!["tokio"@, "tokio-io"@, "futures"@];
        assert(m1.drop_last() =~= Seq::<Seq<char>>::empty());
        assert(m2.drop_last() =~= m1);
        assert(m3.drop_last() =~= m2);
        assert(all.drop_last() =~= m3);
        assert(interned(n0, Seq::<Seq<char>>::empty()) == n0);
        assert(interned(n0, m1) == n1);
        assert(interned(n0, m2) == n2);
        assert(interned(n0, m3) == n3);
        assert(interned(n0, all) == names@);
        assert(n1.contains("tokio"@));
        assert(n2.contains("tokio-io"@));
        assert(n3.contains("futures"@));
        assert(names@.contains("quickcheck"@));
        assert forall|x: Seq<char>| n1.contains(x) implies n2.contains(x) by {
            let i = choose|i: int| 0 <= i < n1.len() && n1[i] == x;
            assert(n2[i] == x);
        }
        assert forall|x: Seq<char>| n2.contains(x) implies n3.contains(x) by {
            let i = choose|i: int| 0 <= i < n2.len() && n2[i] == x;
            assert(n3[i] == x);
        }
        assert forall|x: Seq<char>| n3.contains(x) implies names@.contains(x) by {
            let i = choose|i: int| 0 <= i < n3.len() && n3[i] == x;
            assert(names@[i] == x);
        }
        assert(all[0] == "tokio"@ && all[1] == "tokio-io"@ && all[2] == "futures"@ && all[3]
            == "quickcheck"@);
    }
}

/// The identifier of a crate that the map has.
fn known_crate(crates: &CrateMap, name: &str) -> (id: CrateId)
    requires
        crates.wf(),
        id_of(crates@, name@) is Some,
    ensures
        id_of(crates@, name@) == Some(id),
{
    match crates.id(name) {
        Some(id) => id,
        // The map has the name.
        None => CrateId(0),
    }
}

/// What was taken among the first `p` rows stays taken when rows are added.
proof fn lemma_rows_taken_stable(before: Seq<Dependency>, after: Seq<Dependency>, p: int)
    requires
        0 <= p < before.len() <= after.len(),
        after.take(before.len() as int) == before,
        has_least_free_row(before, p),
    ensures
        has_least_free_row(after, p),
{
    assert forall|k: int| 0 <= k < before.len() implies before[k] == after[k] by {
        assert(after.take(before.len() as int)[k] == after[k]);
    }
    assert forall|x: u32| row_id_taken(before, p, x) == row_id_taken(after, p, x) by {
        if row_id_taken(before, p, x) {
            let k = choose|k: int| 0 <= k < p && (#[trigger] before[k]).id.0 == x;
            assert(after[k].id.0 == x);
        }
        if row_id_taken(after, p, x) {
            let k = choose|k: int| 0 <= k < p && (#[trigger] after[k]).id.0 == x;
            assert(before[k].id.0 == x);
        }
    }
    assert forall|x: u32| x < after[p].id.0 implies #[trigger] row_id_taken(after, p, x) by {
        assert(row_id_taken(before, p, x));
    }
}

/// Adds the dependency rows of a patched release.
fn add_patch_rows(
    dependencies: &mut Vec<Dependency>,
    used: &mut HashSet<u32>,
    counter: &mut u32,
    set: RowSet,
    version_id: VersionId,
    crates: &CrateMap,
    names: &FeatureNames,
)
    requires
        crates.wf(),
        names.wf(),
        forall|i: int|
            0 <= i < patch_crate_names().len() ==> id_of(crates@, #[trigger] patch_crate_names()[i]) is Some,
        forall|i: int| 0 <= i < patch_feature_names().len() ==> names@.contains(
            #[trigger] patch_feature_names()[i],
        ),
        old(used)@.finite(),
        old(used)@.len() <= old(dependencies)@.len(),
        old(dependencies)@.len() + 6 <= u32::MAX,
        forall|x: u32|
            #![trigger old(used)@.contains(x)]
            old(used)@.contains(x) <==> row_id_taken(
                old(dependencies)@,
                old(dependencies)@.len() as int,
                x,
            ),
        forall|x: u32| x < *old(counter) ==> old(used)@.contains(x),
    ensures
        final(dependencies)@.len() == old(dependencies)@.len() + row_patches(set).len(),
        final(dependencies)@.take(old(dependencies)@.len() as int) == old(dependencies)@,
        ends_with_rows(final(dependencies)@, row_patches(set), version_id, crates@, names@),
        final(used)@.finite(),
        final(used)@.len() <= final(dependencies)@.len(),
        forall|x: u32|
            #![trigger final(used)@.contains(x)]
            final(used)@.contains(x) <==> row_id_taken(
                final(dependencies)@,
                final(dependencies)@.len() as int,
                x,
            ),
        forall|x: u32| x < *final(counter) ==> final(used)@.contains(x),
{
    let rows = row_patch_list(set);
    let ghost base = dependencies@.len() as int;
    let m = rows.len();
    let mut j: usize = 0;
    proof {
        if m > 0 {
            lemma_patch_rows(set, 0);
        }
        assert(dependencies@.take(base) =~= old(dependencies)@);
    }
    while j < m
        invariant
            m == rows@.len(),
            rows@ == row_patches(set),
            m <= 6,
            j <= m,
            base == old(dependencies)@.len(),
            crates.wf(),
            names.wf(),
            forall|i: int|
                0 <= i < patch_crate_names().len() ==> id_of(
                    crates@,
                    #[trigger] patch_crate_names()[i],
                ) is Some,
            forall|i: int| 0 <= i < patch_feature_names().len() ==> names@.contains(
                #[trigger] patch_feature_names()[i],
            ),
            dependencies@.len() == base + j,
            base + 6 <= u32::MAX,
            dependencies@.take(base) == old(dependencies)@,
            forall|i: int|
                0 <= i < j ==> is_patched_row(
                    #[trigger] dependencies@[base + i],
                    rows@[i],
                    version_id,
                    crates@,
                    names@,
                ) && has_least_free_row(dependencies@, base + i),
            used@.finite(),
            used@.len() <= dependencies@.len(),
            forall|x: u32|
                #![trigger used@.contains(x)]
                used@.contains(x) <==> row_id_taken(dependencies@, dependencies@.len() as int, x),
            forall|x: u32| x < *counter ==> used@.contains(x),
        decreases m - j,
    {
        let row = rows[j];
        proof {
            lemma_patch_rows(set, j as int);
        }
        let crate_id = known_crate(crates, row.target);
        let feature_id = match row.feature {
            Some(name) => known_feature(names, name),
            None => FeatureId::krate(),
        };
        let ghost used_before = used@;
        let ghost deps_before = dependencies@;
        let id = next_free(used, counter);
        let dep = Dependency {
            id: DependencyId(id),
            version_id,
            crate_id,
            req: caret_minor_req(row.major, row.minor),
            feature_id,
            default_features: DefaultFeatures(true),
            features: Slice::empty(),
            kind: row.kind,
        };
        dependencies.push(dep);
        proof {
            let now = dependencies@;
            assert(now.take(deps_before.len() as int) =~= deps_before);
            assert(now.take(base) =~= old(dependencies)@);
            assert(!row_id_taken(now, base + j, id)) by {
                if row_id_taken(now, base + j, id) {
                    let k = choose|k: int| 0 <= k < base + j && (#[trigger] now[k]).id.0 == id;
                    assert(deps_before[k].id.0 == id);
                    assert(row_id_taken(deps_before, deps_before.len() as int, id));
                }
            }
            assert forall|x: u32| x < id implies #[trigger] row_id_taken(now, base + j, x) by {
                assert(used_before.contains(x));
                let k = choose|k: int|
                    0 <= k < deps_before.len() && (#[trigger] deps_before[k]).id.0 == x;
                assert(now[k].id.0 == x);
            }
            assert forall|i: int| 0 <= i < j + 1 implies is_patched_row(
                #[trigger] now[base + i],
                rows@[i],
                version_id,
                crates@,
                names@,
            ) && has_least_free_row(now, base + i) by {
                if i < j {
                    assert(now[base + i] == deps_before[base + i]);
                    lemma_rows_taken_stable(deps_before, now, base + i);
                }
            }
            assert forall|x: u32|
                #![trigger used@.contains(x)]
                used@.contains(x) <==> row_id_taken(now, now.len() as int, x) by {
                if used_before.contains(x) {
                    let k = choose|k: int|
                        0 <= k < deps_before.len() && (#[trigger] deps_before[k]).id.0 == x;
                    assert(now[k].id.0 == x);
                }
                if x == id {
                    assert(now[base + j].id.0 == x);
                }
                if row_id_taken(now, now.len() as int, x) {
                    let k = choose|k: int| 0 <= k < now.len() && (#[trigger] now[k]).id.0 == x;
                    if k < base + j {
                        assert(deps_before[k].id.0 == x);
                        assert(row_id_taken(deps_before, deps_before.len() as int, x));
                    }
                }
            }
        }
        j += 1;
    }
}

/// Puts back the releases of crates that were deleted from the registry
/// while many crates still depend on them: the releases of
/// `release_patches`, each with the dependency rows of `row_patches`.
/// Every release and row gets the least identifier that is free.
pub fn mend(db_dump: &mut DbDump, crates: &CrateMap)
    requires
        mend_ready(*old(db_dump), *crates),
    ensures
        final(db_dump).features.wf(),
        final(db_dump).features@ == interned(old(db_dump).features@, patch_feature_names()),
        mended(
            old(db_dump).releases@,
            old(db_dump).dependencies@,
            final(db_dump).releases@,
            final(db_dump).dependencies@,
            crates@,
            final(db_dump).features@,
            release_patches().len(),
        ),
{
    intern_patch_names(&mut db_dump.features);
    let mut versions = used_version_ids(&db_dump.releases);
    let mut version_counter: u32 = 0;
    let mut rows_used = used_row_ids(&db_dump.dependencies);
    let mut row_counter: u32 = 0;
    let patches = release_patch_list();
    let ghost names = db_dump.features@;
    let ghost old_rels = old(db_dump).releases@;
    let ghost old_deps = old(db_dump).dependencies@;
    let n = patches.len();
    let mut i: usize = 0;
    while i < n
        invariant
            n == 13,
            i <= n,
            patches@ == release_patches(),
            crates.wf(),
            db_dump.features.wf(),
            db_dump.features@ == names,
            forall|k: int|
                0 <= k < patch_crate_names().len() ==> id_of(
                    crates@,
                    #[trigger] patch_crate_names()[k],
                ) is Some,
            forall|k: int| 0 <= k < patch_feature_names().len() ==> names.contains(
                #[trigger] patch_feature_names()[k],
            ),
            db_dump.releases@.len() == old_rels.len() + i,
            old_rels.len() + 13 <= u32::MAX,
            db_dump.dependencies@.len() <= old_deps.len() + if i <= 4 {
                0
            } else {
                6 * (i - 4)
            },
            old_deps.len() + 54 <= u32::MAX,
            mended(
                old_rels,
                old_deps,
                db_dump.releases@,
                db_dump.dependencies@,
                crates@,
                names,
                i as nat,
            ),
            versions@.finite(),
            versions@.len() <= db_dump.releases@.len(),
            forall|x: u32|
                #![trigger versions@.contains(x)]
                versions@.contains(x) <==> version_id_taken(
                    db_dump.releases@,
                    db_dump.releases@.len() as int,
                    x,
                ),
            forall|x: u32| x < version_counter ==> versions@.contains(x),
            rows_used@.finite(),
            rows_used@.len() <= db_dump.dependencies@.len(),
            forall|x: u32|
                #![trigger rows_used@.contains(x)]
                rows_used@.contains(x) <==> row_id_taken(
                    db_dump.dependencies@,
                    db_dump.dependencies@.len() as int,
                    x,
                ),
            forall|x: u32| x < row_counter ==> rows_used@.contains(x),
        decreases n - i,
    {
        let p = patches[i];
        proof {
            lemma_patch_crates(i as int);
        }
        let crate_id = known_crate(crates, p.krate);
        let ghost rels_before = db_dump.releases@;
        let ghost deps_before = db_dump.dependencies@;
        let ghost versions_before = versions@;
        let id = VersionId(next_free(&mut versions, &mut version_counter));
        let features = build_features(p.rows, crate_id, &db_dump.features);
        add_patch_rows(
            &mut db_dump.dependencies,
            &mut rows_used,
            &mut row_counter,
            p.rows,
            id,
            crates,
            &db_dump.features,
        );
        db_dump.releases.push(
            Release {
                id,
                crate_id,
                num: Version::new(p.major, p.minor, p.patch),
                created_at: DateTime::from_timestamp(p.secs, 0),
                features,
            },
        );
        proof {
            let rels = db_dump.releases@;
            let deps = db_dump.dependencies@;
            let rows = row_patches(p.rows);
            let last = rels.len() - 1;
            if rows.len() > 0 {
                lemma_patch_rows(p.rows, 0);
            }
            assert(rels.drop_last() =~= rels_before);
            assert(deps.take(deps.len() - rows.len()) =~= deps_before);
            assert(!version_id_taken(rels, last, id.0)) by {
                if version_id_taken(rels, last, id.0) {
                    let k = choose|k: int| 0 <= k < last && (#[trigger] rels[k]).id.0 == id.0;
                    assert(rels_before[k].id.0 == id.0);
                    assert(version_id_taken(rels_before, rels_before.len() as int, id.0));
                }
            }
            assert forall|x: u32| x < id.0 implies #[trigger] version_id_taken(rels, last, x) by {
                assert(versions_before.contains(x));
                let k = choose|k: int|
                    0 <= k < rels_before.len() && (#[trigger] rels_before[k]).id.0 == x;
                assert(rels[k].id.0 == x);
            }
            assert(is_patched_release(rels.last(), p, crates@, names));
            assert forall|x: u32|
                #![trigger versions@.contains(x)]
                versions@.contains(x) <==> version_id_taken(rels, rels.len() as int, x) by {
                if versions_before.contains(x) {
                    let k = choose|k: int|
                        0 <= k < rels_before.len() && (#[trigger] rels_before[k]).id.0 == x;
                    assert(rels[k].id.0 == x);
                }
                if x == id.0 {
                    assert(rels[last].id.0 == x);
                }
                if version_id_taken(rels, rels.len() as int, x) {
                    let k = choose|k: int| 0 <= k < rels.len() && (#[trigger] rels[k]).id.0 == x;
                    if k < last {
                        assert(rels_before[k].id.0 == x);
                        assert(version_id_taken(rels_before, rels_before.len() as int, x));
                    }
                }
            }
        }
        i += 1;
    }
}

/// The list of `patch_crate_names`.
fn patch_crate_name_list() -> (list: Vec<&'static str>)
    ensures
        list@.len() == patch_crate_names().len(),
        forall|i: int| 0 <= i < list@.len() ==> (#[trigger] list@[i])@ == patch_crate_names()[i],
{
    let mut list: Vec<&'static str> = Vec::new();
    list.push("git-version");
    list.push("partial-io");
    list.push("futures");
    list.push("lazy_static");
    list.push("quickcheck");
    list.push("tokio-core");
    list.push("tokio-io");
    list
}

/// Whether the release is of the crate and version that the patch names.
fn release_is_of(r: &Release, p: &ReleasePatch, crates: &CrateMap) -> (b: bool)
    requires
        crates.wf(),
    ensures
        b == is_release_of(*r, *p, crates@),
{
    proof {
        if r.num.is_stable() {
            assert(r.num@.pre =~= Seq::<char>::empty());
        }
    }
    match crates.id(p.krate) {
        Some(id) => id.0 == r.crate_id.0 && r.num.major == p.major && r.num.minor == p.minor
            && r.num.patch == p.patch && r.num.is_stable(),
        None => false,
    }
}

/// Whether the dump and the crates are such that `mend` can be called.
pub fn can_mend(db_dump: &DbDump, crates: &CrateMap) -> (b: bool)
    requires
        crates.wf(),
        db_dump.features.wf(),
    ensures
        b == mend_ready(*db_dump, *crates),
{
    let limit: usize = 0xffff_ffff;
    if db_dump.features.len() > limit - 4 || db_dump.releases.len() > limit - 13
        || db_dump.dependencies.len() > limit - 54 {
        return false;
    }
    let names = patch_crate_name_list();
    let mut i: usize = 0;
    while i < names.len()
        invariant
            i <= names@.len(),
            crates.wf(),
            names@.len() == patch_crate_names().len(),
            forall|k: int| 0 <= k < names@.len() ==> (#[trigger] names@[k])@ == patch_crate_names()[k],
            forall|k: int| 0 <= k < i ==> id_of(crates@, #[trigger] patch_crate_names()[k]) is Some,
        decreases names@.len() - i,
    {
        assert(names@[i as int]@ == patch_crate_names()[i as int]);
        if crates.id(names[i]).is_none() {
            return false;
        }
        i += 1;
    }
    let patches = release_patch_list();
    let mut p: usize = 0;
    while p < patches.len()
        invariant
            p <= patches@.len(),
            crates.wf(),
            patches@ == release_patches(),
            forall|i: int, k: int|
                0 <= i < p && 0 <= k < db_dump.releases@.len() ==> !is_release_of(
                    #[trigger] db_dump.releases@[k],
                    #[trigger] release_patches()[i],
                    crates@,
                ),
        decreases patches@.len() - p,
    {
        let mut k: usize = 0;
        while k < db_dump.releases.len()
            invariant
                k <= db_dump.releases@.len(),
                p < patches@.len(),
                crates.wf(),
                patches@ == release_patches(),
                forall|j: int|
                    0 <= j < k ==> !is_release_of(
                        #[trigger] db_dump.releases@[j],
                        release_patches()[p as int],
                        crates@,
                    ),
            decreases db_dump.releases@.len() - k,
        {
            if release_is_of(&db_dump.releases[k], &patches[p], crates) {
                return false;
            }
            k += 1;
        }
        p += 1;
    }
    true
}

} // verus!
