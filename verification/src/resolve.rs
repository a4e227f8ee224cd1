//! The resolver: which release a requirement on a crate stands for.

use crate::id::{CrateId, VersionId};
use crate::version::{
    pre_below, pre_lt, spec_matches, ComparatorView, Version, VersionReq, VersionView,
};
use crate::Release;
use vstd::prelude::*;

verus! {

/// The three numbers of `a` come before those of `b`, leftmost first.
pub open spec fn numbers_lt(a: VersionView, b: VersionView) -> bool {
    a.major < b.major || (a.major == b.major && (a.minor < b.minor || (a.minor == b.minor
        && a.patch < b.patch)))
}

/// The two versions have the same three numbers.
pub open spec fn numbers_eq(a: VersionView, b: VersionView) -> bool {
    a.major == b.major && a.minor == b.minor && a.patch == b.patch
}

/// `a` is a lower version than `b`: by its three numbers or, where these
/// agree and the pre-release tags differ, by the precedence of its tag.
pub open spec fn version_lt(a: VersionView, b: VersionView) -> bool {
    numbers_lt(a, b) || (numbers_eq(a, b) && a.pre != b.pre && pre_below(a.pre, b.pre))
}

/// `a` is the lower version of the two.
pub fn version_less(a: &Version, b: &Version) -> (r: bool)
    ensures
        r == version_lt(a@, b@),
{
    if a.major != b.major {
        return a.major < b.major;
    }
    if a.minor != b.minor {
        return a.minor < b.minor;
    }
    if a.patch != b.patch {
        return a.patch < b.patch;
    }
    if a.pre == b.pre {
        return false;
    }
    pre_lt(&a.pre, &b.pre)
}

/// No release carries a pre-release tag.
pub open spec fn all_stable(rels: Seq<Release>) -> bool {
    forall|i: int| 0 <= i < rels.len() ==> (#[trigger] rels[i]).num.is_stable()
}

/// The release is one of `crate_id` that `req` accepts.
pub open spec fn satisfies(r: Release, crate_id: CrateId, req: Seq<ComparatorView>) -> bool {
    r.crate_id == crate_id && spec_matches(req, r.num@)
}

/// `a` is to be preferred to `b`, or as good: it has the higher version or,
/// with the same version, an identifier that is not smaller.
pub open spec fn outranks(a: Release, b: Release) -> bool {
    version_lt(b.num@, a.num@) || (b.num@ == a.num@ && b.id.0 <= a.id.0)
}

/// The release at `k` is the one that a requirement on `crate_id` resolves
/// to: it satisfies the requirement, and no release that does outranks it.
pub open spec fn resolves_at(
    rels: Seq<Release>,
    crate_id: CrateId,
    req: Seq<ComparatorView>,
    k: int,
) -> bool {
    &&& 0 <= k < rels.len()
    &&& satisfies(rels[k], crate_id, req)
    &&& forall|j: int|
        0 <= j < rels.len() && satisfies(#[trigger] rels[j], crate_id, req) ==> outranks(
            rels[k],
            rels[j],
        )
}

/// No release satisfies the requirement.
pub open spec fn unresolved(rels: Seq<Release>, crate_id: CrateId, req: Seq<ComparatorView>) -> bool {
    forall|j: int| 0 <= j < rels.len() ==> !satisfies(#[trigger] rels[j], crate_id, req)
}

/// Among stable releases, ranking is transitive.
pub proof fn lemma_outranks_transitive(a: Release, b: Release, c: Release)
    requires
        a.num.is_stable(),
        b.num.is_stable(),
        c.num.is_stable(),
        outranks(a, b),
        outranks(b, c),
    ensures
        outranks(a, c),
{
    assert(a.num@.pre =~= b.num@.pre);
    assert(b.num@.pre =~= c.num@.pre);
}

/// Among stable releases, any two are ranked, and two that outrank each other
/// have the same version and identifier.
pub proof fn lemma_outranks_total(a: Release, b: Release)
    requires
        a.num.is_stable(),
        b.num.is_stable(),
    ensures
        outranks(a, b) || outranks(b, a),
        outranks(a, b) && outranks(b, a) ==> a.num@ == b.num@ && a.id == b.id,
{
    assert(a.num@.pre =~= b.num@.pre);
}

/// The place of the release that a requirement resolves to among the first
/// `n` releases, `None` if none of them satisfies it.
pub fn resolve_index(
    releases: &Vec<Release>,
    n: usize,
    crate_id: CrateId,
    req: &VersionReq,
) -> (found: Option<usize>)
    requires
        n <= releases@.len(),
        all_stable(releases@.take(n as int)),
    ensures
        match found {
            Some(k) => resolves_at(releases@.take(n as int), crate_id, req@, k as int),
            None => unresolved(releases@.take(n as int), crate_id, req@),
        },
{
    let ghost rels = releases@.take(n as int);
    let mut best: Option<usize> = None;
    let mut i: usize = 0;
    while i < n
        invariant
            i <= n <= releases@.len(),
            rels == releases@.take(n as int),
            all_stable(rels),
            match best {
                Some(k) => {
                    &&& k < i
                    &&& satisfies(rels[k as int], crate_id, req@)
                    &&& forall|j: int|
                        0 <= j < i && satisfies(#[trigger] rels[j], crate_id, req@) ==> outranks(
                            rels[k as int],
                            rels[j],
                        )
                },
                None => forall|j: int| 0 <= j < i ==> !satisfies(#[trigger] rels[j], crate_id, req@),
            },
        decreases n - i,
    {
        let r = &releases[i];
        assert(*r == rels[i as int]);
        if r.crate_id == crate_id && req.matches(&r.num) {
            match best {
                None => {
                    proof {
                        lemma_outranks_total(rels[i as int], rels[i as int]);
                    }
                    best = Some(i);
                },
                Some(k) => {
                    let b = &releases[k];
                    assert(*b == rels[k as int]);
                    let better = version_less(&b.num, &r.num) || (same_numbers(&b.num, &r.num)
                        && b.id.0 <= r.id.0);
                    proof {
                        assert(b.num@.pre =~= r.num@.pre);
                        assert(better == outranks(*r, *b));
                        lemma_outranks_total(*r, *b);
                    }
                    if better {
                        proof {
                            assert forall|j: int|
                                0 <= j < i + 1 && satisfies(
                                    #[trigger] rels[j],
                                    crate_id,
                                    req@,
                                ) implies outranks(rels[i as int], rels[j]) by {
                                if j < i {
                                    lemma_outranks_transitive(
                                        rels[i as int],
                                        rels[k as int],
                                        rels[j],
                                    );
                                } else {
                                    lemma_outranks_total(rels[i as int], rels[i as int]);
                                }
                            }
                        }
                        best = Some(i);
                    }
                },
            }
        }
        i += 1;
    }
    best
}

/// The two versions have the same three numbers.
pub fn same_numbers(a: &Version, b: &Version) -> (r: bool)
    ensures
        r == numbers_eq(a@, b@),
{
    a.major == b.major && a.minor == b.minor && a.patch == b.patch
}

/// The release that a requirement on `crate_id` resolves to: the one with the
/// highest version among those that satisfy it.
pub fn resolve(releases: &Vec<Release>, crate_id: CrateId, req: &VersionReq) -> (found: Option<
    VersionId,
>)
    requires
        all_stable(releases@),
    ensures
        match found {
            Some(id) => exists|k: int|
                resolves_at(releases@, crate_id, req@, k) && (#[trigger] releases@[k]).id == id,
            None => unresolved(releases@, crate_id, req@),
        },
{
    assert(releases@.take(releases@.len() as int) == releases@);
    match resolve_index(releases, releases.len(), crate_id, req) {
        Some(k) => Some(releases[k].id),
        None => None,
    }
}

/// Whatever the order in which the releases stand, a requirement resolves to
/// the same version: two lists that hold the same stable releases agree on
/// the version and the identifier of the release chosen.
pub proof fn law_resolution_ignores_order(
    first: Seq<Release>,
    second: Seq<Release>,
    crate_id: CrateId,
    req: Seq<ComparatorView>,
    k1: int,
    k2: int,
)
    requires
        all_stable(first),
        all_stable(second),
        forall|i: int| 0 <= i < first.len() ==> second.contains(#[trigger] first[i]),
        forall|i: int| 0 <= i < second.len() ==> first.contains(#[trigger] second[i]),
        resolves_at(first, crate_id, req, k1),
        resolves_at(second, crate_id, req, k2),
    ensures
        first[k1].num@ == second[k2].num@,
        first[k1].id == second[k2].id,
{
    assert(second.contains(first[k1]));
    let j2 = choose|j: int| 0 <= j < second.len() && second[j] == first[k1];
    assert(satisfies(second[j2], crate_id, req));
    assert(outranks(second[k2], second[j2]));
    assert(first.contains(second[k2]));
    let j1 = choose|j: int| 0 <= j < first.len() && first[j] == second[k2];
    assert(satisfies(first[j1], crate_id, req));
    assert(outranks(first[k1], first[j1]));
    lemma_outranks_total(first[k1], second[k2]);
}

/// The release chosen has the largest version among those that satisfy the
/// requirement.
pub proof fn law_resolution_is_maximal(
    rels: Seq<Release>,
    crate_id: CrateId,
    req: Seq<ComparatorView>,
    k: int,
    j: int,
)
    requires
        all_stable(rels),
        resolves_at(rels, crate_id, req, k),
        0 <= j < rels.len(),
        satisfies(rels[j], crate_id, req),
    ensures
        !version_lt(rels[k].num@, rels[j].num@),
{
    assert(outranks(rels[k], rels[j]));
    assert(rels[k].num@.pre =~= rels[j].num@.pre);
}

/// Two releases that a requirement resolves to at once have the same
/// version and identifier.
pub proof fn lemma_resolution_unique(
    rels: Seq<Release>,
    crate_id: CrateId,
    req: Seq<ComparatorView>,
    k1: int,
    k2: int,
)
    requires
        all_stable(rels),
        resolves_at(rels, crate_id, req, k1),
        resolves_at(rels, crate_id, req, k2),
    ensures
        rels[k1].num@ == rels[k2].num@,
        rels[k1].id == rels[k2].id,
        rels[k1].crate_id == rels[k2].crate_id,
{
    assert(outranks(rels[k1], rels[k2]));
    assert(outranks(rels[k2], rels[k1]));
    lemma_outranks_total(rels[k1], rels[k2]);
}

} // verus!
