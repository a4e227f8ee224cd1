//! The loader, which takes the rows of a dump one by one and makes the
//! releases and dependency rows of them.

use crate::arena::Slice;
use crate::cratemap::{
    id_is_free,
    id_of,
    name_is_free,
    name_of,
    CrateMap,
    OwnerEntry,
    OwnerId,
    UserEntry,
};
use crate::dependency::DependencyKind;
use crate::feature::{
    feature_of, feature_views, interned, CrateFeature, DefaultFeatures, FeatureEnables,
    FeatureEnablesView, FeatureId, FeatureNames,
};
use crate::id::{CrateId, DependencyId, VersionId};
use crate::text::{first_index, same_text, split_once};
use crate::timestamp::DateTime;
use crate::user::User;
use crate::version::{Version, VersionReq};
use crate::{DbDump, Dependency, Release};
use vstd::prelude::*;

verus! {

/// A feature as a row of versions declares it: its name and what it
/// enables, each as `feature`, `dependency/feature` or
/// `dependency?/feature`.
pub struct FeatureRow {
    pub name: String,
    pub enables: Vec<String>,
}

/// A row of the table of versions, as far as the tally reads it.
pub struct VersionRow {
    pub id: VersionId,
    pub crate_id: CrateId,
    pub num: Version,
    pub created_at: DateTime,
    pub yanked: bool,
    pub features: Vec<FeatureRow>,
}

/// A row of the table of dependencies, as far as the tally reads it.
pub struct DependencyRow {
    pub id: DependencyId,
    pub version_id: VersionId,
    pub crate_id: CrateId,
    pub req: VersionReq,
    pub optional: bool,
    pub default_features: bool,
    pub features: Vec<String>,
    pub kind: DependencyKind,
    pub explicit_name: Option<String>,
}

/// A feature that a feature enables, as read from a row: of the release's
/// own crate, or of the dependency that goes by the name with the handle
/// `krate`.
#[derive(Copy, Clone, PartialEq, Eq, Structural, Debug)]
pub struct PendingEnable {
    pub krate: Option<FeatureId>,
    pub weak: bool,
    pub feature: FeatureId,
}

/// A feature of a release whose enabled features wait to be resolved.
pub struct PendingFeature {
    pub id: FeatureId,
    pub enables: Vec<PendingEnable>,
}

/// In the release `version_id`, the dependency on `crate_id` goes by the
/// name with the handle `name`.
#[derive(Copy, Clone, PartialEq, Eq, Structural, Debug)]
pub struct Rename {
    pub version_id: VersionId,
    pub name: FeatureId,
    pub crate_id: CrateId,
}

/// The name that a dependency row gives its dependency.
pub struct ExplicitName {
    pub id: DependencyId,
    pub name: String,
}

/// What a feature enables, as a manifest names it: a feature of the crate
/// itself, or a feature of one of its dependencies.
#[derive(Debug)]
pub enum Feature {
    Current(String),
    Dependency(String, String),
}

/// What a `Feature` is, as a value.
pub enum FeatureView {
    Current(Seq<char>),
    Dependency(Seq<char>, Seq<char>),
}

impl View for Feature {
    type V = FeatureView;

    open spec fn view(&self) -> FeatureView {
        match self {
            Feature::Current(feature) => FeatureView::Current(feature@),
            Feature::Dependency(dependency, feature) => FeatureView::Dependency(
                dependency@,
                feature@,
            ),
        }
    }
}

/// What the text names: with a `/` the feature after it of the dependency
/// before it, else a feature of the crate itself.
pub open spec fn feature_named(text: Seq<char>) -> FeatureView {
    let slash = first_index(text, '/') as int;
    if slash < text.len() {
        FeatureView::Dependency(text.take(slash), text.skip(slash + 1))
    } else {
        FeatureView::Current(text)
    }
}

/// The text that names the feature.
pub open spec fn feature_text(feature: FeatureView) -> Seq<char> {
    match feature {
        FeatureView::Current(feature) => feature,
        FeatureView::Dependency(dependency, feature) => dependency + "/"@ + feature,
    }
}

impl Feature {
    /// Reads a feature from the text that names it.
    pub fn parse(text: &str) -> (feature: Feature)
        ensures
            feature@ == feature_named(text@),
    {
        match split_once(text, '/') {
            Some((dependency, feature)) => Feature::Dependency(
                dependency.to_owned(),
                feature.to_owned(),
            ),
            None => Feature::Current(text.to_owned()),
        }
    }

    /// The text that names the feature.
    pub fn to_string(&self) -> (text: String)
        ensures
            text@ == feature_text(self@),
    {
        match self {
            Feature::Current(feature) => feature.clone(),
            Feature::Dependency(dependency, feature) => {
                let mut text = dependency.clone();
                text.append("/");
                text.append(feature.as_str());
                text
            },
        }
    }
}

/// The name of the dependency that an enabled feature belongs to: what
/// stands before `/`, without a `?` at its end. `None` for a feature of the
/// crate itself.
pub open spec fn enable_target(text: Seq<char>) -> Option<Seq<char>> {
    let slash = first_index(text, '/') as int;
    if slash < text.len() {
        let head = text.take(slash);
        if head.len() > 0 && head.last() == '?' {
            Some(head.drop_last())
        } else {
            Some(head)
        }
    } else {
        None
    }
}

/// The dependency's name is followed by `?`: the feature is enabled only
/// where the dependency is.
pub open spec fn enable_weak(text: Seq<char>) -> bool {
    let slash = first_index(text, '/') as int;
    slash < text.len() && slash > 0 && text[slash - 1] == '?'
}

/// The feature that is enabled: what stands after `/`, or the whole.
pub open spec fn enable_feature(text: Seq<char>) -> Seq<char> {
    let slash = first_index(text, '/') as int;
    if slash < text.len() {
        text.skip(slash + 1)
    } else {
        text
    }
}

/// Takes an enabled feature apart: the dependency's name if there is one,
/// whether it is followed by `?`, and the feature.
pub fn parse_enable(text: &str) -> (parts: (Option<&str>, bool, &str))
    ensures
        match parts.0 {
            Some(target) => enable_target(text@) == Some(target@),
            None => enable_target(text@) is None,
        },
        parts.1 == enable_weak(text@),
        parts.2@ == enable_feature(text@),
{
    match split_once(text, '/') {
        Some((head, tail)) => {
            let n = head.unicode_len();
            if n > 0 && head.get_char(n - 1) == '?' {
                let target = head.substring_char(0, n - 1);
                proof {
                    assert(target@ =~= head@.drop_last());
                    assert(head@.last() == text@[first_index(text@, '/') as int - 1]);
                }
                (Some(target), true, tail)
            } else {
                proof {
                    if n > 0 {
                        assert(head@.last() == text@[first_index(text@, '/') as int - 1]);
                    }
                }
                (Some(head), false, tail)
            }
        },
        None => (None, false, text),
    }
}

/// The text with each `:` turned into `/`.
pub open spec fn with_slashes(text: Seq<char>) -> Seq<char> {
    Seq::new(text.len(), |i: int| if text[i] == ':' { '/' } else { text[i] })
}

/// The text with each `:` turned into `/`.
fn colons_to_slashes(text: &str) -> (r: String)
    ensures
        r@ == with_slashes(text@),
{
    proof {
        reveal_strlit("/");
    }
    let n = text.unicode_len();
    let mut out = String::new();
    let mut i: usize = 0;
    while i < n
        invariant
            n == text@.len(),
            i <= n,
            "/"@ == seq!['/'],
            out@ == with_slashes(text@).take(i as int),
        decreases n - i,
    {
        if text.get_char(i) == ':' {
            out.append("/");
        } else {
            out.append(text.substring_char(i, i + 1));
        }
        proof {
            assert(text@.subrange(i as int, i as int + 1) =~= seq![text@[i as int]]);
            assert(out@ =~= with_slashes(text@).take(i as int + 1));
        }
        i += 1;
    }
    proof {
        assert(with_slashes(text@).take(n as int) =~= with_slashes(text@));
    }
    out
}

/// The name under which a team of the code host is asked for:
/// `organisation/team` for the login `github:organisation:team`. `None` for
/// a login of another form.
pub open spec fn team_name(login: Seq<char>) -> Option<Seq<char>> {
    let prefix = "github:"@;
    if login.len() >= prefix.len() && login.take(prefix.len() as int) == prefix && login.skip(
        prefix.len() as int,
    ).contains(':') {
        Some(with_slashes(login.skip(prefix.len() as int)))
    } else {
        None
    }
}

/// The name under which the team with the login `login` is asked for.
pub fn team_login(login: &str) -> (name: Option<String>)
    ensures
        match name {
            Some(name) => team_name(login@) == Some(name@),
            None => team_name(login@) is None,
        },
{
    proof {
        reveal_strlit("github:");
    }
    let n = login.unicode_len();
    if n < 7 {
        return None;
    }
    let head = login.substring_char(0, 7);
    proof {
        assert(head@ =~= login@.take(7));
    }
    if !same_text(head, "github:") {
        return None;
    }
    let team = login.substring_char(7, n);
    proof {
        assert(team@ =~= login@.skip(7));
    }
    match crate::text::find_char(team, ':') {
        Some(i) => {
            proof {
                crate::text::lemma_first_index(team@, ':');
                assert(team@[i as int] == ':');
            }
            Some(colons_to_slashes(team))
        },
        None => {
            proof {
                crate::text::lemma_first_index(team@, ':');
                if team@.contains(':') {
                    let k = choose|k: int| 0 <= k < team@.len() && team@[k] == ':';
                    assert(false);
                }
            }
            None
        },
    }
}

/// The table begins with the two reserved names: the empty one, for the
/// crate itself, and `default`.
pub open spec fn has_reserved_names(names: Seq<Seq<char>>) -> bool {
    names.len() >= 2 && names[0] == ""@ && names[1] == "default"@
}

/// What has been read of a dump so far. The rows are handed over one by
/// one; `finish` makes the dump and the map of crates of them.
pub struct Loader {
    pub crates: CrateMap,
    pub teams: Vec<UserEntry>,
    pub releases: Vec<Release>,
    /// For each release the features that its row declares.
    pub pending: Vec<Vec<PendingFeature>>,
    pub dependencies: Vec<Dependency>,
    pub renames: Vec<Rename>,
    pub explicit: Vec<ExplicitName>,
    pub names: FeatureNames,
}

/// The names that an enabled feature brings into the table of names: that
/// of its dependency, if it has one, and its own.
pub open spec fn enable_names(text: Seq<char>) -> Seq<Seq<char>> {
    match enable_target(text) {
        Some(target) => seq![target, enable_feature(text)],
        None => seq![enable_feature(text)],
    }
}

/// The names that a list of enabled features brings into the table.
pub open spec fn enables_names(enables: Seq<String>) -> Seq<Seq<char>>
    decreases enables.len(),
{
    if enables.len() == 0 {
        Seq::empty()
    } else {
        enables_names(enables.drop_last()) + enable_names(enables.last()@)
    }
}

/// The names that the features of a row of versions bring into the table:
/// for each feature its name, then those of what it enables.
pub open spec fn version_names(features: Seq<FeatureRow>) -> Seq<Seq<char>>
    decreases features.len(),
{
    if features.len() == 0 {
        Seq::empty()
    } else {
        version_names(features.drop_last()) + seq![features.last().name@] + enables_names(
            features.last().enables@,
        )
    }
}

/// An enabled feature as it waits to be resolved, its names looked up in
/// the table `names`.
pub open spec fn pending_of(names: Seq<Seq<char>>, text: Seq<char>) -> PendingEnable {
    PendingEnable {
        krate: match enable_target(text) {
            Some(target) => Some(feature_of(names, target)),
            None => None,
        },
        weak: enable_weak(text),
        feature: feature_of(names, enable_feature(text)),
    }
}

/// `pending` is the feature of `row`, its names looked up in `names`.
pub open spec fn is_pending_feature(
    pending: PendingFeature,
    row: FeatureRow,
    names: Seq<Seq<char>>,
) -> bool {
    &&& pending.id == feature_of(names, row.name@)
    &&& pending.enables@.len() == row.enables@.len()
    &&& forall|j: int|
        0 <= j < row.enables@.len() ==> #[trigger] pending.enables@[j] == pending_of(
            names,
            row.enables@[j]@,
        )
}

/// `pending` are the features of `rows`, their names looked up in `names`.
pub open spec fn are_pending(
    pending: Seq<PendingFeature>,
    rows: Seq<FeatureRow>,
    names: Seq<Seq<char>>,
) -> bool {
    &&& pending.len() == rows.len()
    &&& forall|i: int| 0 <= i < rows.len() ==> is_pending_feature(#[trigger] pending[i], rows[i], names)
}

/// The row is not taken: it is yanked, or of a pre-release.
pub open spec fn is_skipped(row: VersionRow) -> bool {
    row.yanked || !row.num.is_stable()
}

impl Loader {
    /// The tables are in order: crates and feature names stand once each,
    /// and each release has its list of features.
    pub open spec fn wf(&self) -> bool {
        &&& self.crates.wf()
        &&& self.names.wf()
        &&& has_reserved_names(self.names@)
        &&& self.pending@.len() == self.releases@.len()
    }

    /// A loader that has read nothing.
    pub fn new() -> (loader: Loader)
        ensures
            loader.wf(),
            loader.crates@.len() == 0,
            loader.crates.users@.len() == 0,
            loader.crates.owners@.len() == 0,
            loader.teams@.len() == 0,
            loader.releases@.len() == 0,
            loader.dependencies@.len() == 0,
            loader.renames@.len() == 0,
            loader.explicit@.len() == 0,
            loader.names@ == seq![""@, "default"@],
    {
        Loader {
            crates: CrateMap::new(),
            teams: Vec::new(),
            releases: Vec::new(),
            pending: Vec::new(),
            dependencies: Vec::new(),
            renames: Vec::new(),
            explicit: Vec::new(),
            names: FeatureNames::new(),
        }
    }

    /// Whether the table of names has room for `more` names.
    pub fn has_room(&self, more: usize) -> (b: bool)
        ensures
            b == (self.names@.len() + more <= u32::MAX),
    {
        let limit: usize = 0xffff_ffff;
        let used = self.names.len();
        used <= limit && more <= limit - used
    }

    /// Takes a row of the table of crates. A row whose identifier or name
    /// another crate has already is not taken.
    pub fn add_crate(&mut self, id: CrateId, name: String) -> (taken: bool)
        requires
            old(self).wf(),
        ensures
            final(self).wf(),
            taken == (id_is_free(old(self).crates@, id) && name_is_free(old(self).crates@, name@)),
            taken ==> final(self).crates@ == old(self).crates@.push((id, name@)),
            !taken ==> final(self).crates@ == old(self).crates@,
            final(self).crates.users == old(self).crates.users,
            final(self).crates.owners == old(self).crates.owners,
            final(self).teams == old(self).teams,
            final(self).releases == old(self).releases,
            final(self).pending == old(self).pending,
            final(self).dependencies == old(self).dependencies,
            final(self).renames == old(self).renames,
            final(self).explicit == old(self).explicit,
            final(self).names == old(self).names,
    {
        if self.crates.has_id(id) {
            return false;
        }
        match self.crates.id(name.as_str()) {
            Some(_) => {
                proof {
                    let map = self.crates@;
                    let i = choose|i: int|
                        0 <= i < map.len() && crate::cratename::canonical((#[trigger] map[i]).1)
                            == crate::cratename::canonical(name@);
                    assert(!name_is_free(map, name@));
                }
                false
            },
            None => {
                self.crates.insert(id, name);
                true
            },
        }
    }

    /// Takes a row of the table of users.
    pub fn add_user(&mut self, id: u32, login: String)
        ensures
            final(self).crates.users@ == old(self).crates.users@.push(
                UserEntry { user: User(login), owner: OwnerId::User(id) },
            ),
            final(self).crates.entries == old(self).crates.entries,
            final(self).crates.owners == old(self).crates.owners,
            final(self).teams == old(self).teams,
            final(self).releases == old(self).releases,
            final(self).pending == old(self).pending,
            final(self).dependencies == old(self).dependencies,
            final(self).renames == old(self).renames,
            final(self).explicit == old(self).explicit,
            final(self).names == old(self).names,
    {
        self.crates.users.push(UserEntry { user: User::new(login), owner: OwnerId::User(id) });
    }

    /// Takes a row of the table of teams. Only a team of the code host,
    /// with a login of the form `github:organisation:team`, is kept, as
    /// `organisation/team`.
    pub fn add_team(&mut self, id: u32, login: &str)
        ensures
            match team_name(login@) {
                Some(name) => {
                    &&& final(self).teams@.len() == old(self).teams@.len() + 1
                    &&& final(self).teams@.drop_last() == old(self).teams@
                    &&& final(self).teams@.last().user.0@ == name
                    &&& final(self).teams@.last().owner == OwnerId::Team(id)
                },
                None => final(self).teams == old(self).teams,
            },
            final(self).crates == old(self).crates,
            final(self).releases == old(self).releases,
            final(self).pending == old(self).pending,
            final(self).dependencies == old(self).dependencies,
            final(self).renames == old(self).renames,
            final(self).explicit == old(self).explicit,
            final(self).names == old(self).names,
    {
        match team_login(login) {
            Some(name) => {
                self.teams.push(UserEntry { user: User::new(name), owner: OwnerId::Team(id) });
                proof {
                    assert(self.teams@.drop_last() =~= old(self).teams@);
                }
            },
            None => {},
        }
    }

    /// Takes a row of the table of owners: `owner` has the crate
    /// `crate_id`.
    pub fn add_owner(&mut self, owner: OwnerId, crate_id: CrateId)
        ensures
            owner_views(final(self).crates.owners@) == with_owned(
                owner_views(old(self).crates.owners@),
                owner,
                crate_id,
            ),
            final(self).crates.entries == old(self).crates.entries,
            final(self).crates.users == old(self).crates.users,
            final(self).teams == old(self).teams,
            final(self).releases == old(self).releases,
            final(self).pending == old(self).pending,
            final(self).dependencies == old(self).dependencies,
            final(self).renames == old(self).renames,
            final(self).explicit == old(self).explicit,
            final(self).names == old(self).names,
    {
        let ghost before = owner_views(self.crates.owners@);
        match self.crates.find_owner(owner) {
            Some(k) => {
                let mut entry = self.crates.owners.remove(k);
                entry.crates.push(crate_id);
                self.crates.owners.insert(k, entry);
                proof {
                    lemma_owner_place(before, owner, k as int);
                    assert(owner_views(self.crates.owners@) =~= before.update(
                        k as int,
                        (owner, before[k as int].1.push(crate_id)),
                    ));
                }
            },
            None => {
                let mut list: Vec<CrateId> = Vec::new();
                list.push(crate_id);
                self.crates.owners.push(OwnerEntry { owner, crates: list });
                proof {
                    assert(owner_place(before, owner) == before.len()) by {
                        lemma_no_owner_place(before, owner);
                    }
                    assert(owner_views(self.crates.owners@) =~= before.push(
                        (owner, seq![crate_id]),
                    ));
                }
            },
        }
    }
}

/// The owners with their crates, as values.
pub open spec fn owner_views(owners: Seq<OwnerEntry>) -> Seq<(OwnerId, Seq<CrateId>)> {
    Seq::new(owners.len(), |i: int| (owners[i].owner, owners[i].crates@))
}

/// The place of the first entry of `owner`, the length of the list if
/// there is none.
pub open spec fn owner_place(owners: Seq<(OwnerId, Seq<CrateId>)>, owner: OwnerId) -> nat
    decreases owners.len(),
{
    if owners.len() == 0 || owners[0].0 == owner {
        0
    } else {
        1 + owner_place(owners.skip(1), owner)
    }
}

/// The owners after `owner` has got the crate `crate_id`: at the end of the
/// crates of its entry or, if it has none, in a new entry at the end.
pub open spec fn with_owned(
    owners: Seq<(OwnerId, Seq<CrateId>)>,
    owner: OwnerId,
    crate_id: CrateId,
) -> Seq<(OwnerId, Seq<CrateId>)> {
    let k = owner_place(owners, owner) as int;
    if k < owners.len() {
        owners.update(k, (owner, owners[k].1.push(crate_id)))
    } else {
        owners.push((owner, seq![crate_id]))
    }
}

proof fn lemma_owner_place(owners: Seq<(OwnerId, Seq<CrateId>)>, owner: OwnerId, k: int)
    requires
        0 <= k < owners.len(),
        owners[k].0 == owner,
        forall|j: int| 0 <= j < k ==> (#[trigger] owners[j]).0 != owner,
    ensures
        owner_place(owners, owner) == k,
    decreases k,
{
    if k > 0 {
        let rest = owners.skip(1);
        assert(rest[k - 1] == owners[k]);
        assert forall|j: int| 0 <= j < k - 1 implies (#[trigger] rest[j]).0 != owner by {
            assert(rest[j] == owners[j + 1]);
        }
        assert(owners[0].0 != owner);
        lemma_owner_place(rest, owner, k - 1);
    }
}

proof fn lemma_no_owner_place(owners: Seq<(OwnerId, Seq<CrateId>)>, owner: OwnerId)
    requires
        forall|j: int| 0 <= j < owners.len() ==> (#[trigger] owners[j]).0 != owner,
    ensures
        owner_place(owners, owner) == owners.len(),
    decreases owners.len(),
{
    if owners.len() > 0 {
        let rest = owners.skip(1);
        assert forall|j: int| 0 <= j < rest.len() implies (#[trigger] rest[j]).0 != owner by {
            assert(rest[j] == owners[j + 1]);
        }
        assert(owners[0].0 != owner);
        lemma_no_owner_place(rest, owner);
    }
}

/// The table `names` has the names of the enabled feature `text`.
pub open spec fn knows_enable(names: Seq<Seq<char>>, text: Seq<char>) -> bool {
    &&& names.contains(enable_feature(text))
    &&& match enable_target(text) {
        Some(target) => names.contains(target),
        None => true,
    }
}

/// The table `names` has the names of the feature `row`.
pub open spec fn knows_feature(names: Seq<Seq<char>>, row: FeatureRow) -> bool {
    &&& names.contains(row.name@)
    &&& forall|j: int| 0 <= j < row.enables@.len() ==> knows_enable(names, (#[trigger] row.enables@[j])@)
}

proof fn lemma_enables_names_take(enables: Seq<String>, j: int)
    requires
        0 <= j < enables.len(),
    ensures
        enables_names(enables.take(j + 1)) == enables_names(enables.take(j)) + enable_names(
            enables[j]@,
        ),
        enables_names(enables.take(j)).len() + enable_names(enables[j]@).len() <= enables_names(
            enables,
        ).len(),
    decreases enables.len() - j,
{
    assert(enables.take(j + 1).drop_last() =~= enables.take(j));
    assert(enables.take(j + 1).last() == enables[j]);
    if j + 1 < enables.len() {
        lemma_enables_names_take(enables, j + 1);
    } else {
        assert(enables.take(j + 1) =~= enables);
    }
}

proof fn lemma_version_names_take(features: Seq<FeatureRow>, i: int)
    requires
        0 <= i < features.len(),
    ensures
        version_names(features.take(i + 1)) == version_names(features.take(i)) + seq![
            features[i].name@,
        ] + enables_names(features[i].enables@),
        version_names(features.take(i)).len() + 1 + enables_names(features[i].enables@).len()
            <= version_names(features).len(),
    decreases features.len() - i,
{
    assert(features.take(i + 1).drop_last() =~= features.take(i));
    assert(features.take(i + 1).last() == features[i]);
    if i + 1 < features.len() {
        lemma_version_names_take(features, i + 1);
    } else {
        assert(features.take(i + 1) =~= features);
    }
}

/// What is pending of a feature stays so when names are entered in a table
/// that has the feature's names.
proof fn lemma_pending_stays(
    pending: PendingFeature,
    row: FeatureRow,
    names: Seq<Seq<char>>,
    more: Seq<Seq<char>>,
)
    requires
        crate::feature::distinct_names(names),
        is_pending_feature(pending, row, names),
        knows_feature(names, row),
    ensures
        is_pending_feature(pending, row, interned(names, more)),
        knows_feature(interned(names, more), row),
{
    let after = interned(names, more);
    crate::feature::lemma_interned_grows(names, more);
    crate::feature::lemma_handle_stays(names, more, row.name@);
    assert forall|j: int| 0 <= j < row.enables@.len() implies #[trigger] pending.enables@[j]
        == pending_of(after, row.enables@[j]@) && knows_enable(after, row.enables@[j]@) by {
        let text = row.enables@[j]@;
        assert(knows_enable(names, text));
        crate::feature::lemma_handle_stays(names, more, enable_feature(text));
        match enable_target(text) {
            Some(target) => {
                crate::feature::lemma_handle_stays(names, more, target);
            },
            None => {},
        }
    }
}

/// Enters the names of a feature of a row in the table and gives the
/// feature as it waits to be resolved.
fn intern_feature(names: &mut FeatureNames, row: &FeatureRow) -> (pending: PendingFeature)
    requires
        old(names).wf(),
        old(names)@.len() + 1 + enables_names(row.enables@).len() <= u32::MAX,
    ensures
        final(names).wf(),
        final(names)@ == interned(old(names)@, seq![row.name@] + enables_names(row.enables@)),
        is_pending_feature(pending, *row, final(names)@),
        knows_feature(final(names)@, *row),
{
    let ghost start = names@;
    let id = names.id(row.name.as_str());
    let ghost mut done: Seq<Seq<char>> = seq![row.name@];
    let mut enables: Vec<PendingEnable> = Vec::new();
    let n = row.enables.len();
    let mut j: usize = 0;
    proof {
        assert(row.enables@.take(0) =~= Seq::<String>::empty());
        assert(done =~= seq![row.name@] + enables_names(row.enables@.take(0)));
        crate::feature::lemma_interned_grows(start, done);
    }
    while j < n
        invariant
            n == row.enables@.len(),
            j <= n,
            names.wf(),
            crate::feature::distinct_names(start),
            start.len() + 1 + enables_names(row.enables@).len() <= u32::MAX,
            done == seq![row.name@] + enables_names(row.enables@.take(j as int)),
            names@ == interned(start, done),
            names@.contains(row.name@),
            id == feature_of(names@, row.name@),
            enables@.len() == j,
            forall|k: int|
                0 <= k < j ==> #[trigger] enables@[k] == pending_of(names@, row.enables@[k]@)
                    && knows_enable(names@, row.enables@[k]@),
        decreases n - j,
    {
        let ghost before = names@;
        let ghost text = row.enables@[j as int]@;
        proof {
            lemma_enables_names_take(row.enables@, j as int);
            crate::feature::lemma_interned_grows(start, done);
        }
        let (target, weak, feature) = parse_enable(row.enables[j].as_str());
        let krate = match target {
            Some(target) => Some(names.id(target)),
            None => None,
        };
        let ghost middle = names@;
        let feature = names.id(feature);
        proof {
            let added = enable_names(text);
            match enable_target(text) {
                Some(target) => {
                    assert(added =~= seq![target] + seq![enable_feature(text)]);
                    crate::feature::lemma_interned_concat(
                        before,
                        seq![target],
                        seq![enable_feature(text)],
                    );
                    crate::feature::lemma_interned_grows(middle, seq![enable_feature(text)]);
                    crate::feature::lemma_feature_of(
                        middle,
                        target,
                        middle.index_of(target),
                    );
                    crate::feature::lemma_handle_stays(
                        middle,
                        seq![enable_feature(text)],
                        target,
                    );
                },
                None => {},
            }
            assert(names@ == interned(before, added));
            crate::feature::lemma_interned_concat(start, done, added);
            crate::feature::lemma_interned_grows(before, added);
            crate::feature::lemma_handle_stays(before, added, row.name@);
            assert forall|k: int| 0 <= k < j implies #[trigger] enables@[k] == pending_of(
                names@,
                row.enables@[k]@,
            ) && knows_enable(names@, row.enables@[k]@) by {
                let other = row.enables@[k]@;
                assert(knows_enable(before, other));
                crate::feature::lemma_handle_stays(before, added, enable_feature(other));
                match enable_target(other) {
                    Some(target) => {
                        crate::feature::lemma_handle_stays(before, added, target);
                    },
                    None => {},
                }
            }
            done = done + added;
            assert(done =~= seq![row.name@] + enables_names(row.enables@.take(j as int + 1)));
            assert(added[added.len() - 1] == enable_feature(text));
        }
        enables.push(PendingEnable { krate, weak, feature });
        j += 1;
    }
    proof {
        assert(row.enables@.take(n as int) =~= row.enables@);
        assert forall|k: int| 0 <= k < row.enables@.len() implies knows_enable(
            names@,
            (#[trigger] row.enables@[k])@,
        ) by {
            assert(enables@[k] == pending_of(names@, row.enables@[k]@));
        }
    }
    PendingFeature { id, enables }
}

impl Loader {
    /// Takes a row of the table of versions. A yanked version and a
    /// pre-release are left out. The names of the features that the row
    /// declares, and of what they enable, are entered in the table of
    /// names; what the features enable waits to be resolved.
    pub fn add_version(&mut self, row: VersionRow) -> (taken: bool)
        requires
            old(self).wf(),
            old(self).names@.len() + version_names(row.features@).len() <= u32::MAX,
        ensures
            final(self).wf(),
            taken == !is_skipped(row),
            !taken ==> final(self).names == old(self).names && final(self).releases == old(
                self,
            ).releases && final(self).pending == old(self).pending,
            taken ==> {
                &&& final(self).names@ == interned(old(self).names@, version_names(row.features@))
                &&& final(self).releases@.len() == old(self).releases@.len() + 1
                &&& final(self).releases@.drop_last() == old(self).releases@
                &&& final(self).releases@.last().id == row.id
                &&& final(self).releases@.last().crate_id == row.crate_id
                &&& final(self).releases@.last().num == row.num
                &&& final(self).releases@.last().created_at == row.created_at
                &&& final(self).releases@.last().features@.len() == 0
                &&& final(self).pending@.drop_last() == old(self).pending@
                &&& are_pending(final(self).pending@.last()@, row.features@, final(self).names@)
            },
            final(self).crates == old(self).crates,
            final(self).teams == old(self).teams,
            final(self).dependencies == old(self).dependencies,
            final(self).renames == old(self).renames,
            final(self).explicit == old(self).explicit,
    {
        if row.yanked || !row.num.is_stable() {
            return false;
        }
        let ghost start = self.names@;
        let mut features: Vec<PendingFeature> = Vec::new();
        let n = row.features.len();
        let mut i: usize = 0;
        proof {
            assert(row.features@.take(0) =~= Seq::<FeatureRow>::empty());
            crate::feature::lemma_interned_grows(start, Seq::<Seq<char>>::empty());
        }
        while i < n
            invariant
                n == row.features@.len(),
                i <= n,
                self.names.wf(),
                crate::feature::distinct_names(start),
                start.len() + version_names(row.features@).len() <= u32::MAX,
                self.names@ == interned(start, version_names(row.features@.take(i as int))),
                features@.len() == i,
                forall|k: int|
                    0 <= k < i ==> is_pending_feature(
                        #[trigger] features@[k],
                        row.features@[k],
                        self.names@,
                    ) && knows_feature(self.names@, row.features@[k]),
                self.crates == old(self).crates,
                self.teams == old(self).teams,
                self.releases == old(self).releases,
                self.pending == old(self).pending,
                self.dependencies == old(self).dependencies,
                self.renames == old(self).renames,
                self.explicit == old(self).explicit,
            decreases n - i,
        {
            let ghost before = self.names@;
            let ghost done = version_names(row.features@.take(i as int));
            let ghost added = seq![row.features@[i as int].name@] + enables_names(
                row.features@[i as int].enables@,
            );
            proof {
                lemma_version_names_take(row.features@, i as int);
                crate::feature::lemma_interned_grows(start, done);
            }
            let pending = intern_feature(&mut self.names, &row.features[i]);
            proof {
                crate::feature::lemma_interned_concat(start, done, added);
                assert(done + added =~= version_names(row.features@.take(i as int + 1)));
                assert forall|k: int| 0 <= k < i implies is_pending_feature(
                    #[trigger] features@[k],
                    row.features@[k],
                    self.names@,
                ) && knows_feature(self.names@, row.features@[k]) by {
                    lemma_pending_stays(features@[k], row.features@[k], before, added);
                }
            }
            let ghost listed = features@;
            features.push(pending);
            proof {
                assert forall|k: int| 0 <= k < i + 1 implies is_pending_feature(
                    #[trigger] features@[k],
                    row.features@[k],
                    self.names@,
                ) && knows_feature(self.names@, row.features@[k]) by {
                    if k < i {
                        assert(features@[k] == listed[k]);
                        assert(is_pending_feature(listed[k], row.features@[k], self.names@));
                    }
                }
            }
            i += 1;
        }
        proof {
            assert(row.features@.take(n as int) =~= row.features@);
            crate::feature::lemma_interned_grows(start, version_names(row.features@));
            assert(self.names@.take(start.len() as int)[0] == self.names@[0]);
            assert(self.names@.take(start.len() as int)[1] == self.names@[1]);
        }
        self.releases.push(
            Release {
                id: row.id,
                crate_id: row.crate_id,
                num: row.num,
                created_at: row.created_at,
                features: Slice::empty(),
            },
        );
        self.pending.push(features);
        proof {
            assert(self.releases@.drop_last() =~= old(self).releases@);
            assert(self.pending@.drop_last() =~= old(self).pending@);
        }
        true
    }
}

/// The handles stand in ascending order, none twice.
pub open spec fn ascending_ids(ids: Seq<FeatureId>) -> bool {
    forall|i: int, j: int| 0 <= i < j < ids.len() ==> (#[trigger] ids[i]).0 < (#[trigger] ids[j]).0
}

/// Puts a handle at its place in an ascending list, unless it is there.
fn insert_id(list: &mut Vec<FeatureId>, id: FeatureId)
    requires
        ascending_ids(old(list)@),
    ensures
        ascending_ids(final(list)@),
        forall|x: FeatureId|
            #![trigger final(list)@.contains(x)]
            final(list)@.contains(x) <==> old(list)@.contains(x) || x == id,
{
    let n = list.len();
    let mut p: usize = 0;
    while p < n && list[p].0 < id.0
        invariant
            n == list@.len(),
            p <= n,
            list@ == old(list)@,
            forall|k: int| 0 <= k < p ==> (#[trigger] list@[k]).0 < id.0,
        decreases n - p,
    {
        p += 1;
    }
    if p < n && list[p].0 == id.0 {
        assert(list@[p as int] == id);
        return ;
    }
    list.insert(p, id);
    proof {
        let before = old(list)@;
        let after = list@;
        assert(after == before.insert(p as int, id));
        assert forall|i: int, j: int| 0 <= i < j < after.len() implies (#[trigger] after[i]).0 < (
        #[trigger] after[j]).0 by {
            if i < p && j > p {
                assert(before[i].0 < id.0);
                assert(before[p as int].0 <= before[j - 1].0);
            } else if i == p {
                assert(before[p as int].0 <= before[j - 1].0);
            }
        }
        assert forall|x: FeatureId|
            #![trigger after.contains(x)]
            after.contains(x) <==> before.contains(x) || x == id by {
            if before.contains(x) {
                let k = choose|k: int| 0 <= k < before.len() && before[k] == x;
                if k < p {
                    assert(after[k] == x);
                } else {
                    assert(after[k + 1] == x);
                }
            }
            if x == id {
                assert(after[p as int] == x);
            }
            if after.contains(x) {
                let k = choose|k: int| 0 <= k < after.len() && after[k] == x;
                if k < p {
                    assert(before[k] == x);
                } else if k > p {
                    assert(before[k - 1] == x);
                }
            }
        }
    }
}

/// The texts of a list of strings.
pub open spec fn texts(list: Seq<String>) -> Seq<Seq<char>> {
    Seq::new(list.len(), |i: int| list[i]@)
}

/// The names that a row of dependencies brings into the table of names:
/// the features it lists, then the name it gives the dependency.
pub open spec fn dependency_names(row: DependencyRow) -> Seq<Seq<char>> {
    match row.explicit_name {
        Some(name) => texts(row.features@).push(name@),
        None => texts(row.features@),
    }
}

/// The dependency row that a row of the table becomes, the names looked up
/// in `names`: an optional one waits for the feature that brings it in;
/// `default` among its features means the default features; its other
/// features stand in the order of their handles, each once.
pub open spec fn is_loaded_row(d: Dependency, row: DependencyRow, names: Seq<Seq<char>>) -> bool {
    &&& d.id == row.id
    &&& d.version_id == row.version_id
    &&& d.crate_id == row.crate_id
    &&& d.req == row.req
    &&& d.kind == row.kind
    &&& d.feature_id == if row.optional {
        FeatureId::tbd()
    } else {
        FeatureId::krate()
    }
    &&& d.default_features.0 == (row.default_features || texts(row.features@).contains("default"@))
    &&& ascending_ids(d.features@)
    &&& forall|f: FeatureId|
        #![trigger d.features@.contains(f)]
        d.features@.contains(f) <==> f != FeatureId::default_feature() && exists|j: int|
            0 <= j < row.features@.len() && f == feature_of(names, (#[trigger] row.features@[j])@)
}

impl Loader {
    /// Takes a row of the table of dependencies.
    pub fn add_dependency(&mut self, row: DependencyRow)
        requires
            old(self).wf(),
            old(self).names@.len() + row.features@.len() + 1 <= u32::MAX,
        ensures
            final(self).wf(),
            final(self).names@ == interned(old(self).names@, dependency_names(row)),
            final(self).dependencies@.len() == old(self).dependencies@.len() + 1,
            final(self).dependencies@.drop_last() == old(self).dependencies@,
            is_loaded_row(final(self).dependencies@.last(), row, final(self).names@),
            match row.explicit_name {
                Some(name) => {
                    &&& final(self).renames@ == old(self).renames@.push(
                        Rename {
                            version_id: row.version_id,
                            name: feature_of(final(self).names@, name@),
                            crate_id: row.crate_id,
                        },
                    )
                    &&& final(self).explicit@.len() == old(self).explicit@.len() + 1
                    &&& final(self).explicit@.drop_last() == old(self).explicit@
                    &&& final(self).explicit@.last().id == row.id
                    &&& final(self).explicit@.last().name == name
                },
                None => final(self).renames == old(self).renames && final(self).explicit == old(
                    self,
                ).explicit,
            },
            final(self).crates == old(self).crates,
            final(self).teams == old(self).teams,
            final(self).releases == old(self).releases,
            final(self).pending == old(self).pending,
    {
        let ghost start = self.names@;
        let feature_id = if row.optional {
            FeatureId::tbd()
        } else {
            FeatureId::krate()
        };
        let mut default_features = row.default_features;
        let mut features: Vec<FeatureId> = Vec::new();
        let n = row.features.len();
        let mut i: usize = 0;
        proof {
            assert(texts(row.features@).take(0) =~= Seq::<Seq<char>>::empty());
            crate::feature::lemma_interned_grows(start, Seq::<Seq<char>>::empty());
        }
        while i < n
            invariant
                n == row.features@.len(),
                i <= n,
                self.names.wf(),
                has_reserved_names(self.names@),
                has_reserved_names(start),
                crate::feature::distinct_names(start),
                start.len() + n + 1 <= u32::MAX,
                self.names@ == interned(start, texts(row.features@).take(i as int)),
                default_features == (row.default_features || texts(row.features@).take(
                    i as int,
                ).contains("default"@)),
                ascending_ids(features@),
                forall|k: int| 0 <= k < i ==> self.names@.contains((#[trigger] row.features@[k])@),
                forall|f: FeatureId|
                    #![trigger features@.contains(f)]
                    features@.contains(f) <==> f != FeatureId::default_feature() && exists|j: int|
                        0 <= j < i && f == feature_of(self.names@, (#[trigger] row.features@[j])@),
                self.crates == old(self).crates,
                self.teams == old(self).teams,
                self.releases == old(self).releases,
                self.pending == old(self).pending,
                self.dependencies == old(self).dependencies,
                self.renames == old(self).renames,
                self.explicit == old(self).explicit,
            decreases n - i,
        {
            let ghost before = self.names@;
            let ghost done = texts(row.features@).take(i as int);
            let ghost name = row.features@[i as int]@;
            let ghost listed = features@;
            proof {
                crate::feature::lemma_interned_grows(start, done);
            }
            let id = self.names.id(row.features[i].as_str());
            if id.0 == FeatureId::default_feature().0 {
                default_features = true;
            } else {
                insert_id(&mut features, id);
            }
            proof {
                let after = self.names@;
                crate::feature::lemma_interned_concat(start, done, seq![name]);
                assert(done + seq![name] =~= texts(row.features@).take(i as int + 1));
                crate::feature::lemma_interned_grows(before, seq![name]);
                assert(after.take(before.len() as int)[0] == after[0]);
                assert(after.take(before.len() as int)[1] == after[1]);
                crate::feature::lemma_push_in(done, name, "default"@);
                if id == FeatureId::default_feature() {
                    assert(after[1] == name);
                } else if name == "default"@ {
                    crate::feature::lemma_feature_of(after, name, 1);
                }
                assert forall|k: int| 0 <= k < i + 1 implies after.contains(
                    (#[trigger] row.features@[k])@,
                ) by {}
                assert forall|f: FeatureId|
                    #![trigger features@.contains(f)]
                    features@.contains(f) <==> f != FeatureId::default_feature() && exists|j: int|
                        0 <= j < i + 1 && f == feature_of(after, (#[trigger] row.features@[j])@) by {
                    assert forall|j: int| 0 <= j < i implies feature_of(
                        after,
                        (#[trigger] row.features@[j])@,
                    ) == feature_of(before, row.features@[j]@) by {
                        crate::feature::lemma_handle_stays(before, seq![name], row.features@[j]@);
                    }
                    if listed.contains(f) {
                        let j = choose|j: int|
                            0 <= j < i && f == feature_of(before, (#[trigger] row.features@[j])@);
                        assert(f == feature_of(after, row.features@[j]@));
                    }
                    if f != FeatureId::default_feature() && exists|j: int|
                        0 <= j < i + 1 && f == feature_of(after, (#[trigger] row.features@[j])@) {
                        let j = choose|j: int|
                            0 <= j < i + 1 && f == feature_of(
                                after,
                                (#[trigger] row.features@[j])@,
                            );
                        if j < i {
                            assert(f == feature_of(before, row.features@[j]@));
                            assert(listed.contains(f));
                        }
                    }
                }
            }
            i += 1;
        }
        proof {
            assert(texts(row.features@).take(n as int) =~= texts(row.features@));
        }
        let ghost listed_names = self.names@;
        proof {
            crate::feature::lemma_interned_grows(start, texts(row.features@));
        }
        match &row.explicit_name {
            Some(name) => {
                let name_id = self.names.id(name.as_str());
                self.renames.push(
                    Rename { version_id: row.version_id, name: name_id, crate_id: row.crate_id },
                );
                self.explicit.push(ExplicitName { id: row.id, name: name.clone() });
                proof {
                    let after = self.names@;
                    crate::feature::lemma_interned_concat(
                        start,
                        texts(row.features@),
                        seq![name@],
                    );
                    assert(texts(row.features@) + seq![name@] =~= dependency_names(row));
                    crate::feature::lemma_interned_grows(listed_names, seq![name@]);
                    assert(after.take(listed_names.len() as int)[0] == after[0]);
                    assert(after.take(listed_names.len() as int)[1] == after[1]);
                    assert(self.explicit@.drop_last() =~= old(self).explicit@);
                    assert forall|j: int| 0 <= j < n implies feature_of(
                        after,
                        (#[trigger] row.features@[j])@,
                    ) == feature_of(listed_names, row.features@[j]@) by {
                        crate::feature::lemma_handle_stays(
                            listed_names,
                            seq![name@],
                            row.features@[j]@,
                        );
                    }
                }
            },
            None => {},
        }
        let dep = Dependency {
            id: row.id,
            version_id: row.version_id,
            crate_id: row.crate_id,
            req: row.req,
            feature_id,
            default_features: DefaultFeatures(default_features),
            features: Slice::from(features),
            kind: row.kind,
        };
        self.dependencies.push(dep);
        proof {
            assert(self.dependencies@.drop_last() =~= old(self).dependencies@);
        }
    }
}

/// The rename at `k` is the one that counts for the name `name` in the
/// release `v`: the last of them.
pub open spec fn rename_place(renames: Seq<Rename>, v: VersionId, name: FeatureId, k: int) -> bool {
    &&& 0 <= k < renames.len()
    &&& renames[k].version_id == v
    &&& renames[k].name == name
    &&& forall|j: int|
        k < j < renames.len() ==> !((#[trigger] renames[j]).version_id == v && renames[j].name
            == name)
}

/// The entry at `k` is the one that counts for the dependency row `id`:
/// the last of them.
pub open spec fn explicit_place(explicit: Seq<ExplicitName>, id: DependencyId, k: int) -> bool {
    &&& 0 <= k < explicit.len()
    &&& explicit[k].id == id
    &&& forall|j: int| k < j < explicit.len() ==> (#[trigger] explicit[j]).id != id
}

/// The crate whose feature is enabled: the release's own where no
/// dependency is named; else the crate that the release calls by that
/// name or, if it calls none so, the crate of that name. `None` if there
/// is no such crate.
pub open spec fn target_crate(
    crates: Seq<(CrateId, Seq<char>)>,
    renames: Seq<Rename>,
    names: Seq<Seq<char>>,
    release_id: VersionId,
    crate_id: CrateId,
    enable: PendingEnable,
) -> Option<CrateId> {
    match enable.krate {
        None => Some(crate_id),
        Some(name) => if name == FeatureId::krate() {
            Some(crate_id)
        } else if exists|k: int| rename_place(renames, release_id, name, k) {
            Some(renames[choose|k: int| rename_place(renames, release_id, name, k)].crate_id)
        } else if name.0 < names.len() {
            id_of(crates, names[name.0 as int])
        } else {
            None
        },
    }
}

/// The features that are enabled for good (`weak` not set) or only where
/// their dependency is (`weak` set), each with its crate, in their order;
/// one whose crate is not found is left out.
pub open spec fn resolved_enables(
    pending: Seq<PendingEnable>,
    weak: bool,
    crates: Seq<(CrateId, Seq<char>)>,
    renames: Seq<Rename>,
    names: Seq<Seq<char>>,
    release_id: VersionId,
    crate_id: CrateId,
) -> Seq<CrateFeature>
    decreases pending.len(),
{
    if pending.len() == 0 {
        Seq::empty()
    } else {
        let before = resolved_enables(
            pending.drop_last(),
            weak,
            crates,
            renames,
            names,
            release_id,
            crate_id,
        );
        let enable = pending.last();
        match target_crate(crates, renames, names, release_id, crate_id, enable) {
            Some(target) if enable.weak == weak => before.push(
                CrateFeature { crate_id: target, feature_id: enable.feature },
            ),
            _ => before,
        }
    }
}

/// The features of a release with what they enable resolved.
pub open spec fn resolved_features(
    pending: Seq<PendingFeature>,
    crates: Seq<(CrateId, Seq<char>)>,
    renames: Seq<Rename>,
    names: Seq<Seq<char>>,
    release_id: VersionId,
    crate_id: CrateId,
) -> Seq<FeatureEnablesView> {
    Seq::new(
        pending.len(),
        |i: int|
            FeatureEnablesView {
                id: pending[i].id,
                enables: resolved_enables(
                    pending[i].enables@,
                    false,
                    crates,
                    renames,
                    names,
                    release_id,
                    crate_id,
                ),
                weak_enables: resolved_enables(
                    pending[i].enables@,
                    true,
                    crates,
                    renames,
                    names,
                    release_id,
                    crate_id,
                ),
            },
    )
}

/// The name of the feature that brings in an optional dependency: the name
/// that its row gives the dependency or, if it gives none, the name of the
/// crate. `None` where the crate is not known.
pub open spec fn optional_feature(
    crates: Seq<(CrateId, Seq<char>)>,
    explicit: Seq<ExplicitName>,
    d: Dependency,
) -> Option<Seq<char>> {
    if name_of(crates, d.crate_id) is None {
        None
    } else if exists|k: int| explicit_place(explicit, d.id, k) {
        Some(explicit[choose|k: int| explicit_place(explicit, d.id, k)].name@)
    } else {
        name_of(crates, d.crate_id)
    }
}

/// The row is kept: its crate is known.
pub open spec fn is_kept(crates: Seq<(CrateId, Seq<char>)>, d: Dependency) -> bool {
    name_of(crates, d.crate_id) is Some
}

/// The names that the optional rows bring into the table of names, in the
/// order of the rows.
pub open spec fn optional_names(
    crates: Seq<(CrateId, Seq<char>)>,
    explicit: Seq<ExplicitName>,
    deps: Seq<Dependency>,
) -> Seq<Seq<char>>
    decreases deps.len(),
{
    if deps.len() == 0 {
        Seq::empty()
    } else {
        let before = optional_names(crates, explicit, deps.drop_last());
        let d = deps.last();
        if is_kept(crates, d) && d.feature_id == FeatureId::tbd() {
            before.push(optional_feature(crates, explicit, d)->0)
        } else {
            before
        }
    }
}

/// `after` is the row `before` as the dump gets it: an optional row with
/// the feature that brings it in, its name looked up in `names`.
pub open spec fn is_finished_row(
    before: Dependency,
    after: Dependency,
    crates: Seq<(CrateId, Seq<char>)>,
    explicit: Seq<ExplicitName>,
    names: Seq<Seq<char>>,
) -> bool {
    &&& after.id == before.id
    &&& after.version_id == before.version_id
    &&& after.crate_id == before.crate_id
    &&& after.req@ == before.req@
    &&& after.default_features == before.default_features
    &&& after.features@ == before.features@
    &&& after.kind == before.kind
    &&& after.feature_id == if before.feature_id == FeatureId::tbd() {
        feature_of(names, optional_feature(crates, explicit, before)->0)
    } else {
        before.feature_id
    }
}

/// `after` are the rows `before` as the dump gets them: those whose crate
/// is known, in their order.
pub open spec fn finished_rows(
    before: Seq<Dependency>,
    after: Seq<Dependency>,
    crates: Seq<(CrateId, Seq<char>)>,
    explicit: Seq<ExplicitName>,
    names: Seq<Seq<char>>,
) -> bool
    decreases before.len(),
{
    if before.len() == 0 {
        after.len() == 0
    } else if !is_kept(crates, before.last()) {
        finished_rows(before.drop_last(), after, crates, explicit, names)
    } else {
        &&& after.len() > 0
        &&& finished_rows(before.drop_last(), after.drop_last(), crates, explicit, names)
        &&& is_finished_row(before.last(), after.last(), crates, explicit, names)
    }
}

/// The place of the rename that counts for `name` in the release `v`.
fn find_rename(renames: &Vec<Rename>, v: VersionId, name: FeatureId) -> (found: Option<usize>)
    ensures
        match found {
            Some(k) => rename_place(renames@, v, name, k as int),
            None => forall|k: int| !rename_place(renames@, v, name, k),
        },
{
    let n = renames.len();
    let mut i: usize = n;
    while i > 0
        invariant
            n == renames@.len(),
            i <= n,
            forall|j: int|
                i <= j < n ==> !((#[trigger] renames@[j]).version_id == v && renames@[j].name
                    == name),
        decreases i,
    {
        i -= 1;
        if renames[i].version_id.0 == v.0 && renames[i].name.0 == name.0 {
            return Some(i);
        }
    }
    None
}

/// The place of the entry that counts for the dependency row `id`.
fn find_explicit(explicit: &Vec<ExplicitName>, id: DependencyId) -> (found: Option<usize>)
    ensures
        match found {
            Some(k) => explicit_place(explicit@, id, k as int),
            None => forall|k: int| !explicit_place(explicit@, id, k),
        },
{
    let n = explicit.len();
    let mut i: usize = n;
    while i > 0
        invariant
            n == explicit@.len(),
            i <= n,
            forall|j: int| i <= j < n ==> (#[trigger] explicit@[j]).id != id,
        decreases i,
    {
        i -= 1;
        if explicit[i].id.0 == id.0 {
            return Some(i);
        }
    }
    None
}

/// The crate whose feature is enabled.
fn find_target(
    crates: &CrateMap,
    renames: &Vec<Rename>,
    names: &FeatureNames,
    release_id: VersionId,
    crate_id: CrateId,
    enable: PendingEnable,
) -> (target: Option<CrateId>)
    requires
        crates.wf(),
    ensures
        target == target_crate(crates@, renames@, names@, release_id, crate_id, enable),
{
    let name = match enable.krate {
        None => {
            return Some(crate_id);
        },
        Some(name) => name,
    };
    if name.0 == FeatureId::krate().0 {
        return Some(crate_id);
    }
    match find_rename(renames, release_id, name) {
        Some(k) => {
            proof {
                assert forall|k2: int| rename_place(renames@, release_id, name, k2) implies k2
                    == k by {}
            }
            Some(renames[k].crate_id)
        },
        None => {
            if (name.0 as usize) < names.len() {
                crates.id(names.name(name))
            } else {
                None
            }
        },
    }
}

/// Resolves what a feature enables, for good or weakly.
fn resolve_enables(
    pending: &Vec<PendingEnable>,
    weak: bool,
    crates: &CrateMap,
    renames: &Vec<Rename>,
    names: &FeatureNames,
    release_id: VersionId,
    crate_id: CrateId,
) -> (list: Vec<CrateFeature>)
    requires
        crates.wf(),
    ensures
        list@ == resolved_enables(
            pending@,
            weak,
            crates@,
            renames@,
            names@,
            release_id,
            crate_id,
        ),
{
    let mut list: Vec<CrateFeature> = Vec::new();
    let n = pending.len();
    let mut i: usize = 0;
    proof {
        assert(pending@.take(0) =~= Seq::<PendingEnable>::empty());
    }
    while i < n
        invariant
            n == pending@.len(),
            i <= n,
            crates.wf(),
            list@ == resolved_enables(
                pending@.take(i as int),
                weak,
                crates@,
                renames@,
                names@,
                release_id,
                crate_id,
            ),
        decreases n - i,
    {
        proof {
            assert(pending@.take(i as int + 1).drop_last() =~= pending@.take(i as int));
            assert(pending@.take(i as int + 1).last() == pending@[i as int]);
        }
        let enable = pending[i];
        if enable.weak == weak {
            match find_target(crates, renames, names, release_id, crate_id, enable) {
                Some(target) => {
                    list.push(CrateFeature { crate_id: target, feature_id: enable.feature });
                },
                None => {},
            }
        }
        i += 1;
    }
    proof {
        assert(pending@.take(n as int) =~= pending@);
    }
    list
}

/// Resolves the features of a release.
fn resolve_features(
    pending: &Vec<PendingFeature>,
    crates: &CrateMap,
    renames: &Vec<Rename>,
    names: &FeatureNames,
    release_id: VersionId,
    crate_id: CrateId,
) -> (features: Slice<FeatureEnables>)
    requires
        crates.wf(),
    ensures
        feature_views(features@) == resolved_features(
            pending@,
            crates@,
            renames@,
            names@,
            release_id,
            crate_id,
        ),
{
    let mut list: Vec<FeatureEnables> = Vec::new();
    let n = pending.len();
    let mut i: usize = 0;
    let ghost wanted = resolved_features(pending@, crates@, renames@, names@, release_id, crate_id);
    while i < n
        invariant
            n == pending@.len(),
            i <= n,
            crates.wf(),
            wanted == resolved_features(
                pending@,
                crates@,
                renames@,
                names@,
                release_id,
                crate_id,
            ),
            list@.len() == i,
            forall|k: int| 0 <= k < i ==> (#[trigger] list@[k])@ == wanted[k],
        decreases n - i,
    {
        let feature = &pending[i];
        let enables = resolve_enables(
            &feature.enables,
            false,
            crates,
            renames,
            names,
            release_id,
            crate_id,
        );
        let weak_enables = resolve_enables(
            &feature.enables,
            true,
            crates,
            renames,
            names,
            release_id,
            crate_id,
        );
        list.push(
            FeatureEnables {
                id: feature.id,
                enables: Slice::from(enables),
                weak_enables: Slice::from(weak_enables),
            },
        );
        i += 1;
    }
    let features = Slice::from(list);
    proof {
        assert(feature_views(features@) =~= wanted);
    }
    features
}

/// The table `names` has the name of the feature that brings in each
/// optional row that is kept.
pub open spec fn knows_optional(
    names: Seq<Seq<char>>,
    crates: Seq<(CrateId, Seq<char>)>,
    explicit: Seq<ExplicitName>,
    deps: Seq<Dependency>,
) -> bool {
    forall|k: int|
        0 <= k < deps.len() && is_kept(crates, #[trigger] deps[k]) && deps[k].feature_id
            == FeatureId::tbd() ==> names.contains(optional_feature(crates, explicit, deps[k])->0)
}

/// Rows that are finished stay so when names are entered in a table that
/// has the names of their features.
proof fn lemma_finished_stays(
    before: Seq<Dependency>,
    after: Seq<Dependency>,
    crates: Seq<(CrateId, Seq<char>)>,
    explicit: Seq<ExplicitName>,
    names: Seq<Seq<char>>,
    more: Seq<Seq<char>>,
)
    requires
        crate::feature::distinct_names(names),
        finished_rows(before, after, crates, explicit, names),
        knows_optional(names, crates, explicit, before),
    ensures
        finished_rows(before, after, crates, explicit, interned(names, more)),
        knows_optional(interned(names, more), crates, explicit, before),
    decreases before.len(),
{
    crate::feature::lemma_interned_grows(names, more);
    if before.len() > 0 {
        let shorter = before.drop_last();
        assert forall|k: int|
            0 <= k < shorter.len() && is_kept(crates, #[trigger] shorter[k])
                && shorter[k].feature_id == FeatureId::tbd() implies names.contains(
            optional_feature(crates, explicit, shorter[k])->0,
        ) by {
            assert(shorter[k] == before[k]);
        }
        let d = before.last();
        assert(d == before[before.len() - 1]);
        if !is_kept(crates, d) {
            lemma_finished_stays(shorter, after, crates, explicit, names, more);
        } else {
            lemma_finished_stays(shorter, after.drop_last(), crates, explicit, names, more);
            if d.feature_id == FeatureId::tbd() {
                crate::feature::lemma_handle_stays(
                    names,
                    more,
                    optional_feature(crates, explicit, d)->0,
                );
            }
        }
    }
}

impl Loader {
    /// Makes the dump and the map of crates of what was read. What the
    /// features of a release enable is resolved to crates, and what cannot
    /// be resolved is left out. A dependency row on a crate that is not
    /// known is left out; an optional one gets the feature that brings it
    /// in: the name that the row gives the dependency or else the name of
    /// its crate. The teams are added to the users.
    pub fn finish(self) -> (out: (DbDump, CrateMap))
        requires
            self.wf(),
            self.names@.len() + self.dependencies@.len() <= u32::MAX,
        ensures
            out.1.wf(),
            out.1@ == self.crates@,
            out.1.users@ == self.crates.users@ + self.teams@,
            out.1.owners == self.crates.owners,
            out.0.features.wf(),
            out.0.features@ == interned(
                self.names@,
                optional_names(self.crates@, self.explicit@, self.dependencies@),
            ),
            out.0.releases@.len() == self.releases@.len(),
            forall|i: int|
                0 <= i < self.releases@.len() ==> {
                    let before = self.releases@[i];
                    let after = #[trigger] out.0.releases@[i];
                    &&& after.id == before.id
                    &&& after.crate_id == before.crate_id
                    &&& after.num == before.num
                    &&& after.created_at == before.created_at
                    &&& feature_views(after.features@) == resolved_features(
                        self.pending@[i]@,
                        self.crates@,
                        self.renames@,
                        self.names@,
                        before.id,
                        before.crate_id,
                    )
                },
            finished_rows(
                self.dependencies@,
                out.0.dependencies@,
                self.crates@,
                self.explicit@,
                out.0.features@,
            ),
    {
        let Loader { crates, teams, releases, pending, dependencies, renames, explicit, names } =
            self;
        let mut crates = crates;
        let mut teams = teams;
        let mut names = names;
        let ghost start = names@;
        let mut out_releases: Vec<Release> = Vec::new();
        let n = releases.len();
        let mut i: usize = 0;
        while i < n
            invariant
                n == releases@.len(),
                n == pending@.len(),
                i <= n,
                crates.wf(),
                names@ == start,
                out_releases@.len() == i,
                forall|k: int|
                    0 <= k < i ==> {
                        let before = releases@[k];
                        let after = #[trigger] out_releases@[k];
                        &&& after.id == before.id
                        &&& after.crate_id == before.crate_id
                        &&& after.num == before.num
                        &&& after.created_at == before.created_at
                        &&& feature_views(after.features@) == resolved_features(
                            pending@[k]@,
                            crates@,
                            renames@,
                            start,
                            before.id,
                            before.crate_id,
                        )
                    },
            decreases n - i,
        {
            let r = &releases[i];
            let features = resolve_features(
                &pending[i],
                &crates,
                &renames,
                &names,
                r.id,
                r.crate_id,
            );
            out_releases.push(
                Release {
                    id: r.id,
                    crate_id: r.crate_id,
                    num: r.num.duplicate(),
                    created_at: r.created_at,
                    features,
                },
            );
            i += 1;
        }
        let mut out_deps: Vec<Dependency> = Vec::new();
        let m = dependencies.len();
        let mut j: usize = 0;
        proof {
            assert(dependencies@.take(0) =~= Seq::<Dependency>::empty());
            crate::feature::lemma_interned_grows(start, Seq::<Seq<char>>::empty());
        }
        while j < m
            invariant
                m == dependencies@.len(),
                j <= m,
                crates.wf(),
                names.wf(),
                crate::feature::distinct_names(start),
                start.len() + m <= u32::MAX,
                names@ == interned(
                    start,
                    optional_names(crates@, explicit@, dependencies@.take(j as int)),
                ),
                optional_names(crates@, explicit@, dependencies@.take(j as int)).len() <= j,
                finished_rows(dependencies@.take(j as int), out_deps@, crates@, explicit@, names@),
                knows_optional(names@, crates@, explicit@, dependencies@.take(j as int)),
            decreases m - j,
        {
            let d = &dependencies[j];
            let ghost before = names@;
            let ghost done = dependencies@.take(j as int);
            let ghost upto = dependencies@.take(j as int + 1);
            let ghost rows = out_deps@;
            proof {
                assert(upto.drop_last() =~= done);
                assert(upto.last() == *d);
                crate::feature::lemma_interned_grows(
                    start,
                    optional_names(crates@, explicit@, done),
                );
            }
            match crates.name(d.crate_id) {
                None => {
                    proof {
                        assert forall|k: int|
                            0 <= k < upto.len() && is_kept(crates@, #[trigger] upto[k])
                                && upto[k].feature_id == FeatureId::tbd() implies names@.contains(
                            optional_feature(crates@, explicit@, upto[k])->0,
                        ) by {
                            if k < j {
                                assert(upto[k] == done[k]);
                            }
                        }
                    }
                },
                Some(crate_name) => {
                    let mut row = d.duplicate();
                    if d.feature_id.0 == FeatureId::tbd().0 {
                        let name = match find_explicit(&explicit, d.id) {
                            Some(k) => {
                                proof {
                                    assert forall|k2: int|
                                        explicit_place(explicit@, d.id, k2) implies k2 == k by {}
                                }
                                explicit[k].name.as_str()
                            },
                            None => crate_name,
                        };
                        assert(optional_feature(crates@, explicit@, *d) == Some(name@));
                        row.feature_id = names.id(name);
                        proof {
                            let added = seq![name@];
                            crate::feature::lemma_interned_concat(
                                start,
                                optional_names(crates@, explicit@, done),
                                added,
                            );
                            crate::feature::lemma_push_in(
                                optional_names(crates@, explicit@, done),
                                name@,
                                name@,
                            );
                            lemma_finished_stays(done, rows, crates@, explicit@, before, added);
                        }
                    }
                    out_deps.push(row);
                    proof {
                        assert(out_deps@.drop_last() =~= rows);
                        assert forall|k: int|
                            0 <= k < upto.len() && is_kept(crates@, #[trigger] upto[k])
                                && upto[k].feature_id == FeatureId::tbd() implies names@.contains(
                            optional_feature(crates@, explicit@, upto[k])->0,
                        ) by {
                            if k < j {
                                assert(upto[k] == done[k]);
                            }
                        }
                    }
                },
            }
            j += 1;
        }
        proof {
            assert(dependencies@.take(m as int) =~= dependencies@);
        }
        crates.users.append(&mut teams);
        (DbDump { releases: out_releases, dependencies: out_deps, features: names }, crates)
    }
}

} // verus!
