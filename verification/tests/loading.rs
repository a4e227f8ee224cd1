use cargo_tally::arena::Slice;
use cargo_tally::clean::clean;
use cargo_tally::cratemap::{CrateMap, OwnerId};
use cargo_tally::dependency::DependencyKind;
use cargo_tally::feature::{DefaultFeatures, FeatureId, FeatureNames};
use cargo_tally::id::{CrateId, DependencyId, VersionId};
use cargo_tally::load::{
    parse_enable, team_login, DependencyRow, FeatureRow, Loader, VersionRow,
};
use cargo_tally::mend::{can_mend, mend, release_patch_list, row_patch_list, RowSet};
use cargo_tally::order::sort_releases;
use cargo_tally::timestamp::DateTime;
use cargo_tally::version::{Op, Version, VersionReq};
use cargo_tally::{DbDump, Dependency, Release};
use chrono::{NaiveDate, TimeZone, Utc};

fn req(text: &str) -> VersionReq {
    VersionReq::from_str(text).ok().unwrap()
}

fn release(id: u32, krate: u32, num: (u64, u64, u64), secs: i64) -> Release {
    Release {
        id: VersionId(id),
        crate_id: CrateId(krate),
        num: Version::new(num.0, num.1, num.2),
        created_at: DateTime::from_timestamp(secs, 0),
        features: Slice::empty(),
    }
}

fn dep(id: u32, version: u32, krate: u32, text: &str) -> Dependency {
    Dependency {
        id: DependencyId(id),
        version_id: VersionId(version),
        crate_id: CrateId(krate),
        req: req(text),
        feature_id: FeatureId::krate(),
        default_features: DefaultFeatures(true),
        features: Slice::empty(),
        kind: DependencyKind::Normal,
    }
}

fn version_row(id: u32, krate: u32, text: &str, features: Vec<(&str, Vec<&str>)>) -> VersionRow {
    VersionRow {
        id: VersionId(id),
        crate_id: CrateId(krate),
        num: Version::parse(text).ok().unwrap(),
        created_at: DateTime::from_timestamp(i64::from(id), 0),
        yanked: false,
        features: features
            .into_iter()
            .map(|(name, enables)| FeatureRow {
                name: name.to_owned(),
                enables: enables.into_iter().map(str::to_owned).collect(),
            })
            .collect(),
    }
}

fn dependency_row(id: u32, version: u32, krate: u32) -> DependencyRow {
    DependencyRow {
        id: DependencyId(id),
        version_id: VersionId(version),
        crate_id: CrateId(krate),
        req: req("^1"),
        optional: false,
        default_features: true,
        features: Vec::new(),
        kind: DependencyKind::Normal,
        explicit_name: None,
    }
}

#[test]
fn wildcard_requirement_is_pinned_to_the_highest_version_published() {
    let mut dump = DbDump::new();
    dump.releases = vec![
        release(1, 2, (1, 0, 0), 100),
        release(2, 1, (0, 2, 0), 200),
        release(3, 2, (2, 0, 0), 300),
    ];
    dump.dependencies = vec![dep(1, 2, 2, "*")];
    clean(&mut dump, &CrateMap::new());
    assert_eq!(dump.dependencies.len(), 1);
    let list = dump.dependencies[0].req.comparators.iter_ref();
    assert_eq!(list.len(), 1);
    assert_eq!(list[0].op, Op::Caret);
    assert_eq!((list[0].major, list[0].minor, list[0].patch), (1, Some(0), Some(0)));
    assert!(dump.dependencies[0].req.matches(&Version::new(1, 4, 0)));
    assert!(!dump.dependencies[0].req.matches(&Version::new(2, 0, 0)));
    let queries = [cargo_tally::Query {
        id: cargo_tally::id::QueryId(0),
        predicates: Slice::from(vec![cargo_tally::Predicate {
            crate_id: CrateId(2),
            req: Some(req("2.0")),
        }]),
    }];
    let matrix = cargo_tally::tally::run(dump, 1, false, &queries);
    assert!(matrix.is_empty());
}

#[test]
fn cleaning_keeps_narrow_requirements_and_drops_rows_on_unpublished_crates() {
    let mut dump = DbDump::new();
    dump.releases = vec![
        release(1, 2, (0, 3, 1), 100),
        release(2, 1, (1, 0, 0), 200),
        release(3, 3, (1, 0, 0), 300),
    ];
    dump.dependencies =
        vec![dep(1, 2, 2, "^0.3"), dep(2, 2, 3, "*"), dep(3, 2, 2, "0.*"), dep(4, 9, 3, "*")];
    clean(&mut dump, &CrateMap::new());
    let ids: Vec<u32> = dump.dependencies.iter().map(|d| d.id.0).collect();
    assert_eq!(ids, vec![1, 3, 4]);
    assert_eq!(dump.dependencies[0].req.comparators.iter_ref()[0].minor, Some(3));
    assert_eq!(dump.dependencies[0].req.comparators.iter_ref()[0].patch, None);
    let pinned = dump.dependencies[1].req.comparators.iter_ref();
    assert_eq!((pinned[0].major, pinned[0].minor, pinned[0].patch), (0, Some(3), Some(1)));
    assert!(dump.dependencies[2].req.comparators.is_empty());
}

#[test]
fn enabled_feature_is_taken_apart_at_the_slash() {
    assert_eq!(parse_enable("std"), (None, false, "std"));
    assert_eq!(parse_enable("serde/derive"), (Some("serde"), false, "derive"));
    assert_eq!(parse_enable("serde?/derive"), (Some("serde"), true, "derive"));
    assert_eq!(parse_enable("a/b/c"), (Some("a"), false, "b/c"));
    assert_eq!(parse_enable("/x"), (Some(""), false, "x"));
}

#[test]
fn team_goes_by_organisation_and_name() {
    assert_eq!(team_login("github:rust-lang:libs").as_deref(), Some("rust-lang/libs"));
    assert_eq!(team_login("github:a:b:c").as_deref(), Some("a/b/c"));
    assert_eq!(team_login("github::\u{e9}:").as_deref(), Some("/\u{e9}/"));
    assert_eq!(team_login("github:rust-lang"), None);
    assert_eq!(team_login("gitlab:rust-lang:libs"), None);
    assert_eq!(team_login("github"), None);
}

#[test]
fn loader_resolves_features_and_optional_dependencies() {
    let mut loader = Loader::new();
    assert!(loader.add_crate(CrateId(1), "alpha".to_owned()));
    assert!(loader.add_crate(CrateId(2), "beta".to_owned()));
    assert!(loader.add_crate(CrateId(3), "gamma_x".to_owned()));
    assert!(!loader.add_crate(CrateId(1), "other".to_owned()));
    assert!(!loader.add_crate(CrateId(4), "gamma-x".to_owned()));
    loader.add_user(7, "Alice".to_owned());
    loader.add_team(9, "github:org:team");
    loader.add_team(10, "not-a-team");
    loader.add_owner(OwnerId::User(7), CrateId(1));
    loader.add_owner(OwnerId::Team(9), CrateId(2));
    loader.add_owner(OwnerId::User(7), CrateId(3));

    assert!(loader.add_version(version_row(
        10,
        1,
        "1.0.0",
        vec![
            ("default", vec!["std"]),
            ("std", vec!["beta/fast", "renamed?/slow", "missing/feature"]),
        ],
    )));
    assert!(!loader.add_version(version_row(11, 1, "1.1.0-rc.1", vec![])));
    let mut yanked = version_row(12, 1, "1.2.0", vec![]);
    yanked.yanked = true;
    assert!(!loader.add_version(yanked));
    assert!(loader.add_version(version_row(13, 2, "1.0.0", vec![])));

    let mut plain = dependency_row(1, 10, 2);
    plain.features = vec!["fast".to_owned(), "default".to_owned(), "extra".to_owned()];
    plain.default_features = false;
    loader.add_dependency(plain);
    let mut renamed = dependency_row(2, 10, 3);
    renamed.optional = true;
    renamed.explicit_name = Some("renamed".to_owned());
    loader.add_dependency(renamed);
    let mut optional = dependency_row(3, 10, 2);
    optional.optional = true;
    loader.add_dependency(optional);
    loader.add_dependency(dependency_row(4, 10, 99));

    let (dump, crates) = loader.finish();
    assert_eq!(crates.id("gamma-x"), Some(CrateId(3)));
    assert_eq!(crates.name(CrateId(2)), Some("beta"));
    assert_eq!(crates.users.len(), 2);
    assert_eq!(crates.users[1].user.0, "org/team");
    assert_eq!(crates.owners.len(), 2);
    assert_eq!(crates.owners[0].crates, vec![CrateId(1), CrateId(3)]);

    let mut names = dump.features;
    let std = names.id("std");
    let fast = names.id("fast");
    let slow = names.id("slow");
    let extra = names.id("extra");
    let beta = names.id("beta");
    let renamed = names.id("renamed");
    assert_eq!(names.name(FeatureId::krate()), "");
    assert_eq!(names.name(FeatureId::default_feature()), "default");

    let ids: Vec<u32> = dump.releases.iter().map(|r| r.id.0).collect();
    assert_eq!(ids, vec![10, 13]);
    let features = dump.releases[0].features.iter_ref();
    assert_eq!(features.len(), 2);
    assert_eq!(features[0].id, FeatureId::default_feature());
    let own = features[0].enables.iter();
    assert_eq!(own.len(), 1);
    assert_eq!((own[0].crate_id, own[0].feature_id), (CrateId(1), std));
    assert_eq!(features[1].id, std);
    let strong = features[1].enables.iter();
    assert_eq!(strong.len(), 1);
    assert_eq!((strong[0].crate_id, strong[0].feature_id), (CrateId(2), fast));
    let weak = features[1].weak_enables.iter();
    assert_eq!(weak.len(), 1);
    assert_eq!((weak[0].crate_id, weak[0].feature_id), (CrateId(3), slow));

    let rows: Vec<u32> = dump.dependencies.iter().map(|d| d.id.0).collect();
    assert_eq!(rows, vec![1, 2, 3]);
    assert_eq!(dump.dependencies[0].feature_id, FeatureId::krate());
    assert!(dump.dependencies[0].default_features.0);
    let mut listed = vec![fast, extra];
    listed.sort();
    assert_eq!(dump.dependencies[0].features.iter(), listed);
    assert_eq!(dump.dependencies[1].feature_id, renamed);
    assert_eq!(dump.dependencies[2].feature_id, beta);
}

#[test]
fn feature_names_give_each_name_one_handle() {
    let mut names = FeatureNames::new();
    assert_eq!(names.id(""), FeatureId::krate());
    assert_eq!(names.id("default"), FeatureId::default_feature());
    let std = names.id("std");
    assert_eq!(std, FeatureId(2));
    assert_eq!(names.id("alloc"), FeatureId(3));
    assert_eq!(names.id("std"), std);
    assert_eq!(names.name(std), "std");
    assert_eq!(names.find("nothing"), None);
    assert_eq!(names.len(), 4);
    assert_eq!(FeatureId::tbd(), FeatureId(u32::MAX));
}

fn patched_crates() -> CrateMap {
    let mut crates = CrateMap::new();
    let names =
        ["git-version", "partial-io", "futures", "lazy_static", "quickcheck", "tokio-core", "tokio-io"];
    for (i, name) in names.iter().enumerate() {
        crates.insert(CrateId(100 + i as u32), (*name).to_owned());
    }
    crates
}

#[test]
fn mending_puts_the_deleted_releases_back() {
    let crates = patched_crates();
    let mut dump = DbDump::new();
    dump.releases = vec![release(0, 102, (0, 1, 0), 1), release(2, 102, (0, 1, 1), 2)];
    dump.dependencies = vec![dep(1, 0, 103, "^1")];
    assert!(can_mend(&dump, &crates));
    mend(&mut dump, &crates);
    assert_eq!(dump.releases.len(), 2 + 13);
    assert_eq!(dump.dependencies.len(), 1 + 54);
    let ids: Vec<u32> = dump.releases.iter().map(|r| r.id.0).collect();
    assert_eq!(ids, vec![0, 2, 1, 3, 4, 5, 6, 7, 8, 9, 10, 11, 12, 13, 14]);
    let rows: Vec<u32> = dump.dependencies.iter().take(4).map(|d| d.id.0).collect();
    assert_eq!(rows, vec![1, 0, 2, 3]);

    let first = &dump.releases[2];
    assert_eq!(first.crate_id, CrateId(100));
    assert_eq!((first.num.major, first.num.minor, first.num.patch), (0, 1, 0));
    assert_eq!(first.created_at, DateTime::from_timestamp(1508334791, 0));
    assert!(first.features.is_empty());

    let mut names = dump.features;
    let tokio = names.id("tokio");
    let tokio_io = names.id("tokio-io");
    let futures = names.id("futures");
    let quickcheck = names.id("quickcheck");
    assert_eq!((tokio.0, tokio_io.0, futures.0, quickcheck.0), (2, 3, 4, 5));

    let partial = &dump.releases[6];
    assert_eq!(partial.crate_id, CrateId(101));
    assert_eq!((partial.num.major, partial.num.minor, partial.num.patch), (0, 1, 0));
    let features = partial.features.iter_ref();
    assert_eq!(features.len(), 1);
    assert_eq!(features[0].id, tokio);
    let enabled: Vec<(u32, u32)> =
        features[0].enables.iter().iter().map(|f| (f.crate_id.0, f.feature_id.0)).collect();
    assert_eq!(enabled, vec![(101, tokio_io.0), (101, futures.0)]);
    assert!(features[0].weak_enables.is_empty());

    let of_first: Vec<&Dependency> =
        dump.dependencies.iter().filter(|d| d.version_id == partial.id).collect();
    assert_eq!(of_first.len(), 6);
    assert_eq!(of_first[0].crate_id, CrateId(102));
    assert_eq!(of_first[0].feature_id, futures);
    assert!(matches!(of_first[0].kind, DependencyKind::Normal));
    assert_eq!(of_first[2].crate_id, CrateId(104));
    assert_eq!(of_first[2].feature_id, quickcheck);
    assert_eq!(of_first[3].feature_id, FeatureId::krate());
    assert!(matches!(of_first[3].kind, DependencyKind::Dev));
    assert!(of_first[1].req.matches(&Version::new(0, 2, 5)));
    assert!(!of_first[1].req.matches(&Version::new(0, 3, 0)));
    assert!(of_first.iter().all(|d| d.default_features.0 && d.features.is_empty()));

    let last = dump.releases.last().unwrap();
    assert_eq!((last.num.major, last.num.minor, last.num.patch), (0, 3, 0));
    let of_last: Vec<&Dependency> =
        dump.dependencies.iter().filter(|d| d.version_id == last.id).collect();
    assert!(of_last[1].req.matches(&Version::new(1, 4, 0)));
    assert!(of_last[2].req.matches(&Version::new(0, 6, 1)));
    assert!(!of_last[2].req.matches(&Version::new(0, 4, 0)));
}

#[test]
fn mending_needs_the_crates_and_no_release_that_it_adds() {
    let crates = patched_crates();
    let mut dump = DbDump::new();
    assert!(!can_mend(&dump, &CrateMap::new()));
    dump.releases = vec![release(5, 101, (0, 2, 3), 1)];
    assert!(!can_mend(&dump, &crates));
    dump.releases = vec![release(5, 101, (0, 2, 9), 1)];
    assert!(can_mend(&dump, &crates));
}

#[test]
fn patch_instants_are_the_dates_they_stand_for() {
    let dates = [
        (2017, 10, 18, 13, 53, 11),
        (2017, 10, 18, 13, 55, 40),
        (2017, 10, 18, 13, 57, 15),
        (2018, 4, 5, 9, 14, 16),
        (2017, 5, 26, 2, 38, 58),
        (2017, 5, 27, 0, 56, 37),
        (2017, 5, 30, 21, 1, 28),
        (2017, 5, 30, 21, 47, 41),
        (2017, 6, 12, 5, 26, 52),
        (2017, 7, 20, 20, 1, 22),
        (2017, 8, 19, 23, 37, 51),
        (2017, 11, 18, 2, 26, 25),
        (2018, 1, 12, 22, 15, 15),
    ];
    let patches = release_patch_list();
    assert_eq!(patches.len(), dates.len());
    for (patch, (y, m, d, h, min, s)) in patches.iter().zip(dates) {
        let naive = NaiveDate::from_ymd_opt(y, m, d).unwrap().and_hms_opt(h, min, s).unwrap();
        assert_eq!(patch.secs, Utc.from_utc_datetime(&naive).timestamp());
    }
    assert_eq!(row_patch_list(RowSet::Bare).len(), 0);
    assert_eq!(row_patch_list(RowSet::First).len(), 6);
    assert_eq!(row_patch_list(RowSet::Late)[1].major, 1);
}

#[test]
fn sorting_goes_by_instant_and_keeps_the_order_within_one() {
    let mut dump = DbDump::new();
    dump.releases = vec![
        release(1, 1, (1, 0, 0), 300),
        release(2, 1, (1, 0, 1), 100),
        release(3, 2, (1, 0, 0), 300),
        release(4, 3, (1, 0, 0), 100),
        release(5, 3, (1, 0, 0), -5),
    ];
    sort_releases(&mut dump);
    let ids: Vec<u32> = dump.releases.iter().map(|r| r.id.0).collect();
    assert_eq!(ids, vec![5, 2, 4, 1, 3]);
}

#[test]
fn loader_knows_the_room_in_its_table_of_names() {
    let loader = Loader::new();
    assert!(loader.has_room(0));
    assert!(loader.has_room(u32::MAX as usize - 2));
    assert!(!loader.has_room(u32::MAX as usize - 1));
    assert!(!loader.has_room(usize::MAX));
}

#[test]
fn incompatible_version_is_the_next_of_the_leftmost_number() {
    let next = |v: (u64, u64, u64)| {
        cargo_tally::clean::incompatible_with(&Version::new(v.0, v.1, v.2))
            .map(|n| (n.major, n.minor, n.patch))
    };
    assert_eq!(next((1, 4, 2)), Some((2, 0, 0)));
    assert_eq!(next((0, 4, 2)), Some((0, 5, 0)));
    assert_eq!(next((0, 0, 2)), Some((0, 0, 3)));
    assert_eq!(next((u64::MAX, 0, 0)), None);
    assert_eq!(next((0, 0, u64::MAX)), None);
    let releases = vec![
        release(1, 1, (1, 0, 0), 1),
        release(2, 2, (0, 9, 0), 2),
        release(3, 1, (1, 2, 0), 3),
        release(4, 1, (1, 1, 0), 4),
    ];
    assert_eq!(cargo_tally::clean::highest_release(&releases, 4, CrateId(1)), Some(2));
    assert_eq!(cargo_tally::clean::highest_release(&releases, 2, CrateId(1)), Some(0));
    assert_eq!(cargo_tally::clean::highest_release(&releases, 1, CrateId(2)), None);
    assert_eq!(cargo_tally::clean::find_release(&releases, VersionId(3)), Some(2));
    assert_eq!(cargo_tally::clean::find_release(&releases, VersionId(9)), None);
}
