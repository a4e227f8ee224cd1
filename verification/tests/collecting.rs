use cargo_tally::arena::Slice;
use cargo_tally::collect::{collect, Difference, ResultCollection};
use cargo_tally::cratemap::{CrateMap, OwnerId, UserEntry};
use cargo_tally::dependency::DependencyKind;
use cargo_tally::feature::{DefaultFeatures, FeatureId, FeatureIter};
use cargo_tally::filter::disjoin;
use cargo_tally::id::{CrateId, DependencyId, QueryId, VersionId};
use cargo_tally::load::Feature;
use cargo_tally::matrix::Matrix;
use cargo_tally::tally::{can_run, is_chronological};
use cargo_tally::timestamp::DateTime;
use cargo_tally::user::User;
use cargo_tally::version::{Version, VersionReq};
use cargo_tally::{DbDump, Dependency, Predicate, Query, Release};

fn difference(query: u8, secs: i64, diff: i64) -> Difference {
    Difference { query_id: QueryId(query), timestamp: DateTime::from_timestamp(secs, 0), diff }
}

fn rows(matrix: &Matrix) -> Vec<(i64, Vec<u32>)> {
    (0..matrix.len())
        .map(|i| {
            let (time, row) = matrix.row(i);
            (time.seconds(), row.values().to_vec())
        })
        .collect()
}

fn release(id: u32, krate: u32, secs: i64) -> Release {
    Release {
        id: VersionId(id),
        crate_id: CrateId(krate),
        num: Version::new(1, 0, 0),
        created_at: DateTime::from_timestamp(secs, 0),
        features: Slice::empty(),
    }
}

fn dep(id: u32, version: u32, krate: u32) -> Dependency {
    Dependency {
        id: DependencyId(id),
        version_id: VersionId(version),
        crate_id: CrateId(krate),
        req: VersionReq::star(),
        feature_id: FeatureId::krate(),
        default_features: DefaultFeatures(true),
        features: Slice::empty(),
        kind: DependencyKind::Normal,
    }
}

#[test]
fn differences_are_summed_into_rows() {
    let mut collection = ResultCollection::new();
    collection.emit(difference(1, 300, 2));
    collection.emit(difference(0, 100, 1));
    collection.emit(difference(1, 100, 4));
    collection.emit(difference(0, 300, -1));
    collection.emit(difference(1, 200, -1));
    collection.sort();
    assert_eq!(collection.len(), 5);
    assert_eq!(collection.get(0), difference(0, 100, 1));
    assert_eq!(collection.get(1), difference(1, 100, 4));
    assert_eq!(collection.get(3), difference(1, 300, 2));
    let matrix = collect(2, &collection);
    assert_eq!(matrix.width(), 2);
    assert_eq!(rows(&matrix), vec![(100, vec![1, 4]), (200, vec![1, 3]), (300, vec![0, 5])]);
}

#[test]
fn differences_that_cancel_give_no_last_row() {
    let mut collection = ResultCollection::new();
    collection.emit(difference(0, 100, 1));
    collection.emit(difference(0, 200, 1));
    collection.emit(difference(0, 200, -1));
    let matrix = collect(1, &collection);
    assert_eq!(rows(&matrix), vec![(100, vec![1])]);
    assert!(collect(3, &ResultCollection::new()).is_empty());
    let mut nothing = ResultCollection::new();
    nothing.emit(difference(0, 100, 1));
    nothing.emit(difference(0, 100, -1));
    assert!(collect(1, &nothing).is_empty());
}

#[test]
fn matrix_is_walked_from_either_end() {
    let mut matrix = Matrix::new(2);
    matrix.push(DateTime::from_timestamp(1, 0), vec![1, 0]);
    matrix.push(DateTime::from_timestamp(2, 0), vec![1, 1]);
    matrix.push(DateTime::from_timestamp(3, 0), vec![2, 1]);
    let mut it = matrix.iter();
    let (first, row) = it.next().unwrap();
    assert_eq!((first.seconds(), row.values()), (1, &[1, 0][..]));
    let (last, row) = it.next_back().unwrap();
    assert_eq!((last.seconds(), row.index(0), row.len()), (3, 2, 2));
    let (middle, _) = it.next().unwrap();
    assert_eq!(middle.seconds(), 2);
    assert!(it.next().is_none());
    assert!(it.next_back().is_none());
}

#[test]
fn unrelated_crates_are_taken_out() {
    let mut dump = DbDump::new();
    dump.releases =
        vec![release(1, 1, 1), release(2, 2, 2), release(3, 3, 3), release(4, 4, 4), release(5, 5, 5)];
    // 2 depends on 1, 3 on 2, 5 on 4; 4 depends on a crate without a release.
    dump.dependencies = vec![dep(1, 2, 1), dep(2, 3, 2), dep(3, 5, 4), dep(4, 4, 9)];
    let queries = [Query {
        id: QueryId(0),
        predicates: Slice::from(vec![Predicate { crate_id: CrateId(1), req: None }]),
    }];
    disjoin(&mut dump, &queries);
    let kept: Vec<u32> = dump.releases.iter().map(|r| r.crate_id.0).collect();
    assert_eq!(kept, vec![1, 2, 3]);
    let rows: Vec<u32> = dump.dependencies.iter().map(|d| d.id.0).collect();
    assert_eq!(rows, vec![1, 2]);
}

#[test]
fn query_is_shown_with_the_names_of_the_registry() {
    let mut crates = CrateMap::new();
    crates.insert(CrateId(1), "serde_json".to_owned());
    crates.insert(CrateId(2), "anyhow".to_owned());
    crates.users.push(UserEntry { user: User::new("DTolnay".to_owned()), owner: OwnerId::User(1) });
    assert_eq!(
        cargo_tally::query::format(" serde-json:>=1.0.3, <2 + anyhow+@dtolnay", &crates).as_deref(),
        Some("serde_json:>=1.0.3, <2 or anyhow or @DTolnay")
    );
    assert_eq!(cargo_tally::query::format("anyhow:*", &crates).as_deref(), Some("anyhow:*"));
    assert_eq!(cargo_tally::query::format("anyhow:1.*", &crates).as_deref(), Some("anyhow:1.*"));
    assert_eq!(cargo_tally::query::format("tokio", &crates), None);
    assert_eq!(cargo_tally::query::format("@nobody", &crates), None);
    assert_eq!(VersionReq::from_str("^0.3.0-rc.1, ~1").ok().unwrap().to_string(), "^0.3.0-rc.1, ~1");
}

#[test]
fn feature_is_read_from_and_written_as_its_name() {
    match Feature::parse("serde/derive") {
        Feature::Dependency(dependency, feature) => {
            assert_eq!((dependency.as_str(), feature.as_str()), ("serde", "derive"));
        }
        Feature::Current(_) => panic!("a feature of a dependency was expected"),
    }
    assert!(matches!(Feature::parse("std"), Feature::Current(name) if name == "std"));
    assert_eq!(Feature::parse("a/b/c").to_string(), "a/b/c");
    assert_eq!(Feature::Current("std".to_owned()).to_string(), "std");
}

#[test]
fn enabled_features_come_in_their_order() {
    let listed = Slice::from(vec![FeatureId(7), FeatureId(9)]);
    let mut with_default = FeatureIter::new(DefaultFeatures(true), &listed);
    assert_eq!(with_default.next(), Some(FeatureId::default_feature()));
    assert_eq!(with_default.next(), Some(FeatureId(7)));
    assert_eq!(with_default.next(), Some(FeatureId(9)));
    assert_eq!(with_default.next(), None);
    let mut without = FeatureIter::new(DefaultFeatures(false), &listed);
    assert_eq!(without.next(), Some(FeatureId::default_feature()));
    assert_eq!(without.next(), Some(FeatureId(7)));
    assert_eq!(without.next(), Some(FeatureId(9)));
    assert_eq!(without.next(), None);
    let one = Slice::new(&[FeatureId(7)]);
    let mut single = FeatureIter::new(DefaultFeatures(false), &one);
    assert_eq!(single.next(), Some(FeatureId::default_feature()));
    assert_eq!(single.next(), Some(FeatureId(7)));
    assert_eq!(single.next(), None);
    let mut bare = FeatureIter::new(DefaultFeatures(false), &Slice::empty());
    assert_eq!(bare.next(), Some(FeatureId::krate()));
    assert_eq!(bare.next(), None);
    let mut default_only = FeatureIter::new(DefaultFeatures(true), &Slice::empty());
    assert_eq!(default_only.next(), Some(FeatureId::default_feature()));
    assert_eq!(default_only.next(), None);
}

#[test]
fn run_asks_for_ordered_stable_releases() {
    let queries = [Query { id: QueryId(0), predicates: Slice::empty() }];
    let mut dump = DbDump::new();
    dump.releases = vec![release(1, 1, 10), release(2, 1, 10), release(3, 2, 11)];
    assert!(is_chronological(&dump.releases));
    assert!(can_run(&dump, &queries));
    assert!(!can_run(&dump, &[Query { id: QueryId(1), predicates: Slice::empty() }]));
    dump.releases.swap(0, 2);
    assert!(!is_chronological(&dump.releases));
    assert!(!can_run(&dump, &queries));
    let mut dump = DbDump::new();
    let mut early = release(1, 1, 10);
    early.num = Version::parse("1.0.0-rc.1").ok().unwrap();
    dump.releases = vec![early];
    assert!(!can_run(&dump, &queries));
}

#[test]
fn slice_holds_what_it_was_given() {
    let slice = Slice::new(&[3u32, 1, 2]);
    assert_eq!(slice.iter(), vec![3, 1, 2]);
    assert_eq!(slice.iter_ref(), &[3, 1, 2]);
    assert_eq!((slice.len(), *slice.get(1)), (3, 1));
    assert!(!slice.is_empty());
    assert_eq!(slice.duplicate().iter(), slice.iter());
    assert!(Slice::<u32>::empty().is_empty());
    assert_eq!(Slice::from(vec![5u8]).iter(), vec![5]);
}
