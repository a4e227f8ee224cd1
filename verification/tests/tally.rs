use cargo_tally::arena::Slice;
use cargo_tally::dependency::DependencyKind;
use cargo_tally::feature::{CrateFeature, DefaultFeatures, FeatureEnables, FeatureId};
use cargo_tally::id::{CrateId, DependencyId, QueryId, VersionId};
use cargo_tally::matrix::Matrix;
use cargo_tally::tally::run;
use cargo_tally::timestamp::DateTime;
use cargo_tally::version::{Version, VersionReq};
use cargo_tally::{DbDump, Dependency, Predicate, Query, Release};

fn at(secs: i64) -> DateTime {
    DateTime::from_timestamp(secs, 0)
}

fn req(text: &str) -> VersionReq {
    VersionReq::from_str(text).ok().unwrap()
}

fn release(id: u32, krate: u32, num: (u64, u64, u64), secs: i64) -> Release {
    Release {
        id: VersionId(id),
        crate_id: CrateId(krate),
        num: Version::new(num.0, num.1, num.2),
        created_at: at(secs),
        features: Slice::empty(),
    }
}

fn dep(id: u32, version: u32, krate: u32, text: &str) -> Dependency {
    Dependency {
        id: DependencyId(id),
        version_id: VersionId(version),
        crate_id: CrateId(krate),
        req: req(text),
        feature_id: FeatureId::krate(),
        default_features: DefaultFeatures(true),
        features: Slice::empty(),
        kind: DependencyKind::Normal,
    }
}

fn query(id: u8, krate: u32, text: Option<&str>) -> Query {
    Query {
        id: QueryId(id),
        predicates: Slice::from(vec![Predicate { crate_id: CrateId(krate), req: text.map(req) }]),
    }
}

fn dump(mut releases: Vec<Release>, dependencies: Vec<Dependency>) -> DbDump {
    releases.sort_by_key(|r| r.created_at);
    let mut dump = DbDump::new();
    dump.releases = releases;
    dump.dependencies = dependencies;
    dump
}

fn rows(matrix: &Matrix) -> Vec<(i64, Vec<u32>)> {
    let mut out = Vec::new();
    let mut it = matrix.iter();
    while let Some((time, row)) = it.next() {
        out.push((time.seconds(), row.values().to_vec()));
    }
    out
}

const A: u32 = 1;
const B: u32 = 2;
const C: u32 = 3;
const D: u32 = 4;

#[test]
fn direct_dependency_counts_from_the_dependant_release() {
    let releases = vec![release(10, B, (1, 0, 0), 100), release(11, A, (1, 0, 0), 200)];
    let deps = vec![dep(1, 11, B, "^1.0")];
    let matrix = run(dump(releases, deps), 1, false, &[query(0, B, Some("1.0"))]);
    assert_eq!(matrix.width(), 1);
    assert_eq!(rows(&matrix), vec![(200, vec![1])]);
}

#[test]
fn newer_release_with_unresolved_requirement_counts_no_more() {
    let releases = vec![
        release(20, D, (1, 0, 0), 50),
        release(21, C, (1, 0, 0), 100),
        release(22, C, (2, 0, 0), 200),
        release(23, D, (2, 0, 0), 300),
    ];
    let deps = vec![dep(1, 21, D, "^1.0"), dep(2, 22, D, "^2.0")];
    let matrix = run(dump(releases, deps), 1, false, &[query(0, D, Some("^1.0"))]);
    assert_eq!(rows(&matrix), vec![(100, vec![1]), (200, vec![0])]);
}

#[test]
fn transitive_count_follows_the_chain() {
    let releases = || {
        vec![
            release(30, C, (1, 0, 0), 100),
            release(31, B, (1, 0, 0), 200),
            release(32, A, (1, 0, 0), 300),
        ]
    };
    let deps = || vec![dep(1, 32, B, "^1"), dep(2, 31, C, "^1")];
    let queries = [query(0, C, Some("^1"))];
    let through = run(dump(releases(), deps()), 1, true, &queries);
    assert_eq!(rows(&through), vec![(100, vec![1]), (200, vec![2]), (300, vec![3])]);
    let direct = run(dump(releases(), deps()), 1, false, &queries);
    assert_eq!(rows(&direct), vec![(200, vec![1])]);
}

fn with_feature(id: u32, krate: u32, secs: i64, features: Vec<FeatureEnables>) -> Release {
    Release {
        id: VersionId(id),
        crate_id: CrateId(krate),
        num: Version::new(1, 0, 0),
        created_at: at(secs),
        features: Slice::from(features),
    }
}

fn feature(id: FeatureId, enables: Vec<CrateFeature>) -> FeatureEnables {
    FeatureEnables { id, enables: Slice::from(enables), weak_enables: Slice::empty() }
}

#[test]
fn dependant_with_a_feature_for_its_dependency_contributes() {
    let x = FeatureId(2);
    let y = FeatureId(3);
    let a = with_feature(
        41,
        A,
        200,
        vec![feature(x, vec![CrateFeature { crate_id: CrateId(B), feature_id: y }])],
    );
    let b = with_feature(
        40,
        B,
        200,
        vec![feature(y, vec![]), feature(FeatureId::default_feature(), vec![])],
    );
    let mut row = dep(1, 41, B, "^1");
    row.default_features = DefaultFeatures(false);
    let matrix = run(dump(vec![b, a], vec![row]), 1, true, &[query(0, B, None)]);
    // Before the instant of the two releases nothing counts; from then on
    // the dependant counts, beside the crate that the query names.
    assert_eq!(rows(&matrix), vec![(200, vec![2])]);
}

#[test]
fn optional_dependency_counts_transitively_through_its_feature() {
    let gated = FeatureId(5);
    let a = with_feature(44, A, 200, vec![feature(gated, vec![])]);
    let b = with_feature(43, B, 100, vec![]);
    let c = with_feature(45, C, 300, vec![]);
    let mut optional = dep(1, 44, B, "^1");
    optional.feature_id = gated;
    // C depends on A without asking for the feature that brings B in.
    let mut plain = dep(2, 45, A, "^1");
    plain.default_features = DefaultFeatures(false);
    let matrix = run(dump(vec![b, a, c], vec![optional, plain]), 1, true, &[query(0, B, None)]);
    assert_eq!(rows(&matrix), vec![(100, vec![1]), (200, vec![2])]);
}

#[test]
fn feature_of_another_crate_is_followed_to_what_it_brings_in() {
    let gated = FeatureId(5);
    let wanted = FeatureId(6);
    // B brings in C only under its feature `gated`; A enables that feature
    // of B through its own feature `wanted`.
    let c = with_feature(46, C, 100, vec![]);
    let b = with_feature(47, B, 200, vec![feature(gated, vec![])]);
    let a = with_feature(
        48,
        A,
        300,
        vec![feature(wanted, vec![CrateFeature { crate_id: CrateId(B), feature_id: gated }])],
    );
    let mut b_on_c = dep(1, 47, C, "^1");
    b_on_c.feature_id = gated;
    let mut a_on_b = dep(2, 48, B, "^1");
    a_on_b.default_features = DefaultFeatures(false);
    let matrix =
        run(dump(vec![c, b, a], vec![b_on_c, a_on_b]), 1, true, &[query(0, C, None)]);
    assert_eq!(rows(&matrix), vec![(100, vec![1]), (200, vec![2]), (300, vec![3])]);
}

#[test]
fn disjoint_requirements_share_the_dependants_of_the_crate() {
    let serde = 7;
    let releases = vec![
        release(50, serde, (0, 9, 0), 100),
        release(51, serde, (1, 0, 0), 200),
        release(52, A, (1, 0, 0), 300),
        release(53, B, (1, 0, 0), 400),
        release(54, C, (1, 0, 0), 500),
    ];
    let deps = vec![dep(1, 52, serde, "^0.9"), dep(2, 53, serde, "^1.0"), dep(3, 54, serde, "1")];
    let queries =
        [query(0, serde, Some("^1.0")), query(1, serde, Some("^0.9")), query(2, serde, None)];
    let matrix = run(dump(releases, deps), 1, false, &queries);
    let table = rows(&matrix);
    assert_eq!(
        table,
        vec![(300, vec![0, 1, 1]), (400, vec![1, 1, 2]), (500, vec![2, 1, 3])]
    );
    for (_, row) in table {
        assert!(row[0] + row[1] <= row[2]);
    }
}

#[test]
fn crate_with_many_releases_counts_once() {
    let mut releases = vec![release(60, B, (1, 0, 0), 10)];
    let mut deps = Vec::new();
    for i in 0..10u32 {
        releases.push(release(61 + i, A, (1, 0, u64::from(i)), 100 + i64::from(i)));
        deps.push(dep(i, 61 + i, B, "^1"));
    }
    let matrix = run(dump(releases, deps), 1, false, &[query(0, B, None)]);
    assert_eq!(rows(&matrix), vec![(100, vec![1])]);
}

#[test]
fn direct_count_is_at_most_transitive_count() {
    let releases = || {
        vec![
            release(70, C, (1, 0, 0), 100),
            release(71, B, (1, 0, 0), 200),
            release(72, A, (1, 0, 0), 300),
            release(73, D, (1, 0, 0), 400),
        ]
    };
    let deps = || vec![dep(1, 72, B, "^1"), dep(2, 71, C, "^1"), dep(3, 73, A, "*")];
    let queries = [query(0, C, None), query(1, B, None)];
    let direct = rows(&run(dump(releases(), deps()), 1, false, &queries));
    let through = rows(&run(dump(releases(), deps()), 1, true, &queries));
    assert_eq!(direct, vec![(200, vec![1, 0]), (300, vec![1, 1])]);
    assert_eq!(
        through,
        vec![(100, vec![1, 0]), (200, vec![2, 1]), (300, vec![3, 2]), (400, vec![4, 3])]
    );
    for (time, row) in &direct {
        let wider = through.iter().find(|(t, _)| t == time).unwrap();
        assert!(row[0] <= wider.1[0] && row[1] <= wider.1[1]);
    }
}

#[test]
fn replayed_releases_leave_the_last_counts_as_they_were() {
    let once = vec![
        release(80, B, (1, 0, 0), 100),
        release(81, A, (1, 0, 0), 200),
        release(82, C, (1, 0, 0), 300),
    ];
    let mut twice = Vec::new();
    for shift in [0, 1000] {
        twice.push(release(80, B, (1, 0, 0), 100 + shift));
        twice.push(release(81, A, (1, 0, 0), 200 + shift));
        twice.push(release(82, C, (1, 0, 0), 300 + shift));
    }
    let deps = || vec![dep(1, 81, B, "^1"), dep(2, 82, A, "^1")];
    let queries = [query(0, B, None)];
    for transitive in [false, true] {
        let single = rows(&run(dump(once.iter().map(Release::duplicate).collect(), deps()), 1, transitive, &queries));
        let double = rows(&run(dump(twice.iter().map(Release::duplicate).collect(), deps()), 1, transitive, &queries));
        assert_eq!(single.last().unwrap().1, double.last().unwrap().1);
    }
}

#[test]
fn resolver_takes_the_highest_version_in_any_order() {
    let forward = vec![
        release(90, B, (1, 0, 0), 10),
        release(91, B, (1, 2, 0), 20),
        release(92, B, (1, 1, 0), 30),
        release(93, B, (2, 0, 0), 40),
    ];
    let mut backward: Vec<Release> = forward.iter().map(Release::duplicate).collect();
    backward.reverse();
    let wanted = req("^1");
    assert_eq!(
        cargo_tally::resolve::resolve(&forward, CrateId(B), &wanted),
        Some(VersionId(91))
    );
    assert_eq!(
        cargo_tally::resolve::resolve(&backward, CrateId(B), &wanted),
        Some(VersionId(91))
    );
    assert_eq!(cargo_tally::resolve::resolve(&forward, CrateId(B), &req("^3")), None);
    assert_eq!(cargo_tally::resolve::resolve(&forward, CrateId(A), &wanted), None);
}

#[test]
fn releases_of_one_instant_give_one_row() {
    let releases = vec![
        release(100, B, (1, 0, 0), 100),
        release(101, A, (1, 0, 0), 200),
        release(102, C, (1, 0, 0), 200),
        release(103, D, (1, 0, 0), 300),
    ];
    let deps = vec![dep(1, 101, B, "^1"), dep(2, 102, B, "^1")];
    let matrix = run(dump(releases, deps), 4, false, &[query(0, B, None)]);
    assert_eq!(rows(&matrix), vec![(200, vec![2])]);
    assert!(!matrix.is_empty());
    assert_eq!(matrix.len(), 1);
}

#[test]
fn nothing_to_count_gives_an_empty_matrix() {
    let matrix =
        run(dump(vec![release(1, A, (1, 0, 0), 5)], vec![]), 1, false, &[query(0, A, None)]);
    assert!(matrix.is_empty());
    assert_eq!(matrix.width(), 1);
}

#[test]
fn development_dependency_counts_directly_only() {
    let releases = || vec![release(110, B, (1, 0, 0), 100), release(111, A, (1, 0, 0), 200), release(112, C, (1, 0, 0), 300)];
    let deps = || {
        let mut dev = dep(1, 111, B, "^1");
        dev.kind = DependencyKind::Dev;
        vec![dev, dep(2, 112, A, "^1")]
    };
    let queries = [query(0, B, None)];
    let direct = rows(&run(dump(releases(), deps()), 1, false, &queries));
    assert_eq!(direct, vec![(200, vec![1])]);
    // The graph has no edge for a development dependency: what depends on
    // the dependant does not count, the dependant itself still does.
    let through = rows(&run(dump(releases(), deps()), 1, true, &queries));
    assert_eq!(through, vec![(100, vec![1]), (200, vec![2])]);
}

#[test]
fn weakly_enabled_feature_is_followed_like_another() {
    let gated = FeatureId(5);
    let wanted = FeatureId(6);
    let c = with_feature(120, C, 100, vec![]);
    let b = with_feature(121, B, 200, vec![feature(gated, vec![])]);
    let a = with_feature(
        122,
        A,
        300,
        vec![FeatureEnables {
            id: wanted,
            enables: Slice::empty(),
            weak_enables: Slice::from(vec![CrateFeature {
                crate_id: CrateId(B),
                feature_id: gated,
            }]),
        }],
    );
    let mut b_on_c = dep(1, 121, C, "^1");
    b_on_c.feature_id = gated;
    let mut a_on_b = dep(2, 122, B, "^1");
    a_on_b.default_features = DefaultFeatures(false);
    let matrix =
        run(dump(vec![c, b, a], vec![b_on_c, a_on_b]), 1, true, &[query(0, C, None)]);
    assert_eq!(rows(&matrix), vec![(100, vec![1]), (200, vec![2]), (300, vec![3])]);
}

#[test]
fn releases_that_change_no_count_give_no_row() {
    let releases = vec![
        release(130, B, (1, 0, 0), 100),
        release(131, A, (1, 0, 0), 200),
        release(132, C, (1, 0, 0), 300),
        release(133, D, (1, 0, 0), 400),
        release(134, A, (1, 0, 1), 500),
        release(135, C, (2, 0, 0), 600),
        release(136, A, (2, 0, 0), 700),
    ];
    let deps = vec![dep(1, 131, B, "^1"), dep(2, 134, B, "^1"), dep(3, 136, D, "^1")];
    let matrix = run(dump(releases, deps), 1, false, &[query(0, B, None)]);
    assert_eq!(rows(&matrix), vec![(200, vec![1]), (700, vec![0])]);
}

#[test]
fn listed_features_bring_the_default_feature_along() {
    let gated = FeatureId(5);
    let other = FeatureId(6);
    // B brings in C under its feature `gated`, which its `default` enables.
    let releases = || {
        vec![
            with_feature(60, C, 100, vec![]),
            with_feature(
                61,
                B,
                200,
                vec![
                    feature(
                        FeatureId::default_feature(),
                        vec![CrateFeature { crate_id: CrateId(B), feature_id: gated }],
                    ),
                    feature(gated, vec![]),
                    feature(other, vec![]),
                ],
            ),
            with_feature(62, A, 300, vec![]),
        ]
    };
    let rows_of = |listed: Vec<FeatureId>| {
        let mut b_on_c = dep(1, 61, C, "^1");
        b_on_c.feature_id = gated;
        let mut a_on_b = dep(2, 62, B, "^1");
        a_on_b.default_features = DefaultFeatures(false);
        a_on_b.features = Slice::from(listed);
        rows(&run(dump(releases(), vec![b_on_c, a_on_b]), 1, true, &[query(0, C, None)]))
    };
    // A turns the default features of B off but lists one: `default` comes
    // with it, and through it C.
    assert_eq!(rows_of(vec![other]), vec![(100, vec![1]), (200, vec![2]), (300, vec![3])]);
    // With nothing listed A asks for B alone.
    assert_eq!(rows_of(vec![]), vec![(100, vec![1]), (200, vec![2])]);
}

#[test]
fn dependant_of_a_dependant_counts_from_its_own_release_on() {
    // The three releases in every order of their instants: A counts once
    // all three exist, and never in direct mode.
    let orders: [[i64; 3]; 6] =
        [[1, 2, 3], [1, 3, 2], [2, 1, 3], [2, 3, 1], [3, 1, 2], [3, 2, 1]];
    for [ta, tb, tc] in orders {
        let releases = || {
            vec![
                release(30, C, (1, 0, 0), tc),
                release(31, B, (1, 0, 0), tb),
                release(32, A, (1, 0, 0), ta),
            ]
        };
        let queries = [query(0, C, Some("^1"))];
        let with_a = run(
            dump(releases(), vec![dep(1, 32, B, "^1"), dep(2, 31, C, "^1")]),
            1,
            true,
            &queries,
        );
        let mut fewer = releases();
        fewer.pop();
        let without_a = run(dump(fewer, vec![dep(2, 31, C, "^1")]), 1, true, &queries);
        let last = |table: &Matrix, until: i64| {
            let mut count = 0;
            for (time, row) in rows(table) {
                if time <= until {
                    count = row[0];
                }
            }
            count
        };
        assert_eq!(last(&with_a, 3), last(&without_a, 3) + 1);
        assert_eq!(last(&with_a, 3), 3);
        let all_exist = ta.max(tb).max(tc);
        for t in 0..4 {
            let a_counts = t >= all_exist;
            assert_eq!(last(&with_a, t), last(&without_a, t) + u32::from(a_counts));
        }
        let direct = run(
            dump(releases(), vec![dep(1, 32, B, "^1"), dep(2, 31, C, "^1")]),
            1,
            false,
            &queries,
        );
        assert_eq!(last(&direct, 3), 1);
    }
}

#[test]
fn release_with_two_rows_on_a_crate_counts_for_both_requirements() {
    let serde = 7;
    let releases = vec![
        release(50, serde, (0, 9, 0), 100),
        release(51, serde, (1, 0, 0), 200),
        release(52, A, (1, 0, 0), 300),
    ];
    // A asks for the crate twice, under two requirements that no version
    // meets together: it counts for each of them, and once for the crate.
    let deps = vec![dep(1, 52, serde, "^0.9"), dep(2, 52, serde, "^1.0")];
    let queries =
        [query(0, serde, Some("^1.0")), query(1, serde, Some("^0.9")), query(2, serde, None)];
    let matrix = run(dump(releases, deps), 1, false, &queries);
    assert_eq!(rows(&matrix), vec![(300, vec![1, 1, 1])]);
}
