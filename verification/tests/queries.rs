use cargo_tally::args::{validate_query, InvalidQuery};
use cargo_tally::cratemap::{CrateMap, OwnerEntry, OwnerId, UserEntry};
use cargo_tally::cratename;
use cargo_tally::filter::{exclude, excluded_names, matches_any};
use cargo_tally::id::{CrateId, QueryId, VersionId};
use cargo_tally::query::{parse, parse_predicates, QueryError};
use cargo_tally::text::{split, split_once, trim};
use cargo_tally::timestamp::DateTime;
use cargo_tally::total::Total;
use cargo_tally::user::{self, User, UserQuery};
use cargo_tally::version::Version;
use cargo_tally::dependency::DependencyKind;
use cargo_tally::feature::{DefaultFeatures, FeatureId};
use cargo_tally::{DbDump, Dependency, Predicate, Query, Release};

fn crates() -> CrateMap {
    let mut map = CrateMap::new();
    map.insert(CrateId(1), "serde".to_owned());
    map.insert(CrateId(2), "serde_json".to_owned());
    map.insert(CrateId(3), "anyhow".to_owned());
    map.users.push(UserEntry { user: User::new("dtolnay".to_owned()), owner: OwnerId::User(5) });
    map.users.push(UserEntry { user: User::new("Nobody".to_owned()), owner: OwnerId::User(6) });
    map.users
        .push(UserEntry { user: User::new("serde-rs/owners".to_owned()), owner: OwnerId::Team(5) });
    map.owners.push(OwnerEntry { owner: OwnerId::User(5), crates: vec![CrateId(1), CrateId(3)] });
    map.owners.push(OwnerEntry { owner: OwnerId::Team(5), crates: vec![CrateId(2)] });
    map
}

fn release(id: u32, krate: u32, secs: i64) -> Release {
    Release {
        id: VersionId(id),
        crate_id: CrateId(krate),
        num: Version::new(1, 0, 0),
        created_at: DateTime::from_timestamp(secs, 0),
        features: cargo_tally::arena::Slice::empty(),
    }
}

#[test]
fn query_is_read_predicate_by_predicate() {
    let map = crates();
    let list = parse(&["serde:1.0", "anyhow:^1.0 + serde-json"], &map).ok().unwrap();
    assert_eq!(list.len(), 2);
    assert_eq!(list[0].id, QueryId(0));
    assert_eq!(list[1].id, QueryId(1));
    let first = list[0].predicates.iter_ref();
    assert_eq!(first.len(), 1);
    assert_eq!(first[0].crate_id, CrateId(1));
    assert!(first[0].req.as_ref().unwrap().matches(&Version::new(1, 0, 7)));
    let second = list[1].predicates.iter_ref();
    assert_eq!(second.len(), 2);
    assert_eq!(second[0].crate_id, CrateId(3));
    assert_eq!(second[1].crate_id, CrateId(2));
    assert!(second[1].req.is_none());
}

#[test]
fn owner_stands_for_the_crates_it_owns() {
    let map = crates();
    let predicates = parse_predicates("@DTolnay", &map).ok().unwrap();
    let ids: Vec<u32> = predicates.iter_ref().iter().map(|p| p.crate_id.0).collect();
    assert_eq!(ids, vec![1, 3]);
    let predicates = parse_predicates(" @serde-rs/owners + serde ", &map).ok().unwrap();
    let ids: Vec<u32> = predicates.iter_ref().iter().map(|p| p.crate_id.0).collect();
    assert_eq!(ids, vec![2, 1]);
    let predicates = parse_predicates("@nobody", &map).ok().unwrap();
    assert!(predicates.is_empty());
}

#[test]
fn unreadable_query_says_what_is_wrong() {
    let map = crates();
    match parse_predicates("serde:1.x.y", &map) {
        Err(QueryError::Requirement(_)) => {}
        _ => panic!("a requirement was expected to fail"),
    }
    match parse_predicates("serde + tokio", &map) {
        Err(QueryError::NoCrate(name)) => assert_eq!(name, "tokio"),
        _ => panic!("a crate was expected to be missing"),
    }
    match parse_predicates("@somebody", &map) {
        Err(QueryError::NoOwner { team, login }) => {
            assert!(!team);
            assert_eq!(login, "somebody");
        }
        _ => panic!("an owner was expected to be missing"),
    }
    match parse_predicates("@some/team", &map) {
        Err(QueryError::NoOwner { team, .. }) => assert!(team),
        _ => panic!("a team was expected to be missing"),
    }
    match parse(&["serde", "tokio:nonsense", "nothing"], &map) {
        Err(failure) => {
            assert_eq!(failure.index, 1);
            assert!(matches!(failure.error, QueryError::Requirement(_)));
        }
        Ok(_) => panic!("the second query was expected to fail"),
    }
}

#[test]
fn query_of_the_command_line_is_checked_without_the_registry() {
    assert_eq!(validate_query("serde:1.0").ok().unwrap(), "serde:1.0");
    assert_eq!(
        validate_query("anyhow:^1.0 + thiserror").ok().unwrap(),
        "anyhow:^1.0 + thiserror"
    );
    assert!(validate_query("@dtolnay + @rust-lang/libs").is_ok());
    assert!(matches!(validate_query("@-dash"), Err(InvalidQuery::InvalidUsername)));
    assert!(matches!(validate_query("@a//b"), Err(InvalidQuery::InvalidUsername)));
    assert!(matches!(validate_query("1serde"), Err(InvalidQuery::InvalidCrateName)));
    assert!(matches!(validate_query("serde + "), Err(InvalidQuery::InvalidCrateName)));
    assert!(matches!(validate_query("serde:^^1"), Err(InvalidQuery::Semver(_))));
    assert!(matches!(
        validate_query("bad name:^^1"),
        Err(InvalidQuery::InvalidCrateName)
    ));
}

#[test]
fn crate_names_follow_the_registry() {
    assert!(cratename::valid("serde"));
    assert!(cratename::valid("serde_json-2"));
    assert!(!cratename::valid(""));
    assert!(!cratename::valid("2serde"));
    assert!(!cratename::valid("_serde"));
    assert!(!cratename::valid("ser de"));
    assert!(!cratename::valid("sérde"));
    assert!(cratename::valid(&"a".repeat(64)));
    assert!(!cratename::valid(&"a".repeat(65)));
    assert!(cratename::valid_feature_prefix("2-x"));
    assert!(!cratename::valid_ident("2-x"));
    assert!(cratename::same_crate_name("serde_json", "serde-json"));
    assert!(!cratename::same_crate_name("serde_json", "serde-jsom"));
    assert!(!cratename::same_crate_name("serde", "Serde"));
}

#[test]
fn user_names_follow_the_code_host() {
    assert!(user::valid("dtolnay"));
    assert!(user::valid("rust-lang"));
    assert!(user::valid("a"));
    assert!(!user::valid(""));
    assert!(!user::valid("-a"));
    assert!(!user::valid("a-"));
    assert!(!user::valid("a--b"));
    assert!(!user::valid("a_b"));
    assert!(user::valid(&"a".repeat(39)));
    assert!(!user::valid(&"a".repeat(40)));
    assert!(user::same_login("DTolnay", "dtolnay"));
    assert!(!user::same_login("dtolnay", "dtolnai"));
    assert!(UserQuery("rust-lang/libs").is_team());
    assert!(!UserQuery("dtolnay").is_team());
    assert_eq!(User::new("Alice".to_owned()).to_string(), "Alice");
}

#[test]
fn text_is_split_and_trimmed() {
    assert_eq!(split("a+b++c", '+'), vec!["a", "b", "", "c"]);
    assert_eq!(split("", '+'), vec![""]);
    assert_eq!(split_once("name:>=1, <2", ':'), Some(("name", ">=1, <2")));
    assert_eq!(split_once("name", ':'), None);
    assert_eq!(trim("  \t serde \u{2003}\n"), "serde");
    assert_eq!(trim("   "), "");
    assert_eq!(trim("a b"), "a b");
}

#[test]
fn total_is_the_number_of_crates_with_a_release() {
    let releases = vec![
        release(1, 1, 100),
        release(2, 2, 100),
        release(3, 1, 150),
        release(4, 3, 100),
        release(5, 4, 200),
    ];
    let total = Total::index(&releases);
    assert_eq!(total.eval(DateTime::from_timestamp(99, 999_999_999)), 0);
    assert_eq!(total.eval(DateTime::from_timestamp(100, 0)), 3);
    assert_eq!(total.eval(DateTime::from_timestamp(150, 0)), 3);
    assert_eq!(total.eval(DateTime::from_timestamp(200, 0)), 4);
    assert_eq!(total.eval(DateTime::from_timestamp(9000, 0)), 4);
    assert_eq!(Total::index(&[]).eval(DateTime::from_timestamp(0, 0)), 0);
}

#[test]
fn count_is_at_most_the_total() {
    let releases =
        || vec![release(1, 1, 100), release(2, 2, 200), release(3, 3, 300), release(4, 4, 400)];
    let mut dump = DbDump::new();
    dump.releases = releases();
    for (i, version) in [2u32, 3, 4].iter().enumerate() {
        dump.dependencies.push(Dependency {
            id: cargo_tally::id::DependencyId(i as u32),
            version_id: VersionId(*version),
            crate_id: CrateId(1),
            req: cargo_tally::version::VersionReq::star(),
            feature_id: FeatureId::krate(),
            default_features: DefaultFeatures(true),
            features: cargo_tally::arena::Slice::empty(),
            kind: DependencyKind::Normal,
        });
    }
    let total = Total::index(&releases());
    let queries = [Query {
        id: QueryId(0),
        predicates: cargo_tally::arena::Slice::from(vec![Predicate {
            crate_id: CrateId(1),
            req: None,
        }]),
    }];
    let matrix = cargo_tally::tally::run(dump, 1, true, &queries);
    let mut it = matrix.iter();
    let mut seen = 0;
    while let Some((time, row)) = it.next() {
        let relative = row.div(total.eval(time));
        let (count, all) = relative.fraction(0);
        assert!(count <= all);
        assert_eq!(relative.width(), 1);
        seen += 1;
    }
    assert_eq!(seen, 4);
}

#[test]
fn excluded_crates_lose_their_releases() {
    let map = crates();
    let mut dump = DbDump::new();
    dump.releases = vec![release(1, 1, 1), release(2, 2, 2), release(3, 3, 3), release(4, 9, 4)];
    exclude(&mut dump, &map, &["^serde".to_owned(), "(unclosed".to_owned()]);
    let ids: Vec<u32> = dump.releases.iter().map(|r| r.id.0).collect();
    assert_eq!(ids, vec![3, 4]);
    let mut dump = DbDump::new();
    dump.releases = vec![release(1, 1, 1), release(3, 3, 3)];
    exclude(&mut dump, &map, &[]);
    assert_eq!(dump.releases.len(), 2);
}

#[test]
fn instants_are_ordered_by_seconds_then_nanoseconds() {
    let early = DateTime::from_timestamp(10, 999_999_999);
    let late = DateTime::from_timestamp(11, 0);
    assert!(early.lt(late));
    assert!(early.le(early));
    assert!(!late.le(early));
    assert!(early < late);
    assert_eq!(early.join(late), late);
    assert_eq!(early.meet(late), early);
    assert_eq!(DateTime::minimum(), DateTime::from_timestamp(0, 0));
    assert_eq!(DateTime::default(), DateTime::minimum());
    assert_eq!(DateTime::from_timestamp(12, 345_678_901).millis(), 12_345);
    assert_eq!(DateTime::from_timestamp(-2, 500_000_000).millis(), -1_500);
    assert_eq!(late.seconds(), 11);
    assert_eq!(early.subsec_nanos(), 999_999_999);
}

#[test]
fn trim_takes_white_space_as_the_standard_library_does() {
    let mut c = '\0';
    loop {
        let mut text = String::new();
        text.push(c);
        text.push('x');
        text.push(c);
        assert_eq!(trim(&text), text.trim(), "U+{:04X}", u32::from(c));
        if c == char::MAX {
            break;
        }
        c = char::from_u32(u32::from(c) + 1).unwrap_or('\u{E000}');
    }
    assert_eq!(trim("\u{A0}\u{3000}a\u{2028}b\u{85}"), "a\u{2028}b");
    assert_eq!(trim("\u{200B}a"), "\u{200B}a");
}

#[test]
fn each_name_is_put_to_each_pattern() {
    let names: Vec<String> =
        ["serde", "serde_json", "syn", ""].iter().map(|name| name.to_string()).collect();
    let patterns = ["json$".to_owned(), "(".to_owned(), "^s.n$".to_owned()];
    assert_eq!(excluded_names(&names, &patterns), vec![false, true, true, false]);
    assert_eq!(excluded_names(&names, &[]), vec![false; 4]);
    assert_eq!(excluded_names(&names, &["".to_owned()]), vec![true; 4]);
    assert!(excluded_names(&Vec::new(), &patterns).is_empty());
    assert!(matches_any("serde_json", &patterns));
    assert!(!matches_any("serde", &patterns));
    assert!(!matches_any("serde", &["(".to_owned()]));
}
