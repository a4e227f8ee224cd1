use cargo_tally::compat;
use cargo_tally::version::{compatible_req, Comparator, Op, Version, VersionReq};

fn req(text: &str) -> VersionReq {
    VersionReq::from_str(text).ok().unwrap()
}

fn version(text: &str) -> Version {
    Version::parse(text).ok().unwrap()
}

#[test]
fn parsed_version_keeps_numbers_and_tag() {
    let v = version("1.2.3-alpha.1+build.5");
    assert_eq!((v.major, v.minor, v.patch), (1, 2, 3));
    assert_eq!(v.pre, "alpha.1");
    assert!(!v.is_stable());
    assert!(Version::parse("1.2").is_err());
}

#[test]
fn parsed_requirement_keeps_comparators() {
    let r = req(">=1.2.0, <2");
    let list = r.comparators.iter_ref();
    assert_eq!(list.len(), 2);
    assert_eq!(list[0].op, Op::GreaterEq);
    assert_eq!((list[0].major, list[0].minor, list[0].patch), (1, Some(2), Some(0)));
    assert_eq!(list[1].op, Op::Less);
    assert_eq!((list[1].major, list[1].minor, list[1].patch), (2, None, None));
    assert!(VersionReq::from_str("not a requirement").is_err());
}

#[test]
fn star_accepts_every_stable_version() {
    assert!(req("*").comparators.is_empty());
    assert!(req("*").matches(&Version::new(0, 0, 1)));
    assert!(VersionReq::star().matches(&Version::new(9, 9, 9)));
}

#[test]
fn wildcard_is_exact_on_its_prefix() {
    assert!(req("1.*").matches(&Version::new(1, 7, 3)));
    assert!(!req("1.*").matches(&Version::new(2, 0, 0)));
    assert!(req("1.2.*").matches(&Version::new(1, 2, 9)));
    assert!(!req("1.2.*").matches(&Version::new(1, 3, 0)));
}

#[test]
fn comparison_operators_go_by_components_from_the_left() {
    assert!(req(">1.2.3").matches(&Version::new(1, 2, 4)));
    assert!(!req(">1.2.3").matches(&Version::new(1, 2, 3)));
    assert!(req(">=1.2.3").matches(&Version::new(1, 2, 3)));
    assert!(req("<1.2.3").matches(&Version::new(1, 1, 9)));
    assert!(!req("<1.2.3").matches(&Version::new(1, 2, 3)));
    assert!(req("<=1.2.3").matches(&Version::new(1, 2, 3)));
    assert!(req("=1.2.3").matches(&Version::new(1, 2, 3)));
    assert!(!req("=1.2.3").matches(&Version::new(1, 2, 4)));
    assert!(req(">1").matches(&Version::new(2, 0, 0)));
    assert!(!req(">1").matches(&Version::new(1, 9, 0)));
}

#[test]
fn caret_below_minor_one_is_exact() {
    assert!(req("^0.0.3").matches(&Version::new(0, 0, 3)));
    assert!(!req("^0.0.3").matches(&Version::new(0, 0, 4)));
    assert!(req("^0.0").matches(&Version::new(0, 0, 9)));
    assert!(req("^1").matches(&Version::new(1, 9, 9)));
}

#[test]
fn pre_release_needs_a_comparator_with_a_tag() {
    let alpha = version("1.0.0-alpha.2");
    assert!(!req("^1.0.0").matches(&alpha));
    assert!(req(">=1.0.0-alpha.1").matches(&alpha));
    assert!(!req(">=1.0.0-alpha.3").matches(&alpha));
    assert!(req(">=1.0.0-alpha.1").matches(&Version::new(1, 0, 0)));
    assert!(!req("<1.0.0-beta").matches(&version("1.0.0-rc.1")));
    assert!(req("<1.0.0-beta").matches(&alpha));
    assert!(req("=1.0.0-alpha.2").matches(&alpha));
}

#[test]
fn numeric_tags_compare_as_numbers() {
    assert!(req(">1.0.0-alpha.9").matches(&version("1.0.0-alpha.10")));
    assert!(!req(">1.0.0-alpha.10").matches(&version("1.0.0-alpha.9")));
}

#[test]
fn compatible_requirement_is_the_caret_of_the_version() {
    let r = compatible_req(&Version::new(1, 4, 2));
    let list = r.comparators.iter_ref();
    assert_eq!(list.len(), 1);
    assert_eq!(list[0].op, Op::Caret);
    assert_eq!((list[0].major, list[0].minor, list[0].patch), (1, Some(4), Some(2)));
    assert!(r.matches(&Version::new(1, 9, 0)));
    assert!(!r.matches(&Version::new(1, 4, 1)));
}

#[test]
fn handmade_comparator_matches_like_a_parsed_one() {
    let made = VersionReq {
        comparators: cargo_tally::arena::Slice::from(vec![Comparator {
            op: Op::Tilde,
            major: 1,
            minor: Some(2),
            patch: None,
            pre: String::new(),
        }]),
    };
    assert!(made.matches(&Version::new(1, 2, 8)));
    assert!(!made.matches(&Version::new(1, 3, 0)));
}

#[test]
fn old_version_texts_are_corrected() {
    assert!(Version::parse("0.0.1-001").is_err());
    let v = compat::version("0.0.1-001").ok().unwrap();
    assert_eq!((v.major, v.minor, v.patch, v.pre.as_str()), (0, 0, 1, "1"));
    let v = compat::version("0.4.0-alpha.00").ok().unwrap();
    assert_eq!(v.pre, "alpha.0");
    assert!(compat::version("0.0.1-002").is_err());
    assert_eq!(compat::version("1.2.3").ok().unwrap().patch, 3);
}

#[test]
fn old_requirement_texts_are_corrected() {
    let r = compat::version_req("~2.0-2.2").ok().unwrap();
    assert!(r.matches(&Version::new(2, 1, 0)));
    assert!(!r.matches(&Version::new(2, 3, 0)));
    let r = compat::version_req("^0-.11.0").ok().unwrap();
    assert!(r.matches(&Version::new(0, 11, 4)));
    assert!(compat::version_req("^0-.12.0").is_err());
}

#[test]
fn stable_version_stands_above_every_tag() {
    let stable = Version::new(1, 2, 3);
    assert!(req("^1.2.3").matches(&stable));
    assert!(req("~1.2.3").matches(&stable));
    assert!(req(">=1.2.3").matches(&stable));
    assert!(req("<=1.2.3").matches(&stable));
    assert!(!req(">1.2.3").matches(&stable));
    assert!(!req("<1.2.3").matches(&stable));
    assert!(req("^1.2.3-beta").matches(&stable));
    assert!(req("~1.2.3-rc.1").matches(&stable));
    assert!(req(">1.2.3-beta").matches(&stable));
    assert!(!req("<1.2.3-beta").matches(&stable));
    assert!(!req("<=1.2.3-beta").matches(&stable));
    assert!(!req("=1.2.3-beta").matches(&stable));
    let tagged = version("1.2.3-beta");
    assert!(req("<1.2.3, >=1.2.3-alpha").matches(&tagged));
    assert!(!req(">=1.2.3, >=1.2.3-alpha").matches(&tagged));
}
