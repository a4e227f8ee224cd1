use cargo_tally::version::{Version, VersionReq};

fn req(text: &str) -> VersionReq {
    match VersionReq::from_str(text) {
        Ok(req) => req,
        Err(err) => panic!("{}: {}", text, err),
    }
}

#[test]
fn caret_accepts_later_minor() {
    assert!(req("^1.2").matches(&Version::new(1, 3, 0)));
}

#[test]
fn caret_rejects_next_major() {
    assert!(!req("^1.2").matches(&Version::new(2, 0, 0)));
}

#[test]
fn caret_below_one_pins_minor() {
    assert!(!req("^0.2").matches(&Version::new(0, 3, 0)));
    assert!(req("^0.2").matches(&Version::new(0, 2, 7)));
}

#[test]
fn tilde_accepts_later_patch() {
    assert!(req("~1.2.3").matches(&Version::new(1, 2, 99)));
}

#[test]
fn tilde_rejects_next_minor() {
    assert!(!req("~1.2.3").matches(&Version::new(1, 3, 0)));
}
