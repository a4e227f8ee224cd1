use cargo_tally::intern::{CrateKey, Interner};

#[test]
fn interner_gives_each_name_one_handle() {
    let mut names = Interner::new();
    let serde = names.crate_name("serde");
    let anyhow = names.crate_name("anyhow");
    assert_eq!(serde.index(), 0);
    assert_eq!(anyhow.index(), 1);
    assert_eq!(names.crate_name("serde"), serde);
    assert_ne!(serde, anyhow);
    assert_eq!(names.resolve(serde), Some("serde"));
    assert_eq!(names.resolve(anyhow), Some("anyhow"));
    let mut other = Interner::new();
    let only = other.crate_name("only");
    assert_eq!(other.resolve(anyhow), None);
    assert_eq!(other.resolve(only), Some("only"));
    let key = CrateKey::new(serde, 3);
    assert_eq!((key.name, key.index), (serde, 3));
}
