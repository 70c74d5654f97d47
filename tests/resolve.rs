use pkgdu::index::{Dep, DepMod, IndexError, Package, PackageIndex, Provide, Version};
use pkgdu::report::Report;
use pkgdu::resolve::{version_satisfies, Unresolved};

fn ver(text: &str, rank: u64) -> Version {
    Version { text: text.to_string(), rank }
}

fn dep(name: &str, depmod: DepMod, version: Option<Version>) -> Dep {
    Dep { name: name.to_string(), depmod, version }
}

fn provide(name: &str, version: Option<Version>) -> Provide {
    Provide { name: name.to_string(), version }
}

fn pkg(name: &str, size: i64, depends: Vec<Dep>, provides: Vec<Provide>) -> Package {
    Package {
        name: name.to_string(),
        installed_size: size,
        description: format!("the {name} package"),
        depends,
        provides,
    }
}

// ranks of the versions 1.5 < 1.9 < 2.0 < 2.1
fn ranked(text: &str) -> Version {
    match text {
        "1.0" => ver(text, 0),
        "1.5" => ver(text, 1),
        "1.9" => ver(text, 2),
        "2.0" => ver(text, 3),
        "2.1" => ver(text, 4),
        _ => panic!("unranked version {text}"),
    }
}

fn satisfied(have: &str, depmod: DepMod, want: &str) -> bool {
    version_satisfies(&ranked(have), &dep("x", depmod, Some(ranked(want))))
}

#[test]
fn version_constraint_table() {
    assert!(!satisfied("1.9", DepMod::Ge, "2.0"));
    assert!(satisfied("2.0", DepMod::Ge, "2.0"));
    assert!(satisfied("2.1", DepMod::Ge, "2.0"));
    assert!(satisfied("1.9", DepMod::Lt, "2.0"));
    assert!(!satisfied("2.0", DepMod::Lt, "2.0"));
    assert!(satisfied("2.0", DepMod::Le, "2.0"));
    assert!(!satisfied("2.1", DepMod::Le, "2.0"));
    assert!(satisfied("2.1", DepMod::Gt, "2.0"));
    assert!(!satisfied("2.0", DepMod::Gt, "2.0"));
    assert!(satisfied("2.0", DepMod::Eq, "2.0"));
    assert!(!satisfied("2.1", DepMod::Eq, "2.0"));
    assert!(version_satisfies(&ranked("1.0"), &dep("x", DepMod::Any, None)));
}

#[test]
fn equal_ranks_are_equal_versions() {
    // "1:2.0" and "1:2.00" order alike, so they share a rank
    let have = ver("1:2.00", 9);
    let want = dep("x", DepMod::Eq, Some(ver("1:2.0", 9)));
    assert!(version_satisfies(&have, &want));
}

#[test]
fn resolve_through_provided_capability() {
    let index = PackageIndex::new(vec![
        pkg("D", 10, vec![], vec![provide("libfoo", Some(ranked("2.0")))]),
        pkg("E", 20, vec![dep("libfoo", DepMod::Ge, Some(ranked("1.5")))], vec![]),
    ])
    .unwrap();
    let e = &index.packages()[1];
    assert_eq!(Report::resolve_dep(&index, &e.depends[0]), Ok("D".to_string()));
}

#[test]
fn provide_too_old_falls_back_to_name() {
    let index = PackageIndex::new(vec![
        pkg("D", 10, vec![], vec![provide("libfoo", Some(ranked("1.0")))]),
        pkg("libfoo", 5, vec![], vec![]),
    ])
    .unwrap();
    let d = dep("libfoo", DepMod::Ge, Some(ranked("1.5")));
    assert_eq!(Report::resolve_dep(&index, &d), Ok("libfoo".to_string()));
}

#[test]
fn provide_is_preferred_to_name() {
    let index = PackageIndex::new(vec![
        pkg("libfoo", 5, vec![], vec![]),
        pkg("libfoo-git", 6, vec![], vec![provide("libfoo", None)]),
    ])
    .unwrap();
    let d = dep("libfoo", DepMod::Any, None);
    assert_eq!(Report::resolve_dep(&index, &d), Ok("libfoo-git".to_string()));
}

#[test]
fn first_provider_in_enumeration_order_wins() {
    let index = PackageIndex::new(vec![
        pkg("P1", 1, vec![], vec![provide("cap", Some(ranked("2.0")))]),
        pkg("P2", 1, vec![], vec![provide("cap", Some(ranked("2.1")))]),
    ])
    .unwrap();
    let d = dep("cap", DepMod::Ge, Some(ranked("1.5")));
    assert_eq!(Report::resolve_dep(&index, &d), Ok("P1".to_string()));
    let d = dep("cap", DepMod::Gt, Some(ranked("2.0")));
    assert_eq!(Report::resolve_dep(&index, &d), Ok("P2".to_string()));
}

#[test]
fn unresolved_dependency() {
    let index = PackageIndex::new(vec![pkg("A", 1, vec![], vec![])]).unwrap();
    let d = dep("C", DepMod::Ge, Some(ranked("1.0")));
    assert_eq!(
        Report::resolve_dep(&index, &d),
        Err(Unresolved { name: "C".to_string() })
    );
}

#[test]
fn index_rejects_duplicate_names() {
    let r = PackageIndex::new(vec![pkg("A", 1, vec![], vec![]), pkg("A", 2, vec![], vec![])]);
    assert!(matches!(r, Err(IndexError::DuplicateName(n)) if n == "A"));
}

#[test]
fn index_rejects_negative_size() {
    let r = PackageIndex::new(vec![pkg("A", -1, vec![], vec![])]);
    assert!(matches!(r, Err(IndexError::NegativeSize(n)) if n == "A"));
}

#[test]
fn index_rejects_malformed_dependency() {
    let r = PackageIndex::new(vec![pkg("A", 1, vec![dep("B", DepMod::Ge, None)], vec![])]);
    assert!(matches!(r, Err(IndexError::MalformedDependency(n)) if n == "A"));
    let r = PackageIndex::new(vec![pkg("A", 1, vec![dep("B", DepMod::Any, Some(ranked("1.0")))], vec![])]);
    assert!(matches!(r, Err(IndexError::MalformedDependency(n)) if n == "A"));
}

#[test]
fn index_rejects_size_overflow() {
    let r = PackageIndex::new(vec![
        pkg("A", i64::MAX, vec![], vec![]),
        pkg("B", 1, vec![], vec![]),
    ]);
    assert!(matches!(r, Err(IndexError::SizeOverflow)));
    let r = PackageIndex::new(vec![pkg("A", i64::MAX, vec![], vec![]), pkg("B", 0, vec![], vec![])]);
    assert!(r.is_ok());
}

#[test]
fn index_lookups() {
    let index = PackageIndex::new(vec![pkg("A", 1, vec![], vec![]), pkg("B", 2, vec![], vec![])]).unwrap();
    assert_eq!(index.list_all(), vec!["A".to_string(), "B".to_string()]);
    assert_eq!(index.position(&"B".to_string()), Some(1));
    assert_eq!(index.get(&"B".to_string()).map(|p| p.installed_size), Some(2));
    assert!(index.get(&"C".to_string()).is_none());
}
