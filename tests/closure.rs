use pkgdu::closure::ResolutionSet;
use pkgdu::index::{Dep, DepMod, Package, PackageIndex, Provide, Version};
use pkgdu::report::Report;

fn dep(name: &str, depmod: DepMod, version: Option<Version>) -> Dep {
    Dep { name: name.to_string(), depmod, version }
}

fn on(name: &str) -> Dep {
    dep(name, DepMod::Any, None)
}

fn pkg(name: &str, size: i64, depends: Vec<Dep>, provides: Vec<Provide>) -> Package {
    Package {
        name: name.to_string(),
        installed_size: size,
        description: String::new(),
        depends,
        provides,
    }
}

fn names(v: &[&str]) -> Vec<String> {
    v.iter().map(|s| s.to_string()).collect()
}

// A -> B -> C, C -> A (a cycle), D -> libx (provided by E), F alone
fn sample() -> PackageIndex {
    PackageIndex::new(vec![
        pkg("A", 100, vec![on("B")], vec![]),
        pkg("B", 50, vec![on("C")], vec![]),
        pkg("C", 25, vec![on("A")], vec![]),
        pkg("D", 10, vec![on("libx"), on("missing")], vec![]),
        pkg("E", 5, vec![], vec![Provide { name: "libx".to_string(), version: None }]),
        pkg("F", 1, vec![], vec![]),
    ])
    .unwrap()
}

#[test]
fn closure_follows_dependencies() {
    let index = PackageIndex::new(vec![pkg("A", 100, vec![on("B")], vec![]), pkg("B", 50, vec![], vec![])]).unwrap();
    assert_eq!(Report::recursive_deps(&index, &names(&["A"])), names(&["A", "B"]));
}

#[test]
fn closure_skips_unresolved_dependency() {
    let v = Version { text: "1.0".to_string(), rank: 0 };
    let index = PackageIndex::new(vec![
        pkg("A", 100, vec![dep("C", DepMod::Ge, Some(v))], vec![]),
        pkg("B", 50, vec![], vec![]),
    ])
    .unwrap();
    assert_eq!(Report::recursive_deps(&index, &names(&["A"])), names(&["A"]));
}

#[test]
fn closure_handles_cycles_and_provides() {
    let index = sample();
    assert_eq!(Report::recursive_deps(&index, &names(&["B"])), names(&["A", "B", "C"]));
    assert_eq!(Report::recursive_deps(&index, &names(&["D"])), names(&["D", "E"]));
    assert_eq!(Report::recursive_deps(&index, &names(&["F", "F"])), names(&["F"]));
}

#[test]
fn closure_drops_seeds_not_installed() {
    let index = sample();
    assert_eq!(Report::recursive_deps(&index, &names(&["nope"])), Vec::<String>::new());
    assert_eq!(Report::recursive_deps(&index, &names(&["nope", "E"])), names(&["E"]));
    assert_eq!(Report::recursive_deps(&index, &names(&[])), Vec::<String>::new());
}

#[test]
fn closure_is_idempotent() {
    let index = sample();
    for seeds in [names(&["B"]), names(&["D", "F"]), names(&["nope", "C"])] {
        let once = Report::recursive_deps(&index, &seeds);
        let twice = Report::recursive_deps(&index, &once);
        assert_eq!(once, twice);
    }
}

#[test]
fn closure_contains_installed_seeds() {
    let index = sample();
    let seeds = names(&["F", "D", "C"]);
    let result = Report::recursive_deps(&index, &seeds);
    for s in &seeds {
        assert!(result.contains(s));
    }
}

#[test]
fn closure_is_deterministic() {
    let index = sample();
    let seeds = names(&["D", "A"]);
    assert_eq!(Report::recursive_deps(&index, &seeds), Report::recursive_deps(&index, &seeds));
}

#[test]
fn one_pass_at_a_time() {
    let index = sample();
    let start = ResolutionSet::from_seeds(&names(&["A", "nope"]));
    assert_eq!(start.lookup(&"A".to_string()), Some(false));
    assert_eq!(start.lookup(&"nope".to_string()), Some(false));
    assert!(!start.is_fully_expanded());

    let first = start.expand_pass(&index);
    assert_eq!(first.lookup(&"A".to_string()), Some(true));
    assert_eq!(first.lookup(&"B".to_string()), Some(false));
    assert_eq!(first.lookup(&"nope".to_string()), None);
    assert_eq!(first.lookup(&"C".to_string()), None);

    let second = first.expand_pass(&index);
    assert_eq!(second.lookup(&"B".to_string()), Some(true));
    assert_eq!(second.lookup(&"C".to_string()), Some(false));

    let third = second.expand_pass(&index);
    assert_eq!(third.lookup(&"C".to_string()), Some(true));
    assert!(third.is_fully_expanded());
    let fourth = third.expand_pass(&index);
    assert_eq!(fourth.lookup(&"A".to_string()), Some(true));
    assert!(fourth.is_fully_expanded());
}
