use pkgdu::args::{Arguments, SortColumn};
use pkgdu::index::{Dep, DepMod, Package, PackageIndex, Version};
use pkgdu::report::{BuildError, PkgDiskUsage, Report};

fn on(name: &str) -> Dep {
    Dep { name: name.to_string(), depmod: DepMod::Any, version: None }
}

fn pkg(name: &str, size: i64, depends: Vec<Dep>) -> Package {
    Package {
        name: name.to_string(),
        installed_size: size,
        description: format!("about {name}"),
        depends,
        provides: vec![],
    }
}

fn args(pattern: Option<&str>) -> Arguments {
    Arguments {
        pkgname_pattern: pattern.map(|s| s.to_string()),
        exclude_pattern: None,
        regex: false,
        recursive_depends_on: false,
        sort: SortColumn::InstalledSizeDescending,
        description: false,
        si_unit: false,
        total: false,
        quiet: false,
    }
}

fn built(index: &PackageIndex, a: Arguments) -> Vec<PkgDiskUsage> {
    let mut report = Report::new(a);
    report.build(index).unwrap();
    report.pkgs
}

fn shown(rows: &[PkgDiskUsage]) -> Vec<(String, i64)> {
    rows.iter().map(|r| (r.name.clone(), r.installed_size)).collect()
}

fn pairs(v: &[(&str, i64)]) -> Vec<(String, i64)> {
    v.iter().map(|(n, s)| (n.to_string(), *s)).collect()
}

fn two() -> PackageIndex {
    PackageIndex::new(vec![pkg("A", 100, vec![on("B")]), pkg("B", 50, vec![])]).unwrap()
}

// A -> B, A -> C, plus unrelated packages of equal sizes
fn sample() -> PackageIndex {
    PackageIndex::new(vec![
        pkg("lib-z", 30, vec![]),
        pkg("A", 100, vec![on("B"), on("C")]),
        pkg("B", 50, vec![]),
        pkg("C", 30, vec![]),
        pkg("lib-y", 30, vec![]),
    ])
    .unwrap()
}

#[test]
fn recursive_report_sorted_by_size() {
    let mut a = args(Some("A"));
    a.recursive_depends_on = true;
    let rows = built(&two(), a);
    assert_eq!(shown(&rows), pairs(&[("A", 100), ("B", 50)]));
}

#[test]
fn recursion_needs_a_pattern() {
    let mut a = args(None);
    a.recursive_depends_on = true;
    a.sort = SortColumn::NameAscending;
    let rows = built(&two(), a);
    assert_eq!(shown(&rows), pairs(&[("A", 100), ("B", 50)]));
}

#[test]
fn without_recursion_only_matches() {
    let rows = built(&two(), args(Some("A")));
    assert_eq!(shown(&rows), pairs(&[("A", 100)]));
}

#[test]
fn quiet_gives_only_the_total() {
    let mut a = args(Some("A"));
    a.recursive_depends_on = true;
    a.quiet = true;
    let rows = built(&two(), a);
    assert_eq!(shown(&rows), pairs(&[("(TOTAL)", 150)]));
    assert_eq!(rows[0].description, "");
}

#[test]
fn exclude_applies_after_closure() {
    let mut a = args(Some("A"));
    a.recursive_depends_on = true;
    a.exclude_pattern = Some(vec!["B".to_string()]);
    a.total = true;
    a.sort = SortColumn::NameAscending;
    let rows = built(&sample(), a);
    assert_eq!(shown(&rows), pairs(&[("A", 100), ("C", 30), ("(TOTAL)", 130)]));
}

#[test]
fn total_does_not_depend_on_sort_or_quiet() {
    let sorts = [
        SortColumn::NameAscending,
        SortColumn::NameDescending,
        SortColumn::InstalledSizeAscending,
        SortColumn::InstalledSizeDescending,
    ];
    for sort in sorts {
        for quiet in [false, true] {
            let mut a = args(None);
            a.sort = sort;
            a.total = !quiet;
            a.quiet = quiet;
            let rows = built(&sample(), a);
            let last = rows.last().unwrap();
            assert_eq!(last.name, "(TOTAL)");
            assert_eq!(last.installed_size, 240);
            assert_eq!(rows.len(), if quiet { 1 } else { 6 });
        }
    }
}

#[test]
fn sort_orders_and_ties() {
    let mut a = args(None);
    a.sort = SortColumn::NameAscending;
    assert_eq!(
        shown(&built(&sample(), a.clone())),
        pairs(&[("A", 100), ("B", 50), ("C", 30), ("lib-y", 30), ("lib-z", 30)])
    );
    a.sort = SortColumn::NameDescending;
    assert_eq!(
        shown(&built(&sample(), a.clone())),
        pairs(&[("lib-z", 30), ("lib-y", 30), ("C", 30), ("B", 50), ("A", 100)])
    );
    // equal sizes keep the enumeration order
    a.sort = SortColumn::InstalledSizeAscending;
    assert_eq!(
        shown(&built(&sample(), a.clone())),
        pairs(&[("lib-z", 30), ("C", 30), ("lib-y", 30), ("B", 50), ("A", 100)])
    );
    a.sort = SortColumn::InstalledSizeDescending;
    assert_eq!(
        shown(&built(&sample(), a)),
        pairs(&[("A", 100), ("B", 50), ("lib-z", 30), ("C", 30), ("lib-y", 30)])
    );
}

#[test]
fn name_order_is_by_bytes() {
    let index = PackageIndex::new(vec![
        pkg("b", 1, vec![]),
        pkg("B", 1, vec![]),
        pkg("é", 1, vec![]),
        pkg("a", 1, vec![]),
        pkg("ab", 1, vec![]),
    ])
    .unwrap();
    let mut a = args(None);
    a.sort = SortColumn::NameAscending;
    let got: Vec<String> = built(&index, a).into_iter().map(|r| r.name).collect();
    assert_eq!(got, vec!["B", "a", "ab", "b", "é"]);
}

#[test]
fn descriptions_only_when_asked() {
    let mut a = args(Some("B"));
    let rows = built(&two(), a.clone());
    assert_eq!(rows[0].description, "");
    a.description = true;
    a.si_unit = true;
    let rows = built(&two(), a);
    assert_eq!(rows[0].description, "about B");
    assert!(rows[0].si_unit);
}

#[test]
fn glob_patterns() {
    let index = sample();
    let got = |p: &str| -> Vec<String> {
        let mut a = args(Some(p));
        a.sort = SortColumn::NameAscending;
        built(&index, a).into_iter().map(|r| r.name).collect()
    };
    assert_eq!(got("lib-*"), vec!["lib-y", "lib-z"]);
    assert_eq!(got("lib-?"), vec!["lib-y", "lib-z"]);
    assert_eq!(got("?"), vec!["A", "B", "C"]);
    assert_eq!(got("*"), vec!["A", "B", "C", "lib-y", "lib-z"]);
    assert_eq!(got("lib"), Vec::<String>::new());
    assert_eq!(got("*-z"), vec!["lib-z"]);
}

#[test]
fn regex_patterns() {
    let index = sample();
    let mut a = args(Some("^lib"));
    a.regex = true;
    a.sort = SortColumn::NameAscending;
    a.exclude_pattern = Some(vec!["y$".to_string(), "^nothing$".to_string()]);
    let got: Vec<String> = built(&index, a).into_iter().map(|r| r.name).collect();
    assert_eq!(got, vec!["lib-z"]);
}

#[test]
fn invalid_regex_pattern() {
    let mut a = args(Some("lib("));
    a.regex = true;
    let mut report = Report::new(a);
    let err = report.build(&sample()).unwrap_err();
    assert!(matches!(err, BuildError::InvalidPattern { ref pattern, ref message } if pattern == "lib(" && !message.is_empty()));
    assert!(report.pkgs.is_empty());
    // the same text is a valid glob
    let rows = built(&sample(), args(Some("lib(")));
    assert!(rows.is_empty());
}

#[test]
fn invalid_exclude_pattern() {
    let mut a = args(None);
    a.regex = true;
    a.exclude_pattern = Some(vec!["ok".to_string(), "[".to_string()]);
    let mut report = Report::new(a);
    let err = report.build(&sample()).unwrap_err();
    assert!(matches!(err, BuildError::InvalidExclude { ref pattern, .. } if pattern == "["));
}

#[test]
fn new_takes_the_options() {
    let mut a = args(Some("x"));
    a.quiet = true;
    let report = Report::new(a);
    assert!(report.total);
    assert!(report.quiet);
    assert!(report.pkgs.is_empty());
    assert_eq!(report.pkgname_pattern, Some("x".to_string()));
}

#[test]
fn installed_size_as_text() {
    let row = |size: i64, si_unit: bool| PkgDiskUsage {
        name: "x".to_string(),
        installed_size: size,
        description: String::new(),
        si_unit,
    };
    assert_eq!(row(1024, false).display_installed_size(), "1 KiB");
    assert_eq!(row(1000, true).display_installed_size(), "1 kB");
    assert_eq!(row(1536, false).display_installed_size(), "1.50 KiB");
}

#[test]
fn version_rank_in_report_dependencies() {
    let v = |t: &str, r: u64| Version { text: t.to_string(), rank: r };
    let index = PackageIndex::new(vec![
        Package {
            name: "app".to_string(),
            installed_size: 7,
            description: String::new(),
            depends: vec![Dep { name: "libfoo".to_string(), depmod: DepMod::Ge, version: Some(v("1.5", 1)) }],
            provides: vec![],
        },
        Package {
            name: "foo-impl".to_string(),
            installed_size: 3,
            description: String::new(),
            depends: vec![],
            provides: vec![pkgdu::index::Provide { name: "libfoo".to_string(), version: Some(v("2.0", 2)) }],
        },
    ])
    .unwrap();
    let mut a = args(Some("app"));
    a.recursive_depends_on = true;
    a.total = true;
    assert_eq!(shown(&built(&index, a)), pairs(&[("app", 7), ("foo-impl", 3), ("(TOTAL)", 10)]));
}
