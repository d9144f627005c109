use crate_health::migration::{
    pin_versions, CompatibleVersionPair, CopyStep, MigrationError, Origin, Package,
    PackageCollection, SourceEntry, VersionMatch,
};

fn s(x: &str) -> String {
    x.to_string()
}

fn package(name: &str, version: &str, origin: Origin) -> Package {
    Package { name: s(name), version: s(version), path: format!("external/{}", name), origin }
}

fn file(name: &str) -> SourceEntry {
    SourceEntry { name: s(name), is_dir: false, link_target: None }
}

fn dir(name: &str) -> SourceEntry {
    SourceEntry { name: s(name), is_dir: true, link_target: None }
}

fn link(name: &str, target: &str) -> SourceEntry {
    SourceEntry { name: s(name), is_dir: false, link_target: Some(s(target)) }
}

fn names(ps: &PackageCollection) -> Vec<&str> {
    ps.packages.iter().map(|p| p.name.as_str()).collect()
}

#[test]
fn scan_keeps_registry_packages() {
    let mut c = PackageCollection {
        packages: vec![
            package("a", "1.0.0", Origin::Registry),
            package("local", "0.1.0", Origin::Local),
            package("b", "2.0.0", Origin::Registry),
        ],
    };
    c.retain_registry_packages();
    assert_eq!(names(&c), vec!["a", "b"]);
}

#[test]
fn pins_skip_excluded_and_local() {
    let c = PackageCollection {
        packages: vec![
            package("a", "1.0.0", Origin::Registry),
            package("local", "0.1.0", Origin::Local),
            package("skipped", "bad version", Origin::Registry),
            package("b", "2.0.0", Origin::Registry),
        ],
    };
    let pp = pin_versions(&c, &vec![s("skipped")]).unwrap();
    assert_eq!(pp.pins, vec![(s("a"), s("1.0.0")), (s("b"), s("2.0.0"))]);
}

#[test]
fn pin_with_unparsable_version_fails() {
    let c = PackageCollection { packages: vec![package("a", "not.a.version", Origin::Registry)] };
    match pin_versions(&c, &vec![]) {
        Err(MigrationError::UnparsableVersion(n)) => assert_eq!(n, "a"),
        _ => panic!("expected an unparsable version"),
    }
}

#[test]
fn pin_with_prerelease_version_fails() {
    let c = PackageCollection { packages: vec![package("a", "1.0.0-rc.1", Origin::Registry)] };
    match pin_versions(&c, &vec![]) {
        Err(MigrationError::PrereleaseVersion(n)) => assert_eq!(n, "a"),
        _ => panic!("expected a prerelease version"),
    }
}

#[test]
fn match_pairs_by_name_and_marks_additions() {
    let source = PackageCollection {
        packages: vec![package("a", "1.0.0", Origin::Registry), package("b", "1.0.0", Origin::Registry)],
    };
    let dest = PackageCollection {
        packages: vec![
            package("b", "1.1.0", Origin::Registry),
            package("new", "0.1.0", Origin::Registry),
            package("a", "1.0.0", Origin::Registry),
        ],
    };
    let vm = VersionMatch::new(source, dest);
    assert_eq!(vm.matches, vec![Some(1), None, Some(0)]);
    assert_eq!(vm.additions(), vec![1]);
    let pairs = vm.compatible_pairs();
    assert_eq!(pairs.len(), 2);
    assert_eq!(pairs[0].source.name, "b");
    assert_eq!(pairs[0].dest.version, "1.1.0");
    assert_eq!(pairs[1].dest.name, "a");
}

fn pair_plan(entries: &Vec<SourceEntry>, existing: &Vec<String>) -> Result<Vec<CopyStep>, MigrationError> {
    let src = package("a", "1.0.0", Origin::Registry);
    let dst = package("a", "1.0.0", Origin::Registry);
    CompatibleVersionPair { source: &src, dest: &dst }.copy_customizations(entries, existing)
}

#[test]
fn customizations_are_planned_in_pattern_order() {
    let entries = vec![
        file("Android.bp"),
        file("Cargo.toml"),
        file("METADATA"),
        file("MODULE_LICENSE_APACHE2"),
        dir("patches"),
        file("cargo_embargo.json"),
        link("LICENSE", "LICENSE-APACHE"),
        file("src"),
    ];
    let steps = pair_plan(&entries, &vec![s("Cargo.toml"), s("src")]).unwrap();
    let shown: Vec<String> = steps
        .iter()
        .map(|st| match st {
            CopyStep::CopyDir(n) => format!("dir {}", n),
            CopyStep::CopyFile(n) => format!("file {}", n),
            CopyStep::Symlink(n, t) => format!("link {} -> {}", n, t),
        })
        .collect();
    assert_eq!(
        shown,
        vec![
            "file Android.bp",
            "file cargo_embargo.json",
            "dir patches",
            "file METADATA",
            "file MODULE_LICENSE_APACHE2",
            "link LICENSE -> LICENSE-APACHE",
        ]
    );
}

#[test]
fn colliding_customization_fails_before_any_copy() {
    let entries = vec![file("Android.bp"), file("METADATA")];
    match pair_plan(&entries, &vec![s("METADATA")]) {
        Err(MigrationError::Conflict(n)) => assert_eq!(n, "METADATA"),
        _ => panic!("expected a conflict"),
    }
}

#[test]
fn colliding_symlink_fails() {
    let entries = vec![link("NOTICE", "LICENSE")];
    match pair_plan(&entries, &vec![s("NOTICE")]) {
        Err(MigrationError::Conflict(n)) => assert_eq!(n, "NOTICE"),
        _ => panic!("expected a conflict"),
    }
    assert_eq!(pair_plan(&entries, &vec![]).unwrap().len(), 1);
}

#[test]
fn end_to_end_migration_plan() {
    let mut source = PackageCollection {
        packages: vec![package("foo", "1.2.0", Origin::Registry), package("bar", "0.1.0", Origin::Local)],
    };
    source.retain_registry_packages();
    assert_eq!(names(&source), vec!["foo"]);

    let pseudo = pin_versions(&source, &vec![]).unwrap();
    assert_eq!(pseudo.pins, vec![(s("foo"), s("1.2.0"))]);

    let dest = PackageCollection { packages: vec![package("foo", "1.2.0", Origin::Registry)] };
    let vm = VersionMatch::new(source, dest);
    assert_eq!(names(&vm.dest), vec!["foo"]);
    let pairs = vm.compatible_pairs();
    assert_eq!(pairs.len(), 1);

    let entries = vec![file("Android.bp"), file("Cargo.toml")];
    let steps = pairs[0].copy_customizations(&entries, &vec![s("Cargo.toml")]).unwrap();
    assert_eq!(steps.len(), 1);
    assert!(matches!(&steps[0], CopyStep::CopyFile(n) if n == "Android.bp"));
}
