use crate_health::platform::{
    is_android, predicate_relevant, DependencyFilter, IsAndroid, NewDeps, PlatformPredicate,
};
use crate_health::registry::{Dependency, DependencyKind, Version};

fn dep(name: &str, req: &str, kind: DependencyKind, optional: bool, target: Option<&str>) -> Dependency {
    Dependency {
        crate_name: name.to_string(),
        requirement: req.to_string(),
        kind,
        optional,
        default_features: true,
        target: target.map(|t| t.to_string()),
    }
}

#[test]
fn test_android_cfgs() {
    assert!(!is_android("asmjs-unknown-emscripten"), "Parse error");

    assert!(!is_android("cfg(windows)"));
    assert!(is_android("cfg(unix)"));

    assert!(!is_android(r#"cfg(target_os = "redox")"#));

    assert!(!is_android(r#"cfg(target_arch = "wasm32")"#));
    assert!(is_android(r#"cfg(any(target_os = "linux", target_os = "android"))"#));
    assert!(is_android(
        r#"cfg(any(all(target_arch = "arm", target_pointer_width = "32"), target_arch = "mips", target_arch = "powerpc"))"#
    ));
    assert!(!is_android(
        r#"cfg(all(target_arch = "wasm32", target_vendor = "unknown", target_os = "unknown"))"#
    ));
    assert!(is_android("cfg(tracing_unstable)"));
    assert!(is_android(r#"cfg(any(unix, target_os = "wasi"))"#));
    assert!(is_android(r#"cfg(not(all(target_arch = "arm", target_os = "none")))"#))
}

#[test]
fn predicates_follow_policy() {
    assert!(predicate_relevant(&PlatformPredicate::Family("unix".to_string())));
    assert!(!predicate_relevant(&PlatformPredicate::Family("windows".to_string())));
    assert!(predicate_relevant(&PlatformPredicate::Os("android".to_string())));
    assert!(predicate_relevant(&PlatformPredicate::Os("linux".to_string())));
    assert!(!predicate_relevant(&PlatformPredicate::Os("redox".to_string())));
    for arch in ["arm", "aarch64", "riscv32", "riscv64", "x86", "x86_64"] {
        assert!(predicate_relevant(&PlatformPredicate::Arch(arch.to_string())));
    }
    assert!(!predicate_relevant(&PlatformPredicate::Arch("wasm32".to_string())));
    assert!(predicate_relevant(&PlatformPredicate::Other));
}

#[test]
fn target_expressions_table() {
    assert!(is_android(r#"cfg(target_os = "android")"#));
    assert!(is_android(r#"cfg(target_arch = "aarch64")"#));
    assert!(!is_android(r#"cfg(not(unix))"#));
    assert!(!is_android(r#"cfg(all(unix, target_arch = "wasm32"))"#));
    assert!(is_android(r#"cfg(any(windows, target_os = "linux"))"#));
    assert!(is_android(r#"cfg(feature = "foo")"#));
    assert!(!is_android(r#"cfg(not(any(unix, windows)))"#));
    assert!(!is_android("cfg(all(unix"));
}

#[test]
fn deeply_nested_target_does_not_apply() {
    let wide = format!("cfg(any({}))", vec!["not(windows)"; 256].join(","));
    assert!(!is_android(&wide));
    let narrow = format!("cfg(any({}))", vec!["not(windows)"; 200].join(","));
    assert!(is_android(&narrow));
}

#[test]
fn dependency_without_target_applies() {
    assert!(dep("a", "1", DependencyKind::Normal, false, None).is_android());
    assert!(!dep("a", "1", DependencyKind::Normal, false, Some("cfg(windows)")).is_android());
    assert!(!dep("a", "1", DependencyKind::Normal, false, Some("not a cfg(")).is_android());
}

fn sample_version() -> Version {
    Version {
        name: "pkg".to_string(),
        version: "1.0.0".to_string(),
        yanked: false,
        dependencies: vec![
            dep("normal", "1.0", DependencyKind::Normal, false, None),
            dep("dev", "1.0", DependencyKind::Dev, false, None),
            dep("build", "1.0", DependencyKind::Build, false, Some("cfg(unix)")),
            dep("optional", "1.0", DependencyKind::Normal, true, Some("cfg(unix)")),
            dep("windows_only", "1.0", DependencyKind::Normal, false, Some("cfg(windows)")),
            dep("linux_only", "^0.2", DependencyKind::Normal, false, Some(r#"cfg(target_os = "linux")"#)),
            dep("bad_req", "not a requirement", DependencyKind::Normal, false, None),
        ],
    }
}

#[test]
fn android_deps_exclude_dev_build_optional() {
    let v = sample_version();
    let names: Vec<&str> = v.android_deps().iter().map(|d| d.crate_name.as_str()).collect();
    assert_eq!(names, vec!["normal", "linux_only", "bad_req"]);
}

#[test]
fn android_deps_with_reqs_drop_unparsable() {
    let v = sample_version();
    let deps = v.android_deps_with_version_reqs();
    let names: Vec<&str> = deps.iter().map(|(d, _)| d.crate_name.as_str()).collect();
    assert_eq!(names, vec!["normal", "linux_only"]);
    assert_eq!(deps[1].1, semver::VersionReq::parse("^0.2").unwrap());
}

#[test]
fn new_and_changed_dependencies() {
    let base = vec![
        ("same".to_string(), "1.0".to_string()),
        ("changed".to_string(), "1.0".to_string()),
    ];
    let same = dep("same", "1.0", DependencyKind::Normal, false, None);
    let changed = dep("changed", "2.0", DependencyKind::Normal, false, None);
    let fresh = dep("fresh", "1.0", DependencyKind::Normal, false, None);
    assert!(!same.is_new_dep(&base));
    assert!(!same.is_changed_dep(&base));
    assert!(!changed.is_new_dep(&base));
    assert!(changed.is_changed_dep(&base));
    assert!(fresh.is_new_dep(&base));
    assert!(fresh.is_changed_dep(&base));
}
