use std::cell::Cell;
use std::rc::Rc;

use crate_health::registry::{CratesIoCrate, CratesIoFetcher, CratesIoIndex, FetchError, Version};
use crate_health::version::SemVer;

fn version(v: &str, yanked: bool) -> Version {
    Version { name: "pkg".to_string(), version: v.to_string(), yanked, dependencies: vec![] }
}

fn sample() -> CratesIoCrate {
    CratesIoCrate {
        name: "pkg".to_string(),
        versions: vec![
            version("1.0.0", false),
            version("1.1.0", true),
            version("2.0.0-beta.1", false),
            version("bogus", false),
            version("1.2.0", false),
            version("0.9.0", false),
        ],
    }
}

fn texts(vs: &[&Version]) -> Vec<String> {
    vs.iter().map(|v| v.version.clone()).collect()
}

#[test]
fn listing_skips_yanked_prerelease_and_unparsable() {
    let c = sample();
    assert_eq!(texts(&c.versions()), vec!["1.0.0", "1.2.0", "0.9.0"]);
}

#[test]
fn versions_greater_than() {
    let c = sample();
    let q = SemVer::parse("1.0.0").unwrap();
    assert_eq!(texts(&c.versions_gt(&q)), vec!["1.2.0"]);
    let q = SemVer::parse("0.1.0").unwrap();
    assert_eq!(texts(&c.versions_gt(&q)), vec!["1.0.0", "1.2.0", "0.9.0"]);
    let q = SemVer::parse("1.2.0-rc.1").unwrap();
    assert_eq!(texts(&c.versions_gt(&q)), vec!["1.2.0"]);
}

#[test]
fn exact_lookup() {
    let c = sample();
    let found = c.get_version(&SemVer::parse("1.2.0").unwrap()).unwrap();
    assert_eq!(found.version, "1.2.0");
    assert!(c.get_version(&SemVer::parse("1.1.0").unwrap()).is_none());
    assert!(c.get_version(&SemVer::parse("2.0.0-beta.1").unwrap()).is_none());
    assert!(c.get_version(&SemVer::parse("3.0.0").unwrap()).is_none());
}

#[test]
fn highest_eligible_version() {
    let c = sample();
    assert_eq!(c.highest_version().unwrap().version, "1.2.0");
    let none = CratesIoCrate { name: "x".to_string(), versions: vec![version("1.0.0", true)] };
    assert!(none.highest_version().is_none());
}

#[test]
fn semver_parts_and_order() {
    let v = SemVer::parse("1.2.3-alpha.1+build.5").unwrap();
    assert_eq!((v.major, v.minor, v.patch), (1, 2, 3));
    assert_eq!(v.pre, "alpha.1");
    assert_eq!(v.build, "build.5");
    assert!(!v.is_release_version());
    assert!(SemVer::parse("1.2").is_none());
    let a = SemVer::parse("1.10.0").unwrap();
    let b = SemVer::parse("1.9.0").unwrap();
    assert_eq!(a.compare(&b), std::cmp::Ordering::Greater);
    assert_eq!(b.compare(&a), std::cmp::Ordering::Less);
    assert!(a.same_as(&SemVer::parse("1.10.0").unwrap()));
}

struct CountingFetcher {
    calls: Rc<Cell<u32>>,
}

impl CratesIoFetcher for CountingFetcher {
    fn fetch(&self, crate_name: &str) -> Result<CratesIoCrate, FetchError> {
        self.calls.set(self.calls.get() + 1);
        if crate_name == "pkg" {
            Ok(sample())
        } else {
            Err(FetchError::NotFound)
        }
    }
}

#[test]
fn index_fetches_each_name_once() {
    let calls = Rc::new(Cell::new(0));
    let mut index = CratesIoIndex::new(CountingFetcher { calls: calls.clone() });
    assert_eq!(index.get_crate("pkg").unwrap().versions.len(), 6);
    assert_eq!(index.get_crate("pkg").unwrap().name, "pkg");
    assert!(matches!(index.get_crate("missing"), Err(FetchError::NotFound)));
    assert!(matches!(index.get_crate("missing"), Err(FetchError::NotFound)));
    assert_eq!(index.get_crate("pkg").unwrap().versions.len(), 6);
    assert_eq!(calls.get(), 3);
}

#[test]
fn recorded_fetch_is_cached_and_errors_are_not() {
    let calls = Rc::new(Cell::new(0));
    let mut index = CratesIoIndex::new(CountingFetcher { calls: calls.clone() });
    assert!(matches!(index.record_fetch("gone", Err(FetchError::Fetch(s("down")))), Err(FetchError::Fetch(m)) if m == "down"));
    assert_eq!(index.record_fetch("pkg", Ok(sample())).unwrap().versions.len(), 6);
    assert_eq!(index.get_crate("pkg").unwrap().name, "pkg");
    assert_eq!(calls.get(), 0);
}

fn s(x: &str) -> String {
    x.to_string()
}
