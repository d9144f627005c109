//! Per-package registry metadata: versions, their dependencies, the filtered
//! view over eligible versions, and a per-run cache of fetched packages.

use crate::text::same_text;
use crate::version::{semver_order, semver_parse, SemVer};
use std::cmp::Ordering;
use vstd::prelude::*;

verus! {

/// What a dependency is needed for.
#[derive(Clone, Copy, Debug, PartialEq, Eq, Structural)]
pub enum DependencyKind {
    Normal,
    Dev,
    Build,
}

/// One dependency of a package version, as the registry lists it.
pub struct Dependency {
    pub crate_name: String,
    pub requirement: String,
    pub kind: DependencyKind,
    pub optional: bool,
    pub default_features: bool,
    /// The platform target expression; `None` applies everywhere.
    pub target: Option<String>,
}

/// One published version of a package.
pub struct Version {
    pub name: String,
    pub version: String,
    pub yanked: bool,
    pub dependencies: Vec<Dependency>,
}

/// The components of a version's text, where semver accepts it.
pub open spec fn parsed(v: Version) -> Option<(u64, u64, u64, Seq<char>, Seq<char>)> {
    semver_parse(v.version@)
}

/// A version is eligible when it is not yanked and parses with an empty
/// prerelease marker.
pub open spec fn is_eligible(v: Version) -> bool {
    !v.yanked && match parsed(v) {
        Some(p) => p.3.len() == 0,
        None => false,
    }
}

/// `is_eligible`, as a predicate to filter by.
pub open spec fn eligible() -> spec_fn(Version) -> bool {
    |v: Version| is_eligible(v)
}

/// An eligible version strictly greater than `q`.
pub open spec fn is_eligible_above(v: Version, q: (u64, u64, u64, Seq<char>, Seq<char>)) -> bool {
    is_eligible(v) && semver_order(parsed(v)->Some_0, q) == Ordering::Greater
}

/// `is_eligible_above`, as a predicate to filter by.
pub open spec fn eligible_above(q: (u64, u64, u64, Seq<char>, Seq<char>)) -> spec_fn(Version) -> bool {
    |v: Version| is_eligible_above(v, q)
}

/// An eligible version equal to `q` in every component.
pub open spec fn is_eligible_equal(v: Version, q: (u64, u64, u64, Seq<char>, Seq<char>)) -> bool {
    is_eligible(v) && parsed(v) == Some(q)
}

/// The eligible version at `i` is not below any other eligible version.
pub open spec fn is_highest_at(vs: Seq<Version>, i: int) -> bool {
    &&& 0 <= i < vs.len()
    &&& is_eligible(vs[i])
    &&& forall|j: int|
        0 <= j < vs.len() && is_eligible(#[trigger] vs[j]) ==> semver_order(
            parsed(vs[j])->Some_0,
            parsed(vs[i])->Some_0,
        ) != Ordering::Greater
}

/// The versions that a sequence of references points to.
pub open spec fn deref_all(s: Seq<&Version>) -> Seq<Version> {
    s.map_values(|v: &Version| *v)
}

/// Why a package could not be had from the registry.
#[derive(Debug)]
pub enum FetchError {
    /// The package is absent from the registry or from the local cache.
    NotFound,
    /// The transport failed.
    Fetch(String),
    /// The registry's answer could not be read.
    Parse(String),
}

/// All versions of one package, as the registry lists them.
pub struct CratesIoCrate {
    pub name: String,
    pub versions: Vec<Version>,
}

/// Whether `v` is eligible, and its parsed form when it is.
fn eligible_parse(v: &Version) -> (r: Option<SemVer>)
    ensures
        r is Some <==> is_eligible(*v),
        r matches Some(s) ==> parsed(*v) == Some(s.parts()),
{
    if v.yanked {
        return None;
    }
    match SemVer::parse(v.version.as_str()) {
        Some(s) => {
            if s.is_release_version() {
                Some(s)
            } else {
                None
            }
        },
        None => None,
    }
}

impl CratesIoCrate {
    /// The eligible versions, in the registry's order.
    pub fn versions(&self) -> (r: Vec<&Version>)
        ensures
            deref_all(r@) == self.versions@.filter(eligible()),
    {
        let mut r: Vec<&Version> = Vec::new();
        let n = self.versions.len();
        for i in 0..n
            invariant
                n == self.versions@.len(),
                deref_all(r@) == self.versions@.subrange(0, i as int).filter(eligible()),
        {
            let v = &self.versions[i];
            assert(self.versions@.subrange(0, i + 1) == self.versions@.subrange(0, i as int).push(*v));
            let ghost before = r@;
            proof {
                self.versions@.subrange(0, i as int).lemma_filter_push(*v, eligible());
            }
            assert(eligible()(*v) == is_eligible(*v));
            if eligible_parse(v).is_some() {
                r.push(v);
                assert(deref_all(r@) =~= deref_all(before).push(*v));
            }
        }
        assert(self.versions@.subrange(0, n as int) == self.versions@);
        r
    }

    /// The eligible versions strictly greater than `version`, in the
    /// registry's order.
    pub fn versions_gt(&self, version: &SemVer) -> (r: Vec<&Version>)
        ensures
            deref_all(r@) == self.versions@.filter(eligible_above(version.parts())),
    {
        let ghost q = version.parts();
        let mut r: Vec<&Version> = Vec::new();
        let n = self.versions.len();
        for i in 0..n
            invariant
                n == self.versions@.len(),
                q == version.parts(),
                deref_all(r@) == self.versions@.subrange(0, i as int).filter(eligible_above(q)),
        {
            let v = &self.versions[i];
            assert(self.versions@.subrange(0, i + 1) == self.versions@.subrange(0, i as int).push(*v));
            let ghost before = r@;
            proof {
                self.versions@.subrange(0, i as int).lemma_filter_push(*v, eligible_above(q));
            }
            assert(eligible_above(q)(*v) == is_eligible_above(*v, q));
            match eligible_parse(v) {
                Some(s) => {
                    if matches!(s.compare(version), Ordering::Greater) {
                        r.push(v);
                        assert(deref_all(r@) =~= deref_all(before).push(*v));
                    }
                },
                None => {},
            }
        }
        assert(self.versions@.subrange(0, n as int) == self.versions@);
        r
    }

    /// The first eligible version equal to `version`; `None` when the version
    /// is unknown, yanked or a prerelease.
    pub fn get_version(&self, version: &SemVer) -> (r: Option<&Version>)
        ensures
            match r {
                Some(v) => exists|i: int|
                    0 <= i < self.versions@.len() && self.versions@[i] == *v
                        && is_eligible_equal(self.versions@[i], version.parts())
                        && forall|j: int|
                        0 <= j < i ==> !is_eligible_equal(#[trigger] self.versions@[j], version.parts()),
                None => forall|j: int|
                    0 <= j < self.versions@.len() ==> !is_eligible_equal(
                        #[trigger] self.versions@[j],
                        version.parts(),
                    ),
            },
    {
        let n = self.versions.len();
        for i in 0..n
            invariant
                n == self.versions@.len(),
                forall|j: int|
                    0 <= j < i ==> !is_eligible_equal(#[trigger] self.versions@[j], version.parts()),
        {
            let v = &self.versions[i];
            match eligible_parse(v) {
                Some(s) => {
                    if s.same_as(version) {
                        return Some(v);
                    }
                },
                None => {},
            }
        }
        None
    }

    /// The first eligible version that no eligible version exceeds; `None`
    /// when there is none.
    pub fn highest_version(&self) -> (r: Option<&Version>)
        ensures
            match r {
                Some(v) => exists|i: int| is_highest_at(self.versions@, i) && self.versions@[i] == *v,
                None => forall|i: int| !is_highest_at(self.versions@, i),
            },
    {
        let n = self.versions.len();
        for i in 0..n
            invariant
                n == self.versions@.len(),
                forall|k: int| 0 <= k < i ==> !is_highest_at(self.versions@, k),
        {
            let v = &self.versions[i];
            match eligible_parse(v) {
                Some(s) => {
                    let mut top = true;
                    let mut j: usize = 0;
                    while j < n
                        invariant
                            n == self.versions@.len(),
                            0 <= j <= n,
                            i < n,
                            parsed(self.versions@[i as int]) == Some(s.parts()),
                            is_eligible(self.versions@[i as int]),
                            !top ==> !is_highest_at(self.versions@, i as int),
                            top ==> forall|k: int|
                                0 <= k < j && is_eligible(#[trigger] self.versions@[k])
                                    ==> semver_order(parsed(self.versions@[k])->Some_0, s.parts())
                                    != Ordering::Greater,
                        decreases n - j,
                    {
                        if top {
                            match eligible_parse(&self.versions[j]) {
                                Some(o) => {
                                    if matches!(o.compare(&s), Ordering::Greater) {
                                        top = false;
                                    }
                                },
                                None => {},
                            }
                        }
                        j = j + 1;
                    }
                    if top {
                        return Some(v);
                    }
                },
                None => {},
            }
        }
        None
    }
}

/// A source of package metadata: the registry over the network, or the local
/// cache alone. The choice is made once, when the index is built.
pub trait CratesIoFetcher {
    fn fetch(&self, crate_name: &str) -> Result<CratesIoCrate, FetchError>;
}

/// The package cached under `name`, the first entry for it.
pub open spec fn cached_under(entries: Seq<(String, CratesIoCrate)>, name: Seq<char>) -> Option<
    CratesIoCrate,
>
    decreases entries.len(),
{
    if entries.len() == 0 {
        None
    } else if entries[0].0@ == name {
        Some(entries[0].1)
    } else {
        cached_under(entries.drop_first(), name)
    }
}

/// Package metadata by name, fetched at most once per name and kept for the
/// lifetime of the index.
pub struct CratesIoIndex<F: CratesIoFetcher> {
    cache: Vec<(String, CratesIoCrate)>,
    fetcher: F,
}

impl<F: CratesIoFetcher> CratesIoIndex<F> {
    /// What is cached, in the order it was fetched.
    pub closed spec fn entries(&self) -> Seq<(String, CratesIoCrate)> {
        self.cache@
    }

    pub open spec fn cached(&self, name: Seq<char>) -> Option<CratesIoCrate> {
        cached_under(self.entries(), name)
    }

    /// Each name is cached at most once.
    pub closed spec fn wf(&self) -> bool {
        forall|i: int, j: int|
            0 <= i < self.cache@.len() && 0 <= j < self.cache@.len() && i != j ==> self.cache@[i].0@
                != self.cache@[j].0@
    }

    /// An index with an empty cache that fetches through `fetcher`.
    pub fn new(fetcher: F) -> (r: Self)
        ensures
            r.wf(),
            r.entries().len() == 0,
    {
        CratesIoIndex { cache: Vec::new(), fetcher }
    }

    /// The position of the entry cached under `crate_name`.
    fn find_cached(&self, crate_name: &str) -> (r: Option<usize>)
        ensures
            match r {
                Some(i) => i < self.entries().len() && self.cached(crate_name@) == Some(
                    self.entries()[i as int].1,
                ),
                None => self.cached(crate_name@) is None,
            },
    {
        let n = self.cache.len();
        let mut i: usize = 0;
        assert(self.cache@.subrange(0, n as int) == self.cache@);
        while i < n
            invariant
                n == self.cache@.len(),
                0 <= i <= n,
                cached_under(self.cache@, crate_name@) == cached_under(
                    self.cache@.subrange(i as int, n as int),
                    crate_name@,
                ),
            decreases n - i,
        {
            let ghost rest = self.cache@.subrange(i as int, n as int);
            assert(rest.drop_first() == self.cache@.subrange(i + 1, n as int));
            if same_text(self.cache[i].0.as_str(), crate_name) {
                assert(rest[0] == self.cache@[i as int]);
                return Some(i);
            }
            i = i + 1;
        }
        None
    }

    /// Records what a fetch of the uncached `crate_name` gave: a package is
    /// cached under that name and returned; an error is passed on and
    /// nothing is cached.
    pub fn record_fetch(&mut self, crate_name: &str, fetched: Result<CratesIoCrate, FetchError>) -> (r:
        Result<&CratesIoCrate, FetchError>)
        requires
            old(self).wf(),
            old(self).cached(crate_name@) is None,
        ensures
            final(self).wf(),
            match fetched {
                Ok(c) => r matches Ok(k) && *k == c && final(self).entries() == old(self).entries().push(
                    (final(self).entries().last().0, c),
                ) && final(self).entries().last().0@ == crate_name@ && final(self).cached(crate_name@)
                    == Some(c),
                Err(e) => r matches Err(e2) && e2 == e && final(self).entries() == old(self).entries(),
            },
    {
        match fetched {
            Ok(krate) => {
                let n = self.cache.len();
                let ghost before = self.cache@;
                proof {
                    lemma_uncached_absent(before, crate_name@);
                }
                self.cache.push((crate_name.to_string(), krate));
                proof {
                    lemma_cached_after_push(before, self.cache@.last(), crate_name@);
                    assert forall|i: int, j: int|
                        0 <= i < self.cache@.len() && 0 <= j < self.cache@.len() && i != j implies self.cache@[i].0@
                            != self.cache@[j].0@ by {
                        if i < n && j < n {
                            assert(self.cache@[i] == before[i] && self.cache@[j] == before[j]);
                        } else if i < n {
                            assert(self.cache@[i] == before[i]);
                        } else {
                            assert(self.cache@[j] == before[j]);
                        }
                    }
                }
                Ok(&self.cache[n].1)
            },
            Err(e) => Err(e),
        }
    }

    /// The package called `crate_name`. A cached package is returned as it
    /// is and nothing is fetched; otherwise it is fetched once and the
    /// outcome recorded by `record_fetch`.
    pub fn get_crate(&mut self, crate_name: &str) -> (r: Result<&CratesIoCrate, FetchError>)
        requires
            old(self).wf(),
        ensures
            final(self).wf(),
            old(self).cached(crate_name@) matches Some(c) ==> r matches Ok(k) && *k == c
                && final(self).entries() == old(self).entries(),
            old(self).cached(crate_name@) is None ==> match r {
                Ok(k) => final(self).entries() == old(self).entries().push(
                    (final(self).entries().last().0, *k),
                ) && final(self).entries().last().0@ == crate_name@
                    && final(self).cached(crate_name@) == Some(*k),
                Err(_) => final(self).entries() == old(self).entries(),
            },
    {
        match self.find_cached(crate_name) {
            Some(i) => Ok(&self.cache[i].1),
            None => {
                let fetched = self.fetcher.fetch(crate_name);
                self.record_fetch(crate_name, fetched)
            },
        }
    }
}

proof fn lemma_uncached_absent(entries: Seq<(String, CratesIoCrate)>, name: Seq<char>)
    requires
        cached_under(entries, name) is None,
    ensures
        forall|i: int| 0 <= i < entries.len() ==> entries[i].0@ != name,
    decreases entries.len(),
{
    if entries.len() > 0 {
        lemma_uncached_absent(entries.drop_first(), name);
        assert forall|i: int| 0 <= i < entries.len() implies entries[i].0@ != name by {
            if i > 0 {
                assert(entries[i] == entries.drop_first()[i - 1]);
            }
        }
    }
}

proof fn lemma_cached_after_push(
    entries: Seq<(String, CratesIoCrate)>,
    e: (String, CratesIoCrate),
    name: Seq<char>,
)
    requires
        cached_under(entries, name) is None,
        e.0@ == name,
    ensures
        cached_under(entries.push(e), name) == Some(e.1),
    decreases entries.len(),
{
    if entries.len() > 0 {
        assert(entries.push(e).drop_first() == entries.drop_first().push(e));
        lemma_cached_after_push(entries.drop_first(), e, name);
    }
}

/// No version in the filtered listing is yanked, and each parses as a
/// semantic version with an empty prerelease marker.
pub proof fn listing_has_no_yanked_or_prerelease(vs: Seq<Version>)
    ensures
        forall|i: int|
            0 <= i < vs.filter(eligible()).len() ==> {
                let v = #[trigger] vs.filter(eligible())[i];
                &&& !v.yanked
                &&& parsed(v) is Some
                &&& parsed(v)->Some_0.3.len() == 0
            },
{
    broadcast use vstd::seq_lib::group_filter_ensures;

    assert forall|i: int| 0 <= i < vs.filter(eligible()).len() implies is_eligible(
        #[trigger] vs.filter(eligible())[i],
    ) by {
        assert(eligible()(vs.filter(eligible())[i]));
    }
}

/// Exact-match lookup never finds a version for a prerelease query, nor a
/// yanked version.
pub proof fn exact_match_skips_prerelease_and_yanked(vs: Seq<Version>, q: (u64, u64, u64, Seq<char>, Seq<char>))
    ensures
        q.3.len() > 0 ==> forall|i: int| 0 <= i < vs.len() ==> !is_eligible_equal(#[trigger] vs[i], q),
        forall|i: int| 0 <= i < vs.len() && (#[trigger] vs[i]).yanked ==> !is_eligible_equal(vs[i], q),
{
}

} // verus!
