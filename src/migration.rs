//! Planning a migration of vendored packages from their old location to the
//! managed one: which packages take part, which versions are pinned, how the
//! resolved packages pair with the old ones, and which local customizations
//! are carried over.

use crate::license::{glob_match, glob_matches};
use crate::text::{position_of, same_text, text_set};
use crate::version::{semver_parse, SemVer};
use vstd::prelude::*;

verus! {

/// Where a vendored package came from.
#[derive(Clone, Copy, Debug, PartialEq, Eq, Structural)]
pub enum Origin {
    /// Published on the package registry.
    Registry,
    /// Written locally; never migrated.
    Local,
}

/// A vendored package.
pub struct Package {
    pub name: String,
    pub version: String,
    /// The package root, relative to the repository root.
    pub path: String,
    pub origin: Origin,
}

/// The packages of one tree. At most one entry has a given name.
pub struct PackageCollection {
    pub packages: Vec<Package>,
}

/// Names are unique.
pub open spec fn unique_names(ps: Seq<Package>) -> bool {
    forall|i: int, j: int| 0 <= i < ps.len() && 0 <= j < ps.len() && i != j ==> ps[i].name@ != ps[j].name@
}

pub open spec fn is_registry_package(p: Package) -> bool {
    p.origin == Origin::Registry
}

pub open spec fn registry_package() -> spec_fn(Package) -> bool {
    |p: Package| is_registry_package(p)
}

impl PackageCollection {
    pub open spec fn wf(&self) -> bool {
        unique_names(self.packages@)
    }

    /// Drops every locally written package; registry packages stay, in order.
    pub fn retain_registry_packages(&mut self)
        ensures
            final(self).packages@ == old(self).packages@.filter(registry_package()),
            old(self).wf() ==> final(self).wf(),
    {
        let mut kept: Vec<Package> = Vec::new();
        let ghost all = self.packages@;
        let n = self.packages.len();
        let mut i: usize = 0;
        while i < n
            invariant
                all == old(self).packages@,
                n == all.len(),
                0 <= i <= n,
                self.packages@ == all.subrange(i as int, n as int),
                kept@ == all.subrange(0, i as int).filter(registry_package()),
            decreases n - i,
        {
            let p = self.packages.remove(0);
            assert(p == all[i as int]);
            assert(all.subrange(0, i + 1) == all.subrange(0, i as int).push(p));
            assert(self.packages@ =~= all.subrange(i + 1, n as int));
            proof {
                all.subrange(0, i as int).lemma_filter_push(p, registry_package());
            }
            if matches!(p.origin, Origin::Registry) {
                kept.push(p);
            }
            i = i + 1;
        }
        assert(all.subrange(0, n as int) == all);
        self.packages = kept;
        proof {
            if old(self).wf() {
                lemma_filter_unique(all);
            }
        }
    }
}

proof fn lemma_filter_unique(ps: Seq<Package>)
    requires
        unique_names(ps),
    ensures
        unique_names(ps.filter(registry_package())),
    decreases ps.len(),
{
    broadcast use vstd::seq_lib::group_filter_ensures;

    if ps.len() > 0 {
        let init = ps.drop_last();
        assert(unique_names(init));
        lemma_filter_unique(init);
        let f = init.filter(registry_package());
        assert(ps == init.push(ps.last()));
        init.lemma_filter_push(ps.last(), registry_package());
        assert forall|i: int| 0 <= i < f.len() implies f[i].name@ != ps.last().name@ by {
            assert(f.contains(f[i]));
            init.lemma_filter_contains_rev(registry_package(), f[i]);
            let j = choose|j: int| 0 <= j < init.len() && init[j] == f[i];
            assert(ps[j] == init[j]);
        }
    }
}

/// Why a migration step could not go on.
#[derive(Debug)]
pub enum MigrationError {
    /// A package to be pinned has a version that does not parse.
    UnparsableVersion(String),
    /// A package to be pinned has a prerelease version, which is not eligible.
    PrereleaseVersion(String),
    /// A customization would land on a file that already exists.
    Conflict(String),
}

/// The synthetic manifest that pins each package to be vendored.
pub struct PseudoPackage {
    /// (name, version) pairs, in the order of the source collection.
    pub pins: Vec<(String, String)>,
}

impl PseudoPackage {
    pub open spec fn pin_view(&self) -> Seq<(Seq<char>, Seq<char>)> {
        self.pins@.map_values(|p: (String, String)| (p.0@, p.1@))
    }
}

/// A package takes part in the migration: it comes from the registry and
/// the policy does not exclude it.
pub open spec fn is_pinned(p: Package, excluded: Set<Seq<char>>) -> bool {
    is_registry_package(p) && !excluded.contains(p.name@)
}

pub open spec fn pinned(excluded: Set<Seq<char>>) -> spec_fn(Package) -> bool {
    |p: Package| is_pinned(p, excluded)
}

/// The pins for a sequence of packages.
pub open spec fn pins_of(ps: Seq<Package>) -> Seq<(Seq<char>, Seq<char>)> {
    ps.map_values(|p: Package| (p.name@, p.version@))
}

/// A version text that parses with an empty prerelease marker: the one
/// version of the package that is eligible.
pub open spec fn is_release_text(v: Seq<char>) -> bool {
    semver_parse(v) matches Some(p) && p.3.len() == 0
}

/// Pins every registry package of `source` that `excluded` does not name, at
/// its version. Fails, naming the package, when a version to be pinned does
/// not parse or is a prerelease.
pub fn pin_versions(source: &PackageCollection, excluded: &Vec<String>) -> (r: Result<
    PseudoPackage,
    MigrationError,
>)
    ensures
        match r {
            Ok(pp) => pp.pin_view() == pins_of(
                source.packages@.filter(pinned(text_set(excluded@))),
            ) && forall|i: int|
                0 <= i < source.packages@.len() && is_pinned(
                    #[trigger] source.packages@[i],
                    text_set(excluded@),
                ) ==> is_release_text(source.packages@[i].version@),
            Err(MigrationError::UnparsableVersion(n)) => exists|i: int|
                0 <= i < source.packages@.len() && is_pinned(
                    #[trigger] source.packages@[i],
                    text_set(excluded@),
                ) && semver_parse(source.packages@[i].version@) is None && n@
                    == source.packages@[i].name@,
            Err(MigrationError::PrereleaseVersion(n)) => exists|i: int|
                0 <= i < source.packages@.len() && is_pinned(
                    #[trigger] source.packages@[i],
                    text_set(excluded@),
                ) && semver_parse(source.packages@[i].version@) is Some && !is_release_text(
                    source.packages@[i].version@,
                ) && n@ == source.packages@[i].name@,
            Err(_) => false,
        },
{
    let ghost ex = text_set(excluded@);
    let ghost ps = source.packages@;
    let mut pins: Vec<(String, String)> = Vec::new();
    let n = source.packages.len();
    for i in 0..n
        invariant
            n == ps.len(),
            ps == source.packages@,
            ex == text_set(excluded@),
            pins@.map_values(|p: (String, String)| (p.0@, p.1@)) == pins_of(
                ps.subrange(0, i as int).filter(pinned(ex)),
            ),
            forall|j: int|
                0 <= j < i && is_pinned(#[trigger] ps[j], ex) ==> is_release_text(ps[j].version@),
    {
        let p = &source.packages[i];
        assert(ps.subrange(0, i + 1) == ps.subrange(0, i as int).push(*p));
        proof {
            ps.subrange(0, i as int).lemma_filter_push(*p, pinned(ex));
        }
        let ghost before = pins@;
        let skip = match position_of(excluded, p.name.as_str()) {
            Some(_) => true,
            None => false,
        };
        assert(skip == ex.contains(p.name@));
        if matches!(p.origin, Origin::Registry) && !skip {
            match SemVer::parse(p.version.as_str()) {
                None => {
                    return Err(MigrationError::UnparsableVersion(p.name.clone()));
                },
                Some(v) => {
                    if !v.is_release_version() {
                        return Err(MigrationError::PrereleaseVersion(p.name.clone()));
                    }
                },
            }
            pins.push((p.name.clone(), p.version.clone()));
            assert(pins@.map_values(|p: (String, String)| (p.0@, p.1@)) =~= before.map_values(
                |p: (String, String)| (p.0@, p.1@),
            ).push((p.name@, p.version@)));
            assert(pins_of(ps.subrange(0, i + 1).filter(pinned(ex))) =~= pins_of(
                ps.subrange(0, i as int).filter(pinned(ex)),
            ).push((p.name@, p.version@)));
        }
    }
    assert(ps.subrange(0, n as int) == ps);
    Ok(PseudoPackage { pins })
}

/// `m` pairs each destination package with the first source package of the
/// same name, and with nothing where the source has none.
pub open spec fn pairs_by_name(source: Seq<Package>, dest: Seq<Package>, m: Seq<Option<usize>>) -> bool {
    &&& m.len() == dest.len()
    &&& forall|d: int|
        0 <= d < dest.len() ==> match #[trigger] m[d] {
            Some(s) => s < source.len() && source[s as int].name@ == dest[d].name@ && forall|t: int|
                0 <= t < s ==> source[t].name@ != dest[d].name@,
            None => forall|t: int| 0 <= t < source.len() ==> source[t].name@ != dest[d].name@,
        }
}

/// The position of the first package called `name`.
fn find_named(ps: &Vec<Package>, name: &str) -> (r: Option<usize>)
    ensures
        match r {
            Some(s) => s < ps@.len() && ps@[s as int].name@ == name@ && forall|t: int|
                0 <= t < s ==> ps@[t].name@ != name@,
            None => forall|t: int| 0 <= t < ps@.len() ==> ps@[t].name@ != name@,
        },
{
    let n = ps.len();
    for i in 0..n
        invariant
            n == ps@.len(),
            forall|t: int| 0 <= t < i ==> ps@[t].name@ != name@,
    {
        if same_text(ps[i].name.as_str(), name) {
            return Some(i);
        }
    }
    None
}

/// A source package and the destination package that replaces it.
pub struct CompatibleVersionPair<'a> {
    pub source: &'a Package,
    pub dest: &'a Package,
}

/// The pairing, by name, of the packages of the old tree with those of the
/// newly resolved tree.
pub struct VersionMatch {
    pub source: PackageCollection,
    pub dest: PackageCollection,
    /// For each destination package, the position of its source package;
    /// `None` marks an addition.
    pub matches: Vec<Option<usize>>,
}

impl VersionMatch {
    pub open spec fn wf(&self) -> bool {
        pairs_by_name(self.source.packages@, self.dest.packages@, self.matches@)
    }

    /// Pairs every destination package with the source package of the same
    /// name; one without is an addition, never an error. Versions may differ.
    pub fn new(source: PackageCollection, dest: PackageCollection) -> (r: VersionMatch)
        ensures
            r.wf(),
            r.source == source,
            r.dest == dest,
    {
        let mut matches: Vec<Option<usize>> = Vec::new();
        let n = dest.packages.len();
        for d in 0..n
            invariant
                n == dest.packages@.len(),
                matches@.len() == d,
                forall|e: int|
                    0 <= e < d ==> match #[trigger] matches@[e] {
                        Some(s) => s < source.packages@.len() && source.packages@[s as int].name@
                            == dest.packages@[e].name@ && forall|t: int|
                            0 <= t < s ==> source.packages@[t].name@ != dest.packages@[e].name@,
                        None => forall|t: int|
                            0 <= t < source.packages@.len() ==> source.packages@[t].name@
                                != dest.packages@[e].name@,
                    },
        {
            let m = find_named(&source.packages, dest.packages[d].name.as_str());
            matches.push(m);
        }
        VersionMatch { source, dest, matches }
    }

    /// `pair` joins the destination package at `d` with its source package.
    pub open spec fn is_pair_at(&self, pair: CompatibleVersionPair<'_>, d: int) -> bool {
        &&& 0 <= d < self.dest.packages@.len()
        &&& self.matches@[d] is Some
        &&& *pair.dest == self.dest.packages@[d]
        &&& *pair.source == self.source.packages@[self.matches@[d]->Some_0 as int]
    }

    /// The matched pairs, in the order of the destination tree.
    pub fn compatible_pairs(&self) -> (r: Vec<CompatibleVersionPair<'_>>)
        requires
            self.wf(),
        ensures
            r@.len() == matched_positions(self.matches@, self.matches@.len() as int).len(),
            forall|k: int|
                0 <= k < r@.len() ==> self.is_pair_at(
                    #[trigger] r@[k],
                    matched_positions(self.matches@, self.matches@.len() as int)[k],
                ),
    {
        let mut r: Vec<CompatibleVersionPair<'_>> = Vec::new();
        let n = self.matches.len();
        for d in 0..n
            invariant
                self.wf(),
                n == self.matches@.len(),
                r@.len() == matched_positions(self.matches@, d as int).len(),
                forall|k: int|
                    0 <= k < r@.len() ==> self.is_pair_at(
                        #[trigger] r@[k],
                        matched_positions(self.matches@, d as int)[k],
                    ),
        {
            let ghost before = r@;
            match self.matches[d] {
                Some(s) => {
                    r.push(CompatibleVersionPair { source: &self.source.packages[s], dest: &self.dest.packages[d] });
                    assert forall|k: int|
                        0 <= k < r@.len() implies self.is_pair_at(
                            #[trigger] r@[k],
                            matched_positions(self.matches@, d + 1)[k],
                        ) by {
                        if k < before.len() {
                            assert(r@[k] == before[k]);
                        }
                    }
                },
                None => {
                    assert forall|k: int|
                        0 <= k < r@.len() implies self.is_pair_at(
                            #[trigger] r@[k],
                            matched_positions(self.matches@, d + 1)[k],
                        ) by {
                        assert(r@[k] == before[k]);
                    }
                },
            }
        }
        r
    }

    /// The positions of the destination packages that have no source
    /// counterpart, in order.
    pub fn additions(&self) -> (r: Vec<usize>)
        ensures
            r@.map_values(|d: usize| d as int) == addition_positions(
                self.matches@,
                self.matches@.len() as int,
            ),
    {
        let mut r: Vec<usize> = Vec::new();
        let n = self.matches.len();
        for d in 0..n
            invariant
                n == self.matches@.len(),
                r@.map_values(|d: usize| d as int) == addition_positions(self.matches@, d as int),
        {
            let ghost before = r@;
            if self.matches[d].is_none() {
                r.push(d);
                assert(r@.map_values(|d: usize| d as int) =~= before.map_values(|d: usize| d as int).push(
                    d as int,
                ));
            }
        }
        r
    }
}

/// The positions, below `n`, of the destination packages that have a source
/// counterpart.
pub open spec fn matched_positions(m: Seq<Option<usize>>, n: int) -> Seq<int>
    decreases n,
{
    if n <= 0 {
        Seq::empty()
    } else if m[n - 1] is Some {
        matched_positions(m, n - 1).push(n - 1)
    } else {
        matched_positions(m, n - 1)
    }
}

/// The positions, below `n`, of the destination packages that are additions.
pub open spec fn addition_positions(m: Seq<Option<usize>>, n: int) -> Seq<int>
    decreases n,
{
    if n <= 0 {
        Seq::empty()
    } else if m[n - 1] is None {
        addition_positions(m, n - 1).push(n - 1)
    } else {
        addition_positions(m, n - 1)
    }
}

/// An entry of a package root in the old location.
pub struct SourceEntry {
    pub name: String,
    pub is_dir: bool,
    /// Where the entry points, when it is a symbolic link.
    pub link_target: Option<String>,
}

/// One action of copying customizations into the staged package.
#[derive(Debug)]
pub enum CopyStep {
    /// Copy a directory, recursively.
    CopyDir(String),
    /// Copy a file; nothing of that name exists at the destination.
    CopyFile(String),
    /// Create a symbolic link of the given name pointing at the given target.
    Symlink(String, String),
}

/// The entries that `pattern` matches, in order.
pub open spec fn matching(entries: Seq<SourceEntry>, pattern: Seq<char>) -> Seq<SourceEntry> {
    entries.filter(|e: SourceEntry| glob_matches(pattern, e.name@))
}

/// The entries to carry over, pattern by pattern: build descriptor
/// overrides, build-tool configuration, patches, metadata, test mapping and
/// module-license markers.
pub open spec fn customization_candidates(entries: Seq<SourceEntry>) -> Seq<SourceEntry> {
    matching(entries, "*.bp"@) + matching(entries, "cargo_embargo.json"@) + matching(entries, "patches"@)
        + matching(entries, "METADATA"@) + matching(entries, "TEST_MAPPING"@) + matching(
        entries,
        "MODULE_LICENSE_*"@,
    )
}

/// The names of a sequence of entries.
pub open spec fn entry_names(s: Seq<SourceEntry>) -> Set<Seq<char>> {
    Set::new(|x: Seq<char>| exists|i: int| 0 <= i < s.len() && s[i].name@ == x)
}

/// The copy steps for the candidates, or the name of the first file that
/// would land on an existing one (present at the destination, or copied
/// there by an earlier step).
pub open spec fn copy_plan(cands: Seq<SourceEntry>, existing: Set<Seq<char>>) -> Result<Seq<CopyStep>, Seq<char>>
    decreases cands.len(),
{
    if cands.len() == 0 {
        Ok(Seq::empty())
    } else {
        match copy_plan(cands.drop_last(), existing) {
            Err(e) => Err(e),
            Ok(steps) => {
                let e = cands.last();
                if e.is_dir {
                    Ok(steps.push(CopyStep::CopyDir(e.name)))
                } else if existing.contains(e.name@) || entry_names(cands.drop_last()).contains(e.name@) {
                    Err(e.name@)
                } else {
                    Ok(steps.push(CopyStep::CopyFile(e.name)))
                }
            },
        }
    }
}

/// The first entry called `name`.
pub open spec fn entry_named(entries: Seq<SourceEntry>, name: Seq<char>) -> Option<SourceEntry>
    decreases entries.len(),
{
    if entries.len() == 0 {
        None
    } else if entries[0].name@ == name {
        Some(entries[0])
    } else {
        entry_named(entries.drop_first(), name)
    }
}

/// Adds the step that recreates the link `name`, if the source has it as a
/// symbolic link; fails with `name` when something of that name is at the
/// destination already.
pub open spec fn link_plan(
    entries: Seq<SourceEntry>,
    taken: Set<Seq<char>>,
    steps: Result<Seq<CopyStep>, Seq<char>>,
    name: Seq<char>,
) -> Result<Seq<CopyStep>, Seq<char>> {
    match steps {
        Err(e) => Err(e),
        Ok(st) => match entry_named(entries, name) {
            Some(e) => match e.link_target {
                Some(t) => if taken.contains(name) {
                    Err(name)
                } else {
                    Ok(st.push(CopyStep::Symlink(e.name, t)))
                },
                None => Ok(st),
            },
            None => Ok(st),
        },
    }
}

/// The whole plan: the customizations, then the `LICENSE` and `NOTICE` links.
pub open spec fn customization_plan(entries: Seq<SourceEntry>, existing: Set<Seq<char>>) -> Result<
    Seq<CopyStep>,
    Seq<char>,
> {
    let cands = customization_candidates(entries);
    let taken = existing.union(entry_names(cands));
    link_plan(
        entries,
        taken,
        link_plan(entries, taken, copy_plan(cands, existing), "LICENSE"@),
        "NOTICE"@,
    )
}

/// Appends the entries that `pattern` matches.
fn append_matching<'a>(out: &mut Vec<&'a SourceEntry>, entries: &'a Vec<SourceEntry>, pattern: &str)
    ensures
        final(out)@.map_values(|e: &SourceEntry| *e) == old(out)@.map_values(|e: &SourceEntry| *e)
            + matching(entries@, pattern@),
{
    let ghost start = old(out)@.map_values(|e: &SourceEntry| *e);
    let ghost pred = |e: SourceEntry| glob_matches(pattern@, e.name@);
    let n = entries.len();
    for i in 0..n
        invariant
            n == entries@.len(),
            pred == (|e: SourceEntry| glob_matches(pattern@, e.name@)),
            out@.map_values(|e: &SourceEntry| *e) == start + entries@.subrange(0, i as int).filter(pred),
    {
        let e = &entries[i];
        assert(entries@.subrange(0, i + 1) == entries@.subrange(0, i as int).push(*e));
        proof {
            entries@.subrange(0, i as int).lemma_filter_push(*e, pred);
        }
        let ghost before = out@;
        if glob_match(pattern, e.name.as_str()) {
            out.push(e);
            assert(out@.map_values(|e: &SourceEntry| *e) =~= before.map_values(|e: &SourceEntry| *e).push(*e));
        }
    }
    assert(entries@.subrange(0, n as int) == entries@);
}

/// The entries that a sequence of references points to.
pub open spec fn deref_entries(s: Seq<&SourceEntry>) -> Seq<SourceEntry> {
    s.map_values(|e: &SourceEntry| *e)
}

/// Whether one of the first `k` entries is called `name`.
fn named_among(s: &Vec<&SourceEntry>, k: usize, name: &str) -> (r: bool)
    requires
        k <= s@.len(),
    ensures
        r == entry_names(deref_entries(s@).subrange(0, k as int)).contains(name@),
{
    let ghost pre = deref_entries(s@).subrange(0, k as int);
    for i in 0..k
        invariant
            k <= s@.len(),
            pre == deref_entries(s@).subrange(0, k as int),
            forall|j: int| 0 <= j < i ==> s@[j].name@ != name@,
    {
        if same_text(s[i].name.as_str(), name) {
            assert(pre[i as int] == *s@[i as int]);
            return true;
        }
    }
    assert forall|j: int| 0 <= j < pre.len() implies pre[j].name@ != name@ by {
        assert(pre[j] == *s@[j]);
    }
    false
}

/// The first entry called `name`.
fn find_entry<'a>(entries: &'a Vec<SourceEntry>, name: &str) -> (r: Option<&'a SourceEntry>)
    ensures
        match r {
            Some(e) => entry_named(entries@, name@) == Some(*e) && e.name@ == name@,
            None => entry_named(entries@, name@) is None,
        },
{
    let n = entries.len();
    let mut i: usize = 0;
    assert(entries@.subrange(0, n as int) == entries@);
    while i < n
        invariant
            n == entries@.len(),
            0 <= i <= n,
            entry_named(entries@, name@) == entry_named(entries@.subrange(i as int, n as int), name@),
        decreases n - i,
    {
        let ghost rest = entries@.subrange(i as int, n as int);
        assert(rest.drop_first() == entries@.subrange(i + 1, n as int));
        assert(rest[0] == entries@[i as int]);
        if same_text(entries[i].name.as_str(), name) {
            return Some(&entries[i]);
        }
        i = i + 1;
    }
    None
}

proof fn lemma_copy_plan_err(c: Seq<SourceEntry>, k: int, existing: Set<Seq<char>>)
    requires
        0 <= k <= c.len(),
        copy_plan(c.subrange(0, k), existing) is Err,
    ensures
        copy_plan(c, existing) == copy_plan(c.subrange(0, k), existing),
    decreases c.len() - k,
{
    if k < c.len() {
        assert(c.subrange(0, k + 1).drop_last() == c.subrange(0, k));
        lemma_copy_plan_err(c, k + 1, existing);
    } else {
        assert(c.subrange(0, k) == c);
    }
}

impl<'a> CompatibleVersionPair<'a> {
    /// Plans carrying the local customizations of the old package root over
    /// to the staged one. `entries` are the old root's entries, `existing`
    /// the names already present in the staged root. Nothing is planned
    /// when any step would overwrite: the conflicting name is returned.
    pub fn copy_customizations(&self, entries: &Vec<SourceEntry>, existing: &Vec<String>) -> (r: Result<
        Vec<CopyStep>,
        MigrationError,
    >)
        ensures
            match r {
                Ok(steps) => customization_plan(entries@, text_set(existing@)) == Ok::<
                    Seq<CopyStep>,
                    Seq<char>,
                >(steps@),
                Err(MigrationError::Conflict(n)) => customization_plan(entries@, text_set(existing@))
                    == Err::<Seq<CopyStep>, Seq<char>>(n@),
                Err(_) => false,
            },
    {
        let ghost ex = text_set(existing@);
        let mut cands: Vec<&SourceEntry> = Vec::new();
        append_matching(&mut cands, entries, "*.bp");
        append_matching(&mut cands, entries, "cargo_embargo.json");
        append_matching(&mut cands, entries, "patches");
        append_matching(&mut cands, entries, "METADATA");
        append_matching(&mut cands, entries, "TEST_MAPPING");
        append_matching(&mut cands, entries, "MODULE_LICENSE_*");
        let ghost cs = deref_entries(cands@);
        assert(cs =~= customization_candidates(entries@));
        let mut steps: Vec<CopyStep> = Vec::new();
        let m = cands.len();
        for i in 0..m
            invariant
                m == cands@.len(),
                cs == deref_entries(cands@),
                cs == customization_candidates(entries@),
                ex == text_set(existing@),
                copy_plan(cs.subrange(0, i as int), ex) == Ok::<Seq<CopyStep>, Seq<char>>(steps@),
        {
            let e = cands[i];
            let ghost sub = cs.subrange(0, i + 1);
            assert(sub.drop_last() == cs.subrange(0, i as int));
            assert(sub.last() == *e);
            if e.is_dir {
                steps.push(CopyStep::CopyDir(e.name.clone()));
            } else {
                let present = match position_of(existing, e.name.as_str()) {
                    Some(_) => true,
                    None => false,
                };
                assert(present == ex.contains(e.name@));
                if present || named_among(&cands, i, e.name.as_str()) {
                    assert(copy_plan(sub, ex) == Err::<Seq<CopyStep>, Seq<char>>(e.name@));
                    proof {
                        lemma_copy_plan_err(cs, i + 1, ex);
                    }
                    assert(cs.subrange(0, m as int) == cs);
                    assert(copy_plan(cs, ex) == Err::<Seq<CopyStep>, Seq<char>>(e.name@));
                    let ghost tk = ex.union(entry_names(cs));
                    let ghost x = e.name@;
                    assert(link_plan(entries@, tk, Err::<Seq<CopyStep>, Seq<char>>(x), "LICENSE"@) == Err::<Seq<CopyStep>, Seq<char>>(x));
                    assert(link_plan(entries@, tk, Err::<Seq<CopyStep>, Seq<char>>(x), "NOTICE"@) == Err::<Seq<CopyStep>, Seq<char>>(x));
                    assert(customization_plan(entries@, ex) == link_plan(entries@, tk, link_plan(entries@, tk, copy_plan(cs, ex), "LICENSE"@), "NOTICE"@));
                    return Err(MigrationError::Conflict(e.name.clone()));
                }
                steps.push(CopyStep::CopyFile(e.name.clone()));
            }
        }
        assert(cs.subrange(0, m as int) == cs);
        let links: [&str; 2] = ["LICENSE", "NOTICE"];
        let ghost taken = ex.union(entry_names(cs));
        assert(customization_plan(entries@, ex) == link_plan(entries@, taken, link_plan(entries@, taken, copy_plan(cs, ex), "LICENSE"@), "NOTICE"@));
        let ghost mut plan = Ok::<Seq<CopyStep>, Seq<char>>(steps@);
        proof {
            reveal_strlit("LICENSE");
            reveal_strlit("NOTICE");
        }
        for li in 0..2
            invariant
                links@ == seq!["LICENSE", "NOTICE"],
                plan == Ok::<Seq<CopyStep>, Seq<char>>(steps@),
                taken == ex.union(entry_names(cs)),
                ex == text_set(existing@),
                cs == deref_entries(cands@),
                m == cands@.len(),
                li == 0 ==> plan == copy_plan(cs, ex),
                li == 1 ==> plan == link_plan(entries@, taken, copy_plan(cs, ex), "LICENSE"@),
                li == 2 ==> plan == link_plan(entries@, taken, link_plan(entries@, taken, copy_plan(cs, ex), "LICENSE"@), "NOTICE"@),
                customization_plan(entries@, ex) == link_plan(entries@, taken, link_plan(entries@, taken, copy_plan(cs, ex), "LICENSE"@), "NOTICE"@),
        {
            let name = links[li];
            let ghost prev = plan;
            match find_entry(entries, name) {
                Some(e) => match &e.link_target {
                    Some(t) => {
                        let present = match position_of(existing, name) {
                            Some(_) => true,
                            None => false,
                        };
                        if present || named_among(&cands, m, name) {
                            assert(cs.subrange(0, m as int) == cs);
                            assert(taken.contains(name@));
                            assert(link_plan(entries@, taken, prev, name@) == Err::<Seq<CopyStep>, Seq<char>>(e.name@));
                            assert(link_plan(entries@, taken, Err::<Seq<CopyStep>, Seq<char>>(e.name@), "NOTICE"@) == Err::<Seq<CopyStep>, Seq<char>>(e.name@));
                            return Err(MigrationError::Conflict(e.name.clone()));
                        }
                        assert(cs.subrange(0, m as int) == cs);
                        steps.push(CopyStep::Symlink(e.name.clone(), t.clone()));
                    },
                    None => {},
                },
                None => {},
            }
            proof {
                plan = Ok(steps@);
                assert(plan == link_plan(entries@, taken, prev, name@));
            }
        }
        Ok(steps)
    }
}

/// A customization file that would land on an existing destination file
/// makes the whole plan fail, so nothing at the destination is touched.
pub proof fn colliding_file_fails_plan(entries: Seq<SourceEntry>, existing: Set<Seq<char>>, i: int)
    requires
        0 <= i < customization_candidates(entries).len(),
        !customization_candidates(entries)[i].is_dir,
        existing.contains(customization_candidates(entries)[i].name@),
    ensures
        customization_plan(entries, existing) is Err,
{
    let c = customization_candidates(entries);
    assert(c.subrange(0, i + 1).drop_last() == c.subrange(0, i));
    assert(c.subrange(0, i + 1).last() == c[i]);
    assert(copy_plan(c.subrange(0, i + 1), existing) is Err);
    lemma_copy_plan_err(c, i + 1, existing);
}

/// Each destination package is either paired with the source package of the
/// same name or, when the source has none, is an addition.
pub proof fn destination_paired_or_added(vm: VersionMatch, d: int)
    requires
        vm.wf(),
        0 <= d < vm.dest.packages@.len(),
    ensures
        match vm.matches@[d] {
            Some(s) => s < vm.source.packages@.len() && vm.source.packages@[s as int].name@
                == vm.dest.packages@[d].name@,
            None => forall|t: int|
                0 <= t < vm.source.packages@.len() ==> vm.source.packages@[t].name@
                    != vm.dest.packages@[d].name@,
        },
{
    assert(match vm.matches@[d] {
        Some(s) => s < vm.source.packages@.len() && vm.source.packages@[s as int].name@
            == vm.dest.packages@[d].name@ && forall|t: int|
            0 <= t < s ==> vm.source.packages@[t].name@ != vm.dest.packages@[d].name@,
        None => forall|t: int|
            0 <= t < vm.source.packages@.len() ==> vm.source.packages@[t].name@
                != vm.dest.packages@[d].name@,
    });
}

} // verus!
