//! Which dependencies matter when building for the target platform.

use crate::registry::{Dependency, DependencyKind, Version};
use crate::text::same_text;
use cfg_expr::{Predicate, TargetPredicate};
use vstd::prelude::*;

verus! {

/// One predicate of a target expression, as far as the platform policy reads it.
pub enum PlatformPredicate {
    /// `target_family`, and the bare `unix` and `windows`.
    Family(String),
    /// `target_os`.
    Os(String),
    /// `target_arch`.
    Arch(String),
    /// Every other kind of predicate.
    Other,
}

/// The architectures that the platform builds for.
pub open spec fn is_supported_arch(a: Seq<char>) -> bool {
    ||| a == "arm"@
    ||| a == "aarch64"@
    ||| a == "riscv32"@
    ||| a == "riscv64"@
    ||| a == "x86"@
    ||| a == "x86_64"@
}

/// Whether a single predicate holds on the platform. Kinds that the policy
/// does not name are taken to hold.
pub open spec fn predicate_holds(p: PlatformPredicate) -> bool {
    match p {
        PlatformPredicate::Family(f) => f@ == "unix"@,
        PlatformPredicate::Os(o) => o@ == "android"@ || o@ == "linux"@,
        PlatformPredicate::Arch(a) => is_supported_arch(a@),
        PlatformPredicate::Other => true,
    }
}

/// Decides one predicate of a target expression.
pub fn predicate_relevant(p: &PlatformPredicate) -> (r: bool)
    ensures
        r == predicate_holds(*p),
{
    match p {
        PlatformPredicate::Family(f) => same_text(f.as_str(), "unix"),
        PlatformPredicate::Os(o) => same_text(o.as_str(), "android") || same_text(o.as_str(), "linux"),
        PlatformPredicate::Arch(a) => {
            let a = a.as_str();
            same_text(a, "arm") || same_text(a, "aarch64") || same_text(a, "riscv32")
                || same_text(a, "riscv64") || same_text(a, "x86") || same_text(a, "x86_64")
        },
        PlatformPredicate::Other => true,
    }
}

/// The number of `(` in a text.
pub open spec fn open_parens(s: Seq<char>) -> nat
    decreases s.len(),
{
    if s.len() == 0 {
        0
    } else {
        open_parens(s.drop_last()) + if s.last() == '(' {
            1nat
        } else {
            0nat
        }
    }
}

/// cfg_expr counts the functions nested directly in one `any`, `all` or
/// `not` in a byte; each of them, and the enclosing one, opens a
/// parenthesis before the next is counted. A target with fewer `(` than
/// this stays within that count.
pub const MAX_OPEN_PARENS: usize = 256;

/// A target expression that cfg_expr can be handed.
pub open spec fn is_evaluable(target: Seq<char>) -> bool {
    open_parens(target) < MAX_OPEN_PARENS
}

/// Whether `target` holds fewer `(` than `MAX_OPEN_PARENS`.
pub fn evaluable(target: &str) -> (r: bool)
    ensures
        r == is_evaluable(target@),
{
    let n = target.unicode_len();
    let mut count: usize = 0;
    for i in 0..n
        invariant
            n == target@.len(),
            count == open_parens(target@.subrange(0, i as int)),
            count <= i,
    {
        assert(target@.subrange(0, i + 1).drop_last() == target@.subrange(0, i as int));
        if target.get_char(i) == '(' {
            count = count + 1;
        }
    }
    assert(target@.subrange(0, n as int) == target@);
    count < MAX_OPEN_PARENS
}

/// What cfg_expr makes of a target expression: `None` where it does not
/// parse, else the value of its `any`, `all` and `not` combinators over
/// predicates decided by `predicate_relevant`.
pub uninterp spec fn cfg_relevance(target: Seq<char>) -> Option<bool>;

/// Relies on cfg_expr's `Expression::parse` and `Expression::eval`; each
/// predicate is handed to `predicate_relevant`. The parser's count of
/// nested functions cannot overflow on an evaluable target.
#[verifier::external_body]
fn eval_target(target: &str) -> (r: Option<bool>)
    requires
        is_evaluable(target@),
    ensures
        r == cfg_relevance(target@),
{
    cfg_expr::Expression::parse(target).ok().map(|e| e.eval(|p| predicate_relevant(&match p {
        Predicate::Target(TargetPredicate::Family(f)) => PlatformPredicate::Family(f.as_str().to_string()),
        Predicate::Target(TargetPredicate::Os(o)) => PlatformPredicate::Os(o.as_str().to_string()),
        Predicate::Target(TargetPredicate::Arch(a)) => PlatformPredicate::Arch(a.as_str().to_string()),
        _ => PlatformPredicate::Other,
    })))
}

/// A target expression holds on the platform when it is evaluable and
/// evaluates to true. One that does not parse does not hold; nor does one
/// too deeply nested to be evaluated.
pub open spec fn target_holds(target: Seq<char>) -> bool {
    is_evaluable(target) && cfg_relevance(target) == Some(true)
}

/// Whether a target expression holds on the platform.
pub fn is_android(target: &str) -> (r: bool)
    ensures
        r == target_holds(target@),
{
    if !evaluable(target) {
        return false;
    }
    match eval_target(target) {
        Some(b) => b,
        None => false,
    }
}

/// A dependency applies on the platform when it has no target expression or
/// its expression holds.
pub open spec fn applies_on_platform(d: Dependency) -> bool {
    match d.target {
        None => true,
        Some(t) => target_holds(t@),
    }
}

/// A dependency must be built for the platform: a normal, non-optional
/// dependency that applies there.
pub open spec fn is_platform_dependency(d: Dependency) -> bool {
    d.kind == DependencyKind::Normal && !d.optional && applies_on_platform(d)
}

pub open spec fn platform_dependency() -> spec_fn(Dependency) -> bool {
    |d: Dependency| is_platform_dependency(d)
}

/// What semver's `VersionReq::parse` accepts.
pub uninterp spec fn version_req_parses(text: Seq<char>) -> bool;

#[verifier::external_type_specification]
#[verifier::external_body]
pub struct ExVersionReq(semver::VersionReq);

/// Relies on semver's `VersionReq::parse`: `None` exactly where it fails.
#[verifier::external_body]
fn parse_version_req(text: &str) -> (r: Option<semver::VersionReq>)
    ensures
        r is Some <==> version_req_parses(text@),
{
    semver::VersionReq::parse(text).ok()
}

pub open spec fn platform_dependency_with_req() -> spec_fn(Dependency) -> bool {
    |d: Dependency| is_platform_dependency(d) && version_req_parses(d.requirement@)
}

/// The dependencies that a sequence of references points to.
pub open spec fn deref_deps(s: Seq<&Dependency>) -> Seq<Dependency> {
    s.map_values(|d: &Dependency| *d)
}

/// The dependencies that a sequence of pairs holds first.
pub open spec fn deref_paired(s: Seq<(&Dependency, semver::VersionReq)>) -> Seq<Dependency> {
    s.map_values(|p: (&Dependency, semver::VersionReq)| *p.0)
}

/// Whether a dependency applies on the platform.
pub trait IsAndroid {
    spec fn applies(&self) -> bool;

    fn is_android(&self) -> (r: bool)
        ensures
            r == self.applies(),
    ;
}

impl IsAndroid for Dependency {
    open spec fn applies(&self) -> bool {
        applies_on_platform(*self)
    }

    fn is_android(&self) -> (r: bool) {
        match &self.target {
            None => true,
            Some(t) => is_android(t.as_str()),
        }
    }
}

/// The dependencies of a version that must be built for the platform.
pub trait DependencyFilter {
    spec fn all_dependencies(&self) -> Seq<Dependency>;

    /// Normal, non-optional dependencies that apply on the platform, in order.
    fn android_deps(&self) -> (r: Vec<&Dependency>)
        ensures
            deref_deps(r@) == self.all_dependencies().filter(platform_dependency()),
    ;

    /// As `android_deps`, each with its parsed requirement; a dependency whose
    /// requirement does not parse is left out.
    fn android_deps_with_version_reqs(&self) -> (r: Vec<(&Dependency, semver::VersionReq)>)
        ensures
            deref_paired(r@) == self.all_dependencies().filter(platform_dependency_with_req()),
    ;
}

impl DependencyFilter for Version {
    open spec fn all_dependencies(&self) -> Seq<Dependency> {
        self.dependencies@
    }

    fn android_deps(&self) -> (r: Vec<&Dependency>) {
        let deps = &self.dependencies;
        let mut r: Vec<&Dependency> = Vec::new();
        let n = deps.len();
        for i in 0..n
            invariant
                n == deps@.len(),
                deps == &self.dependencies,
                deref_deps(r@) == deps@.subrange(0, i as int).filter(platform_dependency()),
        {
            let d = &deps[i];
            assert(deps@.subrange(0, i + 1) == deps@.subrange(0, i as int).push(*d));
            let ghost before = r@;
            proof {
                deps@.subrange(0, i as int).lemma_filter_push(*d, platform_dependency());
            }
            assert(platform_dependency()(*d) == is_platform_dependency(*d));
            if matches!(d.kind, DependencyKind::Normal) && !d.optional && d.is_android() {
                r.push(d);
                assert(deref_deps(r@) =~= deref_deps(before).push(*d));
            }
        }
        assert(deps@.subrange(0, n as int) == deps@);
        r
    }

    fn android_deps_with_version_reqs(&self) -> (r: Vec<(&Dependency, semver::VersionReq)>) {
        let deps = &self.dependencies;
        let mut r: Vec<(&Dependency, semver::VersionReq)> = Vec::new();
        let n = deps.len();
        for i in 0..n
            invariant
                n == deps@.len(),
                deps == &self.dependencies,
                deref_paired(r@) == deps@.subrange(0, i as int).filter(
                    platform_dependency_with_req(),
                ),
        {
            let d = &deps[i];
            assert(deps@.subrange(0, i + 1) == deps@.subrange(0, i as int).push(*d));
            let ghost before = r@;
            proof {
                deps@.subrange(0, i as int).lemma_filter_push(*d, platform_dependency_with_req());
            }
            assert(platform_dependency_with_req()(*d) == (is_platform_dependency(*d)
                && version_req_parses(d.requirement@)));
            if matches!(d.kind, DependencyKind::Normal) && !d.optional && d.is_android() {
                match parse_version_req(d.requirement.as_str()) {
                    Some(req) => {
                        r.push((d, req));
                        assert(deref_paired(r@) =~= deref_paired(before).push(*d));
                    },
                    None => {},
                }
            }
        }
        assert(deps@.subrange(0, n as int) == deps@);
        r
    }
}

/// A baseline maps each name to one requirement: no name occurs twice.
pub open spec fn distinct_keys(base: Seq<(String, String)>) -> bool {
    forall|i: int, j: int| 0 <= i < base.len() && 0 <= j < base.len() && i != j ==> base[i].0@ != base[j].0@
}

/// The requirement that a baseline lists for `name`.
pub open spec fn baseline_requirement(base: Seq<(String, String)>, name: Seq<char>) -> Option<
    Seq<char>,
>
    decreases base.len(),
{
    if base.len() == 0 {
        None
    } else if base[0].0@ == name {
        Some(base[0].1@)
    } else {
        baseline_requirement(base.drop_first(), name)
    }
}

/// The requirement listed for `name`, found by a scan.
fn lookup_baseline<'a>(base: &'a Vec<(String, String)>, name: &str) -> (r: Option<&'a String>)
    ensures
        match r {
            Some(s) => baseline_requirement(base@, name@) == Some(s@),
            None => baseline_requirement(base@, name@) is None,
        },
{
    let n = base.len();
    let mut i: usize = 0;
    assert(base@.subrange(0, n as int) == base@);
    while i < n
        invariant
            n == base@.len(),
            0 <= i <= n,
            baseline_requirement(base@, name@) == baseline_requirement(
                base@.subrange(i as int, n as int),
                name@,
            ),
        decreases n - i,
    {
        let ghost rest = base@.subrange(i as int, n as int);
        assert(rest.drop_first() == base@.subrange(i + 1, n as int));
        assert(rest[0] == base@[i as int]);
        if same_text(base[i].0.as_str(), name) {
            return Some(&base[i].1);
        }
        i = i + 1;
    }
    None
}

/// How a dependency compares with a baseline of name and requirement text.
pub trait NewDeps {
    spec fn name_of(&self) -> Seq<char>;

    spec fn requirement_of(&self) -> Seq<char>;

    /// The baseline does not name the dependency.
    fn is_new_dep(&self, base_deps: &Vec<(String, String)>) -> (r: bool)
        requires
            distinct_keys(base_deps@),
        ensures
            r == (baseline_requirement(base_deps@, self.name_of()) is None),
    ;

    /// The baseline does not name the dependency, or names it with another
    /// requirement text.
    fn is_changed_dep(&self, base_deps: &Vec<(String, String)>) -> (r: bool)
        requires
            distinct_keys(base_deps@),
        ensures
            r == (baseline_requirement(base_deps@, self.name_of()) != Some(self.requirement_of())),
    ;
}

impl NewDeps for Dependency {
    open spec fn name_of(&self) -> Seq<char> {
        self.crate_name@
    }

    open spec fn requirement_of(&self) -> Seq<char> {
        self.requirement@
    }

    fn is_new_dep(&self, base_deps: &Vec<(String, String)>) -> (r: bool) {
        lookup_baseline(base_deps, self.crate_name.as_str()).is_none()
    }

    fn is_changed_dep(&self, base_deps: &Vec<(String, String)>) -> (r: bool) {
        match lookup_baseline(base_deps, self.crate_name.as_str()) {
            None => true,
            Some(req) => !same_text(req.as_str(), self.requirement.as_str()),
        }
    }
}

/// The platform dependencies of a version hold no dev or build dependency
/// and no optional one, whatever their target expression.
pub proof fn platform_dependencies_are_normal_and_required(deps: Seq<Dependency>)
    ensures
        forall|i: int|
            0 <= i < deps.filter(platform_dependency()).len() ==> {
                let d = #[trigger] deps.filter(platform_dependency())[i];
                d.kind == DependencyKind::Normal && !d.optional
            },
        forall|i: int|
            0 <= i < deps.len() && ((#[trigger] deps[i]).kind != DependencyKind::Normal || deps[i].optional)
                ==> !deps.filter(platform_dependency()).contains(deps[i]),
{
    broadcast use vstd::seq_lib::group_filter_ensures;

    assert forall|i: int| 0 <= i < deps.filter(platform_dependency()).len() implies is_platform_dependency(
        #[trigger] deps.filter(platform_dependency())[i],
    ) by {
        assert(platform_dependency()(deps.filter(platform_dependency())[i]));
    }
    assert forall|i: int|
        0 <= i < deps.len() && ((#[trigger] deps[i]).kind != DependencyKind::Normal || deps[i].optional)
            implies !deps.filter(platform_dependency()).contains(deps[i]) by {
        if deps.filter(platform_dependency()).contains(deps[i]) {
            let k = choose|k: int|
                0 <= k < deps.filter(platform_dependency()).len() && deps.filter(platform_dependency())[k]
                    == deps[i];
            assert(platform_dependency()(deps.filter(platform_dependency())[k]));
        }
    }
}

} // verus!
