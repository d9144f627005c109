//! License compliance: which files of a package satisfy which of its
//! declared license requirements.

use crate::text::{distinct_copy, distinct_texts, position_of, text_set, texts};
use vstd::prelude::*;

verus! {

/// Whether glob's pattern `pattern` matches `path`.
pub uninterp spec fn glob_matches(pattern: Seq<char>, path: Seq<char>) -> bool;

/// Relies on glob's `Pattern::new` and `Pattern::matches_with`, with `/`
/// matched only by a literal `/`, as glob's directory walk matches it; a
/// pattern that glob refuses matches nothing.
#[verifier::external_body]
pub(crate) fn glob_match(pattern: &str, path: &str) -> (r: bool)
    ensures
        r == glob_matches(pattern@, path@),
{
    let options = glob::MatchOptions {
        case_sensitive: true,
        require_literal_separator: true,
        require_literal_leading_dot: false,
    };
    glob::Pattern::new(pattern).map_or(false, |p| p.matches_with(path, options))
}

/// The SPDX requirements that a license expression names, in order; `None`
/// where the expression does not parse.
pub uninterp spec fn spdx_requirements(expr: Seq<char>) -> Option<Seq<Seq<char>>>;

/// Relies on spdx's `Expression::parse` and `Expression::requirements`; each
/// requirement is written out by its `Display`.
#[verifier::external_body]
fn parse_license_expression(expr: &str) -> (r: Option<Vec<String>>)
    ensures
        match r {
            Some(v) => spdx_requirements(expr@) == Some(texts(v@)),
            None => spdx_requirements(expr@) is None,
        },
{
    spdx::Expression::parse(expr).ok().map(|e| e.requirements().map(|r| r.req.to_string()).collect())
}

/// The characters of each text that is present.
pub open spec fn optional_texts(s: Seq<Option<String>>) -> Seq<Option<Seq<char>>> {
    s.map_values(|x: Option<String>| match x {
        Some(t) => Some(t@),
        None => None,
    })
}

/// Why license requirements could not be derived.
#[derive(Debug, PartialEq, Eq, Structural)]
pub enum LicenseError {
    /// The declared license expression does not parse.
    InvalidExpression,
}

/// The requirements that a declared license expression names.
pub fn license_requirements(expr: &str) -> (r: Result<Vec<String>, LicenseError>)
    ensures
        match r {
            Ok(v) => spdx_requirements(expr@) == Some(texts(v@)),
            Err(e) => e == LicenseError::InvalidExpression && spdx_requirements(expr@) is None,
        },
{
    match parse_license_expression(expr) {
        Some(v) => Ok(v),
        None => Err(LicenseError::InvalidExpression),
    }
}

/// A file or directory under a package root, by its path relative to the root.
pub struct FileEntry {
    pub path: String,
    pub is_symlink: bool,
}

/// A path that one of the license file patterns matches.
pub open spec fn is_license_path(p: Seq<char>) -> bool {
    ||| glob_matches("LICENSE"@, p)
    ||| glob_matches("LICENCE"@, p)
    ||| glob_matches("LICENSE.*"@, p)
    ||| glob_matches("LICENSE-*"@, p)
    ||| glob_matches("LICENSES/*"@, p)
    ||| glob_matches("UNLICENSE"@, p)
    ||| glob_matches("COPYING"@, p)
}

/// The paths of the entries that may hold a license: those that a license
/// pattern matches, symbolic links left out, in the entries' order.
pub open spec fn license_files_of(entries: Seq<FileEntry>) -> Seq<Seq<char>>
    decreases entries.len(),
{
    if entries.len() == 0 {
        Seq::empty()
    } else {
        let rest = license_files_of(entries.drop_last());
        let e = entries.last();
        if !e.is_symlink && is_license_path(e.path@) {
            rest.push(e.path@)
        } else {
            rest
        }
    }
}

fn license_path(p: &str) -> (r: bool)
    ensures
        r == is_license_path(p@),
{
    glob_match("LICENSE", p) || glob_match("LICENCE", p) || glob_match("LICENSE.*", p)
        || glob_match("LICENSE-*", p) || glob_match("LICENSES/*", p) || glob_match(
        "UNLICENSE",
        p,
    ) || glob_match("COPYING", p)
}

/// The texts of a sequence, each kept at its first occurrence only.
pub open spec fn without_repeats(s: Seq<Seq<char>>) -> Seq<Seq<char>>
    decreases s.len(),
{
    if s.len() == 0 {
        Seq::empty()
    } else {
        let rest = without_repeats(s.drop_last());
        if rest.contains(s.last()) {
            rest
        } else {
            rest.push(s.last())
        }
    }
}

/// The candidate license files among the entries of a package root: the
/// paths of `license_files_of`, each once, in the order of the entries.
pub fn find_license_files(entries: &Vec<FileEntry>) -> (r: Vec<String>)
    ensures
        texts(r@) == without_repeats(license_files_of(entries@)),
{
    let mut r: Vec<String> = Vec::new();
    let n = entries.len();
    for i in 0..n
        invariant
            n == entries@.len(),
            texts(r@) == without_repeats(license_files_of(entries@.subrange(0, i as int))),
    {
        let e = &entries[i];
        let ghost pre = license_files_of(entries@.subrange(0, i as int));
        assert(entries@.subrange(0, i + 1).drop_last() == entries@.subrange(0, i as int));
        let ghost before = r@;
        if !e.is_symlink && license_path(e.path.as_str()) {
            assert(pre.push(e.path@).drop_last() == pre);
            match position_of(&r, e.path.as_str()) {
                Some(k) => {
                    assert(texts(r@)[k as int] == e.path@);
                },
                None => {
                    assert(!texts(r@).contains(e.path@)) by {
                        if texts(r@).contains(e.path@) {
                            let k = choose|k: int| 0 <= k < texts(r@).len() && texts(r@)[k] == e.path@;
                            assert(r@[k]@ == e.path@);
                        }
                    }
                    r.push(e.path.clone());
                    assert(texts(r@) =~= texts(before).push(e.path@));
                },
            }
        }
    }
    assert(entries@.subrange(0, n as int) == entries@);
    r
}

/// The outcome of one classification pass: the requirements still
/// unsatisfied, the (requirement, file) pairs satisfied so far in order, and
/// the positions of the files that were not consumed.
pub open spec fn claim_pass(
    unsatisfied: Set<Seq<char>>,
    satisfied: Seq<(Seq<char>, Seq<char>)>,
    files: Seq<Seq<char>>,
    classes: Seq<Option<Seq<char>>>,
) -> (Set<Seq<char>>, Seq<(Seq<char>, Seq<char>)>, Seq<int>)
    decreases files.len(),
{
    if files.len() == 0 {
        (unsatisfied, satisfied, Seq::empty())
    } else {
        let prev = claim_pass(unsatisfied, satisfied, files.drop_last(), classes);
        let i = files.len() - 1;
        match classes[i] {
            Some(c) => if prev.0.contains(c) {
                (prev.0.remove(c), prev.1.push((c, files[i])), prev.2)
            } else {
                (prev.0, prev.1, prev.2.push(i))
            },
            None => (prev.0, prev.1, prev.2.push(i)),
        }
    }
}

/// The two-pass resolution: by file name, then, if requirements remain, by
/// the contents of the files that the first pass left. `by_content[i]` is
/// what the contents of the `i`-th file left were classified as. This is
/// what `find_licenses` followed by `LicenseState::classify_contents`
/// computes.
pub open spec fn resolve_licenses(
    required: Set<Seq<char>>,
    files: Seq<Seq<char>>,
    by_name: Seq<Option<Seq<char>>>,
    by_content: Seq<Option<Seq<char>>>,
) -> (Set<Seq<char>>, Seq<(Seq<char>, Seq<char>)>) {
    let first = claim_pass(required, Seq::empty(), files, by_name);
    if first.0 == Set::<Seq<char>>::empty() {
        (first.0, first.1)
    } else {
        let second = claim_pass(first.0, first.1, left_files(files, first.2), by_content);
        (second.0, second.1)
    }
}

/// The files at the given positions.
pub open spec fn left_files(files: Seq<Seq<char>>, positions: Seq<int>) -> Seq<Seq<char>> {
    positions.map_values(|k: int| files[k])
}

proof fn lemma_remove_distinct(v: Seq<String>, k: int)
    requires
        distinct_texts(v),
        0 <= k < v.len(),
    ensures
        distinct_texts(v.remove(k)),
        text_set(v.remove(k)) == text_set(v).remove(v[k]@),
{
    let w = v.remove(k);
    assert forall|i: int, j: int| 0 <= i < w.len() && 0 <= j < w.len() && i != j implies w[i]@ != w[j]@ by {
        let a = if i < k { i } else { i + 1 };
        let b = if j < k { j } else { j + 1 };
        assert(w[i] == v[a] && w[j] == v[b]);
    }
    assert forall|x: Seq<char>| text_set(w).contains(x) <==> text_set(v).remove(v[k]@).contains(x) by {
        if text_set(w).contains(x) {
            let i = choose|i: int| 0 <= i < w.len() && w[i]@ == x;
            let a = if i < k { i } else { i + 1 };
            assert(w[i] == v[a]);
            assert(text_set(v).contains(x));
        }
        if text_set(v).remove(v[k]@).contains(x) {
            let i = choose|i: int| 0 <= i < v.len() && v[i]@ == x;
            assert(i != k);
            let a = if i < k { i } else { i - 1 };
            assert(w[a] == v[i]);
            assert(text_set(w).contains(x));
        }
    }
    assert(text_set(w) =~= text_set(v).remove(v[k]@));
}

proof fn lemma_text_set_empty(v: Seq<String>)
    ensures
        (text_set(v) == Set::<Seq<char>>::empty()) <==> v.len() == 0,
{
    if v.len() > 0 {
        assert(text_set(v).contains(v[0]@));
    } else {
        assert(text_set(v) =~= Set::<Seq<char>>::empty());
    }
}

/// Which license requirements of a package are met, and by which file.
pub struct LicenseState {
    /// Requirements with no file found for them, each once.
    pub unsatisfied: Vec<String>,
    /// (requirement, file) pairs, in the order they were found.
    pub satisfied: Vec<(String, String)>,
}

impl LicenseState {
    pub open spec fn unsatisfied_set(&self) -> Set<Seq<char>> {
        text_set(self.unsatisfied@)
    }

    pub open spec fn satisfied_pairs(&self) -> Seq<(Seq<char>, Seq<char>)> {
        self.satisfied@.map_values(|p: (String, String)| (p.0@, p.1@))
    }

    /// Requirements are listed once; each satisfied requirement once, and
    /// never also as unsatisfied.
    pub open spec fn wf(&self) -> bool {
        &&& distinct_texts(self.unsatisfied@)
        &&& forall|i: int, j: int|
            0 <= i < self.satisfied@.len() && 0 <= j < self.satisfied@.len() && i != j
                ==> self.satisfied@[i].0@ != self.satisfied@[j].0@
        &&& forall|i: int|
            0 <= i < self.satisfied@.len() ==> !self.unsatisfied_set().contains(
                #[trigger] self.satisfied@[i].0@,
            )
    }

    /// A state in which every requirement is unsatisfied.
    pub fn new(required: &Vec<String>) -> (r: LicenseState)
        ensures
            r.wf(),
            r.unsatisfied_set() == text_set(required@),
            r.satisfied_pairs().len() == 0,
    {
        let u = distinct_copy(required);
        LicenseState { unsatisfied: u, satisfied: Vec::new() }
    }

    /// Whether any requirement is still unsatisfied.
    pub fn has_unsatisfied(&self) -> (r: bool)
        ensures
            r == (self.unsatisfied_set() != Set::<Seq<char>>::empty()),
    {
        proof {
            lemma_text_set_empty(self.unsatisfied@);
        }
        self.unsatisfied.len() > 0
    }

    /// One classification pass. `classes[i]` is the requirement that
    /// `files[i]` was classified as, if any. A file whose class is still
    /// unsatisfied satisfies it and is consumed; the positions of the other
    /// files are returned, in order.
    pub fn claim_files(&mut self, files: &Vec<String>, classes: &Vec<Option<String>>) -> (r: Vec<
        usize,
    >)
        requires
            old(self).wf(),
            files.len() == classes.len(),
        ensures
            final(self).wf(),
            (final(self).unsatisfied_set(), final(self).satisfied_pairs(), r@.map_values(
                |k: usize| k as int,
            )) == claim_pass(
                old(self).unsatisfied_set(),
                old(self).satisfied_pairs(),
                texts(files@),
                optional_texts(classes@),
            ),
    {
        let ghost fs = texts(files@);
        let ghost cs = optional_texts(classes@);
        let mut rest: Vec<usize> = Vec::new();
        let n = files.len();
        for i in 0..n
            invariant
                n == files@.len(),
                n == classes@.len(),
                fs == texts(files@),
                cs == optional_texts(classes@),
                self.wf(),
                (self.unsatisfied_set(), self.satisfied_pairs(), rest@.map_values(
                    |k: usize| k as int,
                )) == claim_pass(
                    old(self).unsatisfied_set(),
                    old(self).satisfied_pairs(),
                    fs.subrange(0, i as int),
                    cs,
                ),
        {
            let ghost sub = fs.subrange(0, i + 1);
            assert(sub.drop_last() == fs.subrange(0, i as int));
            assert(sub[i as int] == files@[i as int]@);
            let ghost prev_rest = rest@;
            let ghost prev_sat = self.satisfied@;
            let mut keep = true;
            match &classes[i] {
                Some(c) => {
                    assert(cs[i as int] == Some(c@));
                    match position_of(&self.unsatisfied, c.as_str()) {
                        Some(k) => {
                            let ghost old_unsat = self.unsatisfied@;
                            proof {
                                lemma_remove_distinct(self.unsatisfied@, k as int);
                                assert(text_set(old_unsat).contains(c@)) by {
                                    assert(old_unsat[k as int]@ == c@);
                                }
                            }
                            let req = self.unsatisfied.remove(k);
                            self.satisfied.push((req, files[i].clone()));
                            proof {
                                let m = prev_sat.len() as int;
                                assert(self.satisfied@[m].0@ == c@);
                                assert forall|a: int, b: int|
                                    0 <= a < self.satisfied@.len() && 0 <= b < self.satisfied@.len() && a != b
                                        implies self.satisfied@[a].0@ != self.satisfied@[b].0@ by {
                                    if a < m && b < m {
                                        assert(self.satisfied@[a] == prev_sat[a]);
                                        assert(self.satisfied@[b] == prev_sat[b]);
                                    } else if a < m {
                                        assert(self.satisfied@[a] == prev_sat[a]);
                                        assert(!text_set(old_unsat).contains(prev_sat[a].0@));
                                    } else {
                                        assert(self.satisfied@[b] == prev_sat[b]);
                                        assert(!text_set(old_unsat).contains(prev_sat[b].0@));
                                    }
                                }
                                assert forall|a: int| 0 <= a < self.satisfied@.len() implies !self.unsatisfied_set().contains(
                                    #[trigger] self.satisfied@[a].0@,
                                ) by {
                                    if a < m {
                                        assert(self.satisfied@[a] == prev_sat[a]);
                                        assert(!text_set(old_unsat).contains(prev_sat[a].0@));
                                    }
                                }
                            }
                            assert(self.satisfied_pairs() =~= prev_sat.map_values(
                                |p: (String, String)| (p.0@, p.1@),
                            ).push((c@, files@[i as int]@)));
                            keep = false;
                        },
                        None => {},
                    }
                },
                None => {
                    assert(cs[i as int] is None);
                },
            }
            if keep {
                rest.push(i);
                assert(rest@.map_values(|k: usize| k as int) =~= prev_rest.map_values(
                    |k: usize| k as int,
                ).push(i as int));
            }
        }
        assert(fs.subrange(0, n as int) == fs);
        rest
    }
}

proof fn lemma_claim_pass_positions(
    unsatisfied: Set<Seq<char>>,
    satisfied: Seq<(Seq<char>, Seq<char>)>,
    files: Seq<Seq<char>>,
    classes: Seq<Option<Seq<char>>>,
)
    ensures
        forall|j: int|
            0 <= j < claim_pass(unsatisfied, satisfied, files, classes).2.len() ==> 0
                <= #[trigger] claim_pass(unsatisfied, satisfied, files, classes).2[j] < files.len(),
    decreases files.len(),
{
    if files.len() > 0 {
        lemma_claim_pass_positions(unsatisfied, satisfied, files.drop_last(), classes);
        let prev = claim_pass(unsatisfied, satisfied, files.drop_last(), classes);
        let cur = claim_pass(unsatisfied, satisfied, files, classes);
        assert(cur.2 == prev.2 || cur.2 == prev.2.push(files.len() - 1));
    }
}

/// The files at `positions`, in that order.
fn files_at(files: &Vec<String>, positions: &Vec<usize>) -> (r: Vec<String>)
    requires
        forall|t: int| 0 <= t < positions@.len() ==> #[trigger] positions@[t] < files@.len(),
    ensures
        texts(r@) == left_files(texts(files@), positions@.map_values(|k: usize| k as int)),
{
    let ghost fs = texts(files@);
    let ghost pos = positions@.map_values(|k: usize| k as int);
    let mut r: Vec<String> = Vec::new();
    let m = positions.len();
    for j in 0..m
        invariant
            m == positions@.len(),
            fs == texts(files@),
            pos == positions@.map_values(|k: usize| k as int),
            forall|t: int| 0 <= t < positions@.len() ==> #[trigger] positions@[t] < files@.len(),
            texts(r@) == left_files(fs, pos.subrange(0, j as int)),
    {
        let k = positions[j];
        let ghost before = r@;
        r.push(files[k].clone());
        assert(pos.subrange(0, j + 1) == pos.subrange(0, j as int).push(k as int));
        assert(texts(r@) =~= texts(before).push(fs[k as int]));
        assert(left_files(fs, pos.subrange(0, j + 1)) =~= left_files(fs, pos.subrange(0, j as int)).push(
            fs[k as int],
        ));
    }
    assert(pos.subrange(0, m as int) == pos);
    r
}

/// The name pass of license resolution: every requirement of `required`
/// starts unsatisfied, and `by_name[i]` is what the name of `files[i]` was
/// classified as. Returns the state and the files the pass left, in order;
/// `LicenseState::classify_contents` then takes only those.
pub fn find_licenses(
    required: &Vec<String>,
    files: &Vec<String>,
    by_name: &Vec<Option<String>>,
) -> (r: (LicenseState, Vec<String>))
    requires
        files.len() == by_name.len(),
    ensures
        r.0.wf(),
        ({
            let first = claim_pass(
                text_set(required@),
                Seq::empty(),
                texts(files@),
                optional_texts(by_name@),
            );
            &&& r.0.unsatisfied_set() == first.0
            &&& r.0.satisfied_pairs() == first.1
            &&& texts(r.1@) == left_files(texts(files@), first.2)
        }),
{
    let mut state = LicenseState::new(required);
    assert(state.satisfied_pairs() =~= Seq::<(Seq<char>, Seq<char>)>::empty());
    let rest = state.claim_files(files, by_name);
    proof {
        lemma_claim_pass_positions(
            text_set(required@),
            Seq::empty(),
            texts(files@),
            optional_texts(by_name@),
        );
        let pos = rest@.map_values(|k: usize| k as int);
        let first = claim_pass(text_set(required@), Seq::empty(), texts(files@), optional_texts(by_name@));
        assert(pos == first.2);
        assert forall|t: int| 0 <= t < rest@.len() implies #[trigger] rest@[t] < files@.len() by {
            assert(pos[t] == rest@[t] as int);
            assert(pos[t] == first.2[t]);
        }
    }
    let left = files_at(files, &rest);
    (state, left)
}

impl LicenseState {
    /// The content pass of license resolution, run only while requirements
    /// remain: `by_content[i]` is what the contents of `files[i]` were
    /// classified as. Returns the files still left.
    pub fn classify_contents(&mut self, files: &Vec<String>, by_content: &Vec<Option<String>>) -> (r: Vec<
        String,
    >)
        requires
            old(self).wf(),
            files.len() == by_content.len(),
        ensures
            final(self).wf(),
            old(self).unsatisfied_set() == Set::<Seq<char>>::empty() ==> *final(self) == *old(self)
                && r@ == files@,
            old(self).unsatisfied_set() != Set::<Seq<char>>::empty() ==> ({
                let pass = claim_pass(
                    old(self).unsatisfied_set(),
                    old(self).satisfied_pairs(),
                    texts(files@),
                    optional_texts(by_content@),
                );
                &&& final(self).unsatisfied_set() == pass.0
                &&& final(self).satisfied_pairs() == pass.1
                &&& texts(r@) == left_files(texts(files@), pass.2)
            }),
    {
        if !self.has_unsatisfied() {
            let mut all: Vec<String> = Vec::new();
            for j in 0..files.len()
                invariant
                    all@ == files@.subrange(0, j as int),
            {
                all.push(files[j].clone());
                assert(all@ =~= files@.subrange(0, j + 1));
            }
            assert(all@ =~= files@);
            return all;
        }
        let ghost start_unsat = self.unsatisfied_set();
        let ghost start_sat = self.satisfied_pairs();
        let rest = self.claim_files(files, by_content);
        proof {
            lemma_claim_pass_positions(start_unsat, start_sat, texts(files@), optional_texts(by_content@));
            let pos = rest@.map_values(|k: usize| k as int);
            let pass = claim_pass(start_unsat, start_sat, texts(files@), optional_texts(by_content@));
            assert(pos == pass.2);
            assert forall|t: int| 0 <= t < rest@.len() implies #[trigger] rest@[t] < files@.len() by {
                assert(pos[t] == rest@[t] as int);
                assert(pos[t] == pass.2[t]);
            }
        }
        files_at(files, &rest)
    }
}

/// A class that names none of the requirements satisfies nothing.
pub open spec fn claims_none(required: Set<Seq<char>>, classes: Seq<Option<Seq<char>>>, n: int) -> bool {
    forall|i: int| 0 <= i < n ==> match #[trigger] classes[i] {
        Some(c) => !required.contains(c),
        None => true,
    }
}

proof fn lemma_claim_pass_no_match(
    unsatisfied: Set<Seq<char>>,
    satisfied: Seq<(Seq<char>, Seq<char>)>,
    files: Seq<Seq<char>>,
    classes: Seq<Option<Seq<char>>>,
)
    requires
        claims_none(unsatisfied, classes, files.len() as int),
    ensures
        claim_pass(unsatisfied, satisfied, files, classes).0 == unsatisfied,
        claim_pass(unsatisfied, satisfied, files, classes).1 == satisfied,
    decreases files.len(),
{
    if files.len() > 0 {
        lemma_claim_pass_no_match(unsatisfied, satisfied, files.drop_last(), classes);
        let i = files.len() - 1;
        assert(match classes[i] {
            Some(c) => !unsatisfied.contains(c),
            None => true,
        });
    }
}

/// When neither the name of any file nor the contents of any file left
/// names a required license, every requirement stays unsatisfied and
/// nothing is satisfied.
pub proof fn unmatched_files_satisfy_nothing(
    required: Set<Seq<char>>,
    files: Seq<Seq<char>>,
    by_name: Seq<Option<Seq<char>>>,
    by_content: Seq<Option<Seq<char>>>,
)
    requires
        by_name.len() == files.len(),
        claims_none(required, by_name, files.len() as int),
        claims_none(required, by_content, by_content.len() as int),
        by_content.len() == claim_pass(required, Seq::empty(), files, by_name).2.len(),
    ensures
        resolve_licenses(required, files, by_name, by_content) == (required, Seq::<(Seq<char>, Seq<char>)>::empty()),
{
    let first = claim_pass(required, Seq::empty(), files, by_name);
    lemma_claim_pass_no_match(required, Seq::empty(), files, by_name);
    let left = left_files(files, first.2);
    lemma_claim_pass_no_match(required, Seq::empty(), left, by_content);
}

/// With two distinct requirements, a file whose name names the first and a
/// file whose contents (not its name) name the second satisfy both, the
/// first by name and the second by contents.
pub proof fn name_match_then_content_match(
    a: Seq<char>,
    b: Seq<char>,
    file1: Seq<char>,
    file2: Seq<char>,
)
    requires
        a != b,
    ensures
        resolve_licenses(set![a, b], seq![file1, file2], seq![Some(a), None], seq![Some(b)]) == (
            Set::<Seq<char>>::empty(),
            seq![(a, file1), (b, file2)],
        ),
{
    let req = set![a, b];
    let files = seq![file1, file2];
    let by_name = seq![Some(a), None];
    assert(files.drop_last() == seq![file1]);
    assert(seq![file1].drop_last() == Seq::<Seq<char>>::empty());
    let start = claim_pass(req, Seq::empty(), Seq::<Seq<char>>::empty(), by_name);
    assert(start == (req, Seq::<(Seq<char>, Seq<char>)>::empty(), Seq::<int>::empty()));
    let after_first = claim_pass(req, Seq::empty(), seq![file1], by_name);
    assert(req.contains(a));
    assert(after_first == (req.remove(a), seq![(a, file1)], Seq::<int>::empty())) by {
        assert(Seq::<(Seq<char>, Seq<char>)>::empty().push((a, file1)) == seq![(a, file1)]);
    }
    let after_both = claim_pass(req, Seq::empty(), files, by_name);
    assert(after_both == (req.remove(a), seq![(a, file1)], seq![1int])) by {
        assert(Seq::<int>::empty().push(1) == seq![1int]);
    }
    assert(req.remove(a) =~= set![b]);
    assert(set![b].contains(b));
    assert(set![b] != Set::<Seq<char>>::empty());
    assert(left_files(files, seq![1int]) =~= seq![file2]);
    assert(seq![file2].drop_last() == Seq::<Seq<char>>::empty());
    let q0 = claim_pass(set![b], seq![(a, file1)], Seq::<Seq<char>>::empty(), seq![Some(b)]);
    assert(q0 == (set![b], seq![(a, file1)], Seq::<int>::empty()));
    let q = claim_pass(set![b], seq![(a, file1)], seq![file2], seq![Some(b)]);
    assert(seq![Some(b)][0] == Some(b));
    assert(seq![file2][0] == file2);
    assert(q == (set![b].remove(b), seq![(a, file1)].push((b, file2)), Seq::<int>::empty()));
    assert(q.0 =~= Set::<Seq<char>>::empty());
    assert(q.1 =~= seq![(a, file1), (b, file2)]);
}

} // verus!
