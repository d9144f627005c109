use crate_health::license::{
    find_license_files, find_licenses, license_requirements, FileEntry, LicenseError, LicenseState,
};

fn entry(path: &str, is_symlink: bool) -> FileEntry {
    FileEntry { path: path.to_string(), is_symlink }
}

fn s(x: &str) -> String {
    x.to_string()
}

#[test]
fn license_files_by_pattern() {
    let entries = vec![
        entry("COPYING", false),
        entry("Cargo.toml", false),
        entry("LICENSE", true),
        entry("LICENSE-APACHE", false),
        entry("LICENSE.md", false),
        entry("LICENSES/MIT.txt", false),
        entry("LICENSES/sub/deep.txt", false),
        entry("UNLICENSE", false),
        entry("COPYING", false),
        entry("license", false),
        entry("src/LICENSE", false),
    ];
    assert_eq!(
        find_license_files(&entries),
        vec!["COPYING", "LICENSE-APACHE", "LICENSE.md", "LICENSES/MIT.txt", "UNLICENSE"]
    );
}

fn resolve(
    required: &Vec<String>,
    files: &Vec<String>,
    by_name: &Vec<Option<String>>,
    content_of: impl Fn(&str) -> Option<String>,
) -> (LicenseState, Vec<String>, usize) {
    let (mut state, left) = find_licenses(required, files, by_name);
    let by_content: Vec<Option<String>> = left.iter().map(|f| content_of(f)).collect();
    let read = if state.has_unsatisfied() { left.len() } else { 0 };
    let still = state.classify_contents(&left, &by_content);
    (state, still, read)
}

#[test]
fn name_then_content_pass() {
    let required = vec![s("MIT"), s("Apache-2.0")];
    let files = vec![s("LICENSE-MIT"), s("COPYING")];
    let by_name = vec![Some(s("MIT")), None];
    let (state, still, _) = resolve(&required, &files, &by_name, |f| {
        if f == "COPYING" { Some(s("Apache-2.0")) } else { Some(s("MIT")) }
    });
    assert!(state.unsatisfied.is_empty());
    assert_eq!(
        state.satisfied,
        vec![(s("MIT"), s("LICENSE-MIT")), (s("Apache-2.0"), s("COPYING"))]
    );
    assert!(still.is_empty());
}

#[test]
fn no_matching_files_leave_all_unsatisfied() {
    let required = vec![s("MIT"), s("Apache-2.0"), s("MIT")];
    let files = vec![s("LICENSE"), s("COPYING")];
    let by_name = vec![None, Some(s("BSD-3-Clause"))];
    let (state, still, _) = resolve(&required, &files, &by_name, |_| None);
    assert_eq!(state.unsatisfied, vec![s("MIT"), s("Apache-2.0")]);
    assert!(state.satisfied.is_empty());
    assert_eq!(still, files);
}

#[test]
fn consumed_file_is_not_reused() {
    let required = vec![s("MIT"), s("Apache-2.0")];
    let files = vec![s("LICENSE")];
    let by_name = vec![Some(s("MIT"))];
    let (state, left) = find_licenses(&required, &files, &by_name);
    assert!(left.is_empty());
    assert_eq!(state.unsatisfied, vec![s("Apache-2.0")]);
    assert_eq!(state.satisfied, vec![(s("MIT"), s("LICENSE"))]);
}

#[test]
fn content_pass_skipped_when_all_satisfied() {
    let required = vec![s("MIT")];
    let files = vec![s("LICENSE-MIT"), s("COPYING")];
    let by_name = vec![Some(s("MIT")), None];
    let (mut state, left) = find_licenses(&required, &files, &by_name);
    assert_eq!(left, vec![s("COPYING")]);
    assert!(!state.has_unsatisfied());
    let still = state.classify_contents(&left, &vec![Some(s("MIT"))]);
    assert_eq!(still, vec![s("COPYING")]);
    assert!(state.unsatisfied.is_empty());
    assert_eq!(state.satisfied, vec![(s("MIT"), s("LICENSE-MIT"))]);
}

#[test]
fn two_step_resolution() {
    let mut state = LicenseState::new(&vec![s("MIT"), s("Apache-2.0")]);
    let files = vec![s("LICENSE-APACHE"), s("LICENSE")];
    let rest = state.claim_files(&files, &vec![Some(s("Apache-2.0")), None]);
    assert_eq!(rest, vec![1]);
    assert!(state.has_unsatisfied());
    let rest = state.claim_files(&vec![s("LICENSE")], &vec![Some(s("MIT"))]);
    assert!(rest.is_empty());
    assert!(!state.has_unsatisfied());
}

#[test]
fn requirements_of_expression() {
    assert_eq!(license_requirements("MIT OR Apache-2.0").unwrap(), vec![s("MIT"), s("Apache-2.0")]);
    assert_eq!(license_requirements("not a license ((").unwrap_err(), LicenseError::InvalidExpression);
}
