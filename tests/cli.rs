use crate_health::cli::{parse_crate_list, CrateList};

fn s(x: &str) -> String {
    x.to_string()
}

#[test]
fn crate_list_splits_and_dedups() {
    assert_eq!(parse_crate_list("a,b,a"), vec![s("a"), s("b")]);
    assert_eq!(parse_crate_list("single"), vec![s("single")]);
    assert_eq!(parse_crate_list(""), vec![s("")]);
    assert_eq!(parse_crate_list("x,,y,"), vec![s("x"), s(""), s("y")]);
}

#[test]
fn crate_list_to_list() {
    let all = vec![s("a"), s("b"), s("c")];
    let named = CrateList { crates: vec![s("z")], all: false, exclude: vec![s("z")] };
    assert_eq!(named.to_list(&all), vec![s("z")]);
    let every = CrateList { crates: vec![], all: true, exclude: vec![s("b")] };
    assert_eq!(every.to_list(&all), vec![s("a"), s("c")]);
}
