//! Overrides of what dependencies ask for.
use hinata::dict::Dict;
use hinata::resolve::overrides::{most_specific, Overrides};

fn config(entries: &[(&str, &str)]) -> Dict<String> {
    let mut config = Dict::new();
    for (key, spec) in entries {
        config.insert((*key).to_string(), (*spec).to_string());
    }
    config
}

fn overrides(entries: &[(&str, &str)]) -> Overrides {
    Overrides::new(&config(entries)).ok().unwrap()
}

fn applies(overrides: &mut Overrides, name: &str, range: &str) -> Option<String> {
    overrides.applies(name, range).map(|(name, range)| format!("{name}@{range}"))
}

#[test]
fn overrides_every_request_for_a_name() {
    let mut overrides = overrides(&[("lodash", "^4.17.21")]);

    assert_eq!(
        applies(&mut overrides, "lodash", "^3.0.0").as_deref(),
        Some("lodash@^4.17.21")
    );
    assert_eq!(
        applies(&mut overrides, "lodash", "latest").as_deref(),
        Some("lodash@^4.17.21")
    );
    assert_eq!(applies(&mut overrides, "semver", "^7.0.0"), None);
}

#[test]
fn overrides_only_overlapping_ranges() {
    let mut overrides = overrides(&[("semver@<7.5.2", "^7.5.2")]);

    assert_eq!(
        applies(&mut overrides, "semver", "^7.3.0").as_deref(),
        Some("semver@^7.5.2")
    );
    assert_eq!(applies(&mut overrides, "semver", "^7.6.0"), None);
    assert_eq!(applies(&mut overrides, "semver", "latest"), None);
}

#[test]
fn prefers_a_selector_over_a_bare_name() {
    let mut overrides = overrides(&[("semver", "^7.0.0"), ("semver@<6", "^6.3.1")]);

    assert_eq!(
        applies(&mut overrides, "semver", "^5.7.0").as_deref(),
        Some("semver@^6.3.1")
    );
    assert_eq!(
        applies(&mut overrides, "semver", "^7.3.0").as_deref(),
        Some("semver@^7.0.0")
    );
}

#[test]
fn overrides_a_name_with_an_alias() {
    let mut overrides = overrides(&[("lodash", "npm:lodash-es@^4")]);

    assert_eq!(
        applies(&mut overrides, "lodash", "^4.0.0").as_deref(),
        Some("lodash-es@^4")
    );
}

#[test]
fn reports_overrides_that_never_matched() {
    let mut overrides = overrides(&[("lodash", "^4.17.21"), ("semver@<6", "^6.3.1")]);
    applies(&mut overrides, "lodash", "^4.0.0");

    assert_eq!(overrides.unused(), ["semver@<6"]);
}

#[test]
fn rejects_overrides_that_cannot_be_resolved() {
    let failed = Overrides::new(&config(&[("lodash", "file:../lodash")]));
    assert!(failed.is_err());
    assert_eq!(
        failed.err().unwrap().chain,
        [
            "in the override for lodash",
            "lodash: file:../lodash is not supported yet; only registry versions, ranges and tags are"
        ]
    );

    let failed = Overrides::new(&config(&[("lodash@what", "^4")]));
    assert!(failed.is_err());
    let message = failed.err().unwrap().message();
    assert!(message.starts_with("the override lodash@what is not a valid range: "), "{message}");
}

#[test]
fn rejects_selectors_that_compare_with_wildcards() {
    for key in ["react@=*", "react@~x.1", "react@^1 ||~ v*", "react@~1.x.3"] {
        let failed = Overrides::new(&config(&[(key, "^1")]));
        assert_eq!(
            failed.err().unwrap().message(),
            format!("the override {key} is not a valid range: a wildcard cannot be compared with")
        );
    }
    assert!(Overrides::new(&config(&[("react@~1.x", "^1")])).is_ok());
    assert!(Overrides::new(&config(&[("react@>=*", "^1")])).is_ok());
}

#[test]
fn prefers_the_last_match_with_a_selector() {
    assert_eq!(most_specific(&vec![(true, true), (true, true), (true, false)]), Some(1));
    assert_eq!(most_specific(&vec![(false, true), (true, false), (true, false)]), Some(2));
    assert_eq!(most_specific(&vec![(false, true), (false, false)]), None);
}
