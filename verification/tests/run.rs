//! Running scripts.
use hinata::dict::Dict;
use hinata::gc::megabytes;
use hinata::impure::{depth, install_scripts, sibling, Sibling};
use hinata::json::Json;
use hinata::run::{chain, script, script_line, shell_quote};

#[test]
fn quotes_shell_arguments() {
    assert_eq!(shell_quote("--watch"), "'--watch'");
    assert_eq!(shell_quote("it's"), r"'it'\''s'");
}

fn scripts(entries: &[(&str, &str)]) -> Dict<String> {
    let mut scripts = Dict::new();
    for (name, body) in entries {
        scripts.insert((*name).to_string(), (*body).to_string());
    }
    scripts
}

#[test]
fn runs_hooks_around_a_script() {
    let scripts = scripts(&[
        ("prebuild", "clean"),
        ("build", "tsc"),
        ("postbuild", "report"),
        ("test", "vitest"),
    ]);

    assert_eq!(
        chain(&scripts, "build"),
        vec![
            ("prebuild".to_string(), "clean".to_string()),
            ("build".to_string(), "tsc".to_string()),
            ("postbuild".to_string(), "report".to_string()),
        ]
    );
    assert_eq!(
        chain(&scripts, "test"),
        vec![("test".to_string(), "vitest".to_string())]
    );
}

#[test]
fn passes_arguments_to_the_named_script_only() {
    let scripts = scripts(&[("prebuild", "clean"), ("build", "tsc")]);
    let args = vec!["--watch".to_string()];
    let lines: Vec<String> = chain(&scripts, "build")
        .into_iter()
        .map(|(event, body)| script_line(&event, &body, "build", &args))
        .collect();

    assert_eq!(lines, ["clean", "tsc '--watch'"]);
}

#[test]
fn lists_scripts_where_one_is_missing() {
    let scripts = scripts(&[("test", "vitest"), ("build", "tsc")]);
    assert_eq!(script(&scripts, "build").unwrap().len(), 1);
    assert_eq!(
        script(&scripts, "lint").unwrap_err().message(),
        "package.json has no script named lint (available: build, test)"
    );
}

fn text(text: &str) -> Json {
    Json::String(text.to_string())
}

#[test]
fn finds_install_scripts_in_order() {
    let manifest = Json::Object(vec![(
        "scripts".to_string(),
        Json::Object(vec![
            ("postinstall".to_string(), text("three")),
            ("test".to_string(), text("no")),
            ("install".to_string(), Json::Bool(true)),
            ("preinstall".to_string(), text("one")),
        ]),
    )]);
    assert_eq!(
        install_scripts(&manifest),
        [
            ("preinstall".to_string(), "one".to_string()),
            ("postinstall".to_string(), "three".to_string()),
        ]
    );
    assert!(install_scripts(&Json::Null).is_empty());
    assert_eq!(depth("pkg"), 1);
    assert_eq!(depth("@scope/pkg"), 2);
}

#[test]
fn counts_megabytes() {
    assert_eq!(megabytes(0), "0.0 MB");
    assert_eq!(megabytes(1_299_999), "1.2 MB");
    assert_eq!(megabytes(12_345_678_901), "12345.6 MB");
}

#[test]
fn tells_packages_from_other_entries() {
    assert_eq!(sibling("dep"), Sibling::Package);
    assert_eq!(sibling("@scope"), Sibling::Scope);
    assert_eq!(sibling(".bin"), Sibling::Other);
    assert_eq!(sibling(""), Sibling::Package);
}
