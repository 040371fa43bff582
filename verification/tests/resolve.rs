//! Resolving projects against a registry in memory.
use std::cell::RefCell;
use std::collections::{BTreeSet, HashMap};

use hinata::dict::{Dict, Duplicate};
use hinata::error::Error;
use hinata::install::current;
use hinata::json::Json;
use hinata::lock::{validate, Lock, Specifiers};
use hinata::registry::{Dist, Packument, PeerMeta, Registry, Release, VersionManifest};
use hinata::resolve::{resolve, resolve_and_report, Project};
use hinata::time::{parse_time, Timestamp};
use serde_json::Value;

fn json(source: &str) -> Value {
    serde_json::from_str(source).unwrap()
}

fn to_json(value: &Value) -> Json {
    match value {
        Value::Null => Json::Null,
        Value::Bool(value) => Json::Bool(*value),
        Value::Number(number) => Json::Number(number.to_string()),
        Value::String(text) => Json::String(text.clone()),
        Value::Array(items) => Json::Array(items.iter().map(to_json).collect()),
        Value::Object(members) => Json::Object(
            members.iter().map(|(key, value)| (key.clone(), to_json(value))).collect(),
        ),
    }
}

fn strings(value: Option<&Value>) -> Dict<String> {
    let mut dict = Dict::new();
    if let Some(Value::Object(members)) = value {
        for (key, value) in members {
            dict.insert(key.clone(), value.as_str().unwrap().to_string());
        }
    }
    dict
}

fn list(value: Option<&Value>) -> Option<Vec<String>> {
    match value {
        Some(Value::String(item)) => Some(vec![item.clone()]),
        Some(Value::Array(items)) => {
            Some(items.iter().map(|item| item.as_str().unwrap().to_string()).collect())
        }
        _ => None,
    }
}

fn manifest(value: &Value) -> Option<VersionManifest> {
    let mut meta = Dict::new();
    if let Some(Value::Object(members)) = value.get("peerDependenciesMeta") {
        for (key, value) in members {
            let optional = value.get("optional") == Some(&Value::Bool(true));
            meta.insert(key.clone(), PeerMeta { optional });
        }
    }
    let dist = value.get("dist")?;
    Some(VersionManifest {
        dependencies: strings(value.get("dependencies")),
        optional_dependencies: strings(value.get("optionalDependencies")),
        peer_dependencies: strings(value.get("peerDependencies")),
        peer_dependencies_meta: meta,
        bin: value.get("bin").map_or(Json::Null, to_json),
        directories: value.get("directories").map_or(Json::Null, to_json),
        dist: Dist {
            tarball: dist.get("tarball")?.as_str()?.to_string(),
            integrity: dist.get("integrity").and_then(Value::as_str).map(str::to_string),
        },
        os: list(value.get("os")),
        cpu: list(value.get("cpu")),
        libc: list(value.get("libc")),
        has_install_script: value.get("hasInstallScript") == Some(&Value::Bool(true)),
    })
}

fn read_packument(value: &Value) -> Packument {
    let mut versions = Dict::new();
    for (version, value) in value.get("versions").unwrap().as_object().unwrap() {
        versions.insert(
            version.clone(),
            Release {
                manifest: manifest(value),
                problem: "the manifest has no dist".to_string(),
                install_script: value.get("hasInstallScript") == Some(&Value::Bool(true)),
            },
        );
    }
    Packument {
        dist_tags: strings(value.get("dist-tags")),
        versions,
        modified: value.get("modified").and_then(Value::as_str).map(str::to_string),
        time: strings(value.get("time")),
    }
}

#[derive(Default)]
struct MemoryRegistry {
    packuments: HashMap<String, Value>,
    cache: HashMap<String, Value>,
    fetched: RefCell<BTreeSet<String>>,
}

impl Registry for MemoryRegistry {
    fn fetch(&self, names: &Vec<String>) -> Result<Vec<Packument>, Error> {
        self.fetched.borrow_mut().extend(names.iter().cloned());
        names
            .iter()
            .map(|name| match self.packuments.get(name) {
                Some(packument) => Ok(read_packument(packument)),
                None => Err(Error::new(format!("{name} is not in the registry"))),
            })
            .collect()
    }

    fn cached(&self, names: &Vec<String>) -> Vec<Option<Packument>> {
        names.iter().map(|name| self.cache.get(name).map(read_packument)).collect()
    }
}

/// The last version is tagged latest.
fn packument(name: &str, versions: Vec<(&str, Value)>) -> Value {
    let latest = versions.last().map(|(version, _)| version.to_string());
    let versions: serde_json::Map<String, Value> = versions
        .into_iter()
        .map(|(version, mut manifest)| {
            manifest["dist"] = json(&format!(
                r#"{{ "tarball": "https://registry.test/{name}/-/{version}.tgz", "integrity": "sha512-{name}-{version}" }}"#
            ));
            (version.to_string(), manifest)
        })
        .collect();
    let mut value = json("{}");
    value["dist-tags"] = json("{}");
    value["dist-tags"]["latest"] = latest.map_or(Value::Null, Value::String);
    value["versions"] = Value::Object(versions);
    value
}

fn registry(packages: Vec<(&str, Vec<(&str, Value)>)>) -> MemoryRegistry {
    MemoryRegistry {
        packuments: packages
            .into_iter()
            .map(|(name, versions)| (name.to_string(), packument(name, versions)))
            .collect(),
        ..Default::default()
    }
}

fn deps(entries: &[(&str, &str)]) -> Dict<String> {
    let mut dict = Dict::new();
    for (alias, spec) in entries {
        dict.insert(alias.to_string(), spec.to_string());
    }
    dict
}

fn specifiers(dependencies: &[(&str, &str)]) -> Specifiers {
    Specifiers {
        dependencies: deps(dependencies),
        dev_dependencies: Dict::new(),
        optional_dependencies: Dict::new(),
    }
}

fn pairs(entries: &[(&str, &str)]) -> Vec<(String, String)> {
    entries.iter().map(|(name, version)| (name.to_string(), version.to_string())).collect()
}

fn alone(specifiers: &Specifiers) -> Dict<Project> {
    let mut projects = Dict::new();
    let project = Project { name: None, version: None, specifiers: specifiers.duplicate() };
    projects.insert(".".to_string(), project);
    projects
}

fn resolve_one(
    specifiers: &Specifiers,
    registry: &MemoryRegistry,
    preferred: &[(&str, &str)],
) -> Result<Lock, Error> {
    resolve_overridden(specifiers, registry, preferred, &Dict::new())
}

fn resolve_overridden(
    specifiers: &Specifiers,
    registry: &MemoryRegistry,
    preferred: &[(&str, &str)],
    overrides: &Dict<String>,
) -> Result<Lock, Error> {
    resolve(&alone(specifiers), registry, &pairs(preferred), None, overrides)
}

fn dependency<'l>(lock: &'l Lock, path: &str, alias: &str) -> &'l str {
    lock.importers.get(path).unwrap().dependencies.get(alias).unwrap()
}

fn dep<'l>(lock: &'l Lock, id: &str, alias: &str) -> &'l str {
    lock.packages.get(id).unwrap().deps.get(alias).unwrap()
}

fn react_registry() -> MemoryRegistry {
    registry(vec![
        ("react", vec![("17.0.2", json("{}")), ("18.3.1", json("{}"))]),
        (
            "react-dom",
            vec![("18.3.1", json(r#"{ "peerDependencies": { "react": "^18.3.1" } }"#))],
        ),
        ("hooks", vec![("1.0.0", json(r#"{ "peerDependencies": { "react": "*" } }"#))]),
        (
            "legacy",
            vec![("1.0.0", json(r#"{ "dependencies": { "react": "^17", "hooks": "^1" } }"#))],
        ),
        ("plugin", vec![("1.0.0", json(r#"{ "dependencies": { "hooks": "^1" } }"#))]),
    ])
}

#[test]
fn resolve_picks_highest_matching_versions() {
    let registry = registry(vec![
        (
            "a",
            vec![
                ("1.0.0", json(r#"{ "dependencies": { "b": "^1" } }"#)),
                ("1.2.0", json(r#"{ "dependencies": { "b": "^1" }, "bin": { "a": "cli.js" } }"#)),
                ("2.0.0", json("{}")),
            ],
        ),
        ("b", vec![("1.0.0", json("{}")), ("1.5.0", json(r#"{ "hasInstallScript": true }"#))]),
    ]);
    let lock = resolve_one(&specifiers(&[("a", "^1")]), &registry, &[]).unwrap();

    assert_eq!(dependency(&lock, ".", "a"), "a@1.2.0");
    let a = lock.packages.get("a@1.2.0").unwrap();
    assert_eq!(a.deps.get("b").unwrap(), "b@1.5.0");
    assert_eq!(a.url, "https://registry.test/a/-/1.2.0.tgz");
    assert_eq!(a.integrity, "sha512-a-1.2.0");
    assert!(a.has_bin);
    assert!(lock.packages.get("b@1.5.0").unwrap().install_script);
    assert_eq!(lock.packages.len(), 2);
}

#[test]
fn mod_picks_highest_matching_versions() {
    let registry = registry(vec![
        (
            "a",
            vec![
                ("1.0.0", json(r#"{ "dependencies": { "b": "^1" } }"#)),
                ("1.2.0", json(r#"{ "dependencies": { "b": "^1" }, "bin": { "a": "cli.js" } }"#)),
                ("2.0.0", json("{}")),
            ],
        ),
        ("b", vec![("1.0.0", json("{}")), ("1.5.0", json(r#"{ "hasInstallScript": true }"#))]),
    ]);
    let lock = resolve_one(&specifiers(&[("a", "^1")]), &registry, &[]).unwrap();

    assert_eq!(dependency(&lock, ".", "a"), "a@1.2.0");
    let a = lock.packages.get("a@1.2.0").unwrap();
    assert_eq!(a.deps.get("b").unwrap(), "b@1.5.0");
    assert_eq!(a.url, "https://registry.test/a/-/1.2.0.tgz");
    assert_eq!(a.integrity, "sha512-a-1.2.0");
    assert!(a.has_bin);
    assert!(lock.packages.get("b@1.5.0").unwrap().install_script);
    assert_eq!(lock.packages.len(), 2);
}

#[test]
fn resolve_reuses_chosen_versions() {
    let registry = registry(vec![
        ("a", vec![("1.0.0", json(r#"{ "dependencies": { "c": "~1.0.0" } }"#))]),
        ("b", vec![("1.0.0", json(r#"{ "dependencies": { "c": "^1.0.0" } }"#))]),
        (
            "c",
            vec![("1.0.0", json("{}")), ("1.1.0", json("{}")), ("2.0.0", json("{}"))],
        ),
    ]);
    let lock = resolve_one(&specifiers(&[("a", "^1"), ("b", "^1")]), &registry, &[]).unwrap();

    assert_eq!(dep(&lock, "b@1.0.0", "c"), "c@1.0.0");
    assert!(!lock.packages.contains_key("c@1.1.0"));
}

#[test]
fn mod_reuses_chosen_versions() {
    let registry = registry(vec![
        ("a", vec![("1.0.0", json(r#"{ "dependencies": { "c": "~1.0.0" } }"#))]),
        ("b", vec![("1.0.0", json(r#"{ "dependencies": { "c": "^1.0.0" } }"#))]),
        (
            "c",
            vec![("1.0.0", json("{}")), ("1.1.0", json("{}")), ("2.0.0", json("{}"))],
        ),
    ]);
    let lock = resolve_one(&specifiers(&[("a", "^1"), ("b", "^1")]), &registry, &[]).unwrap();

    assert_eq!(dep(&lock, "b@1.0.0", "c"), "c@1.0.0");
    assert!(!lock.packages.contains_key("c@1.1.0"));
}

#[test]
fn resolve_prefers_previously_locked_versions() {
    let registry = registry(vec![("c", vec![("1.0.0", json("{}")), ("1.1.0", json("{}"))])]);
    let preferred = [("c", "1.0.0")];

    let lock = resolve_one(&specifiers(&[("c", "^1")]), &registry, &preferred).unwrap();
    assert_eq!(dependency(&lock, ".", "c"), "c@1.0.0");

    let lock = resolve_one(&specifiers(&[("c", "^1")]), &registry, &[]).unwrap();
    assert_eq!(dependency(&lock, ".", "c"), "c@1.1.0");
}

#[test]
fn mod_prefers_previously_locked_versions() {
    let registry = registry(vec![("c", vec![("1.0.0", json("{}")), ("1.1.0", json("{}"))])]);
    let preferred = [("c", "1.0.0")];

    let lock = resolve_one(&specifiers(&[("c", "^1")]), &registry, &preferred).unwrap();
    assert_eq!(dependency(&lock, ".", "c"), "c@1.0.0");

    let lock = resolve_one(&specifiers(&[("c", "^1")]), &registry, &[]).unwrap();
    assert_eq!(dependency(&lock, ".", "c"), "c@1.1.0");
}

#[test]
fn resolve_resolves_peers_from_siblings() {
    let lock = resolve_one(
        &specifiers(&[("react", "^18"), ("react-dom", "^18")]),
        &react_registry(),
        &[],
    )
    .unwrap();

    let id = dependency(&lock, ".", "react-dom");
    assert_eq!(id, "react-dom@18.3.1(react@18.3.1)");
    assert_eq!(dep(&lock, id, "react"), "react@18.3.1");
}

#[test]
fn mod_resolves_peers_from_siblings() {
    let lock = resolve_one(
        &specifiers(&[("react", "^18"), ("react-dom", "^18")]),
        &react_registry(),
        &[],
    )
    .unwrap();

    let id = dependency(&lock, ".", "react-dom");
    assert_eq!(id, "react-dom@18.3.1(react@18.3.1)");
    assert_eq!(dep(&lock, id, "react"), "react@18.3.1");
}

#[test]
fn resolve_separates_instances_by_peer_context() {
    let lock = resolve_one(
        &specifiers(&[("react", "^18"), ("hooks", "^1"), ("legacy", "^1"), ("plugin", "^1")]),
        &react_registry(),
        &[],
    )
    .unwrap();

    assert_eq!(dependency(&lock, ".", "hooks"), "hooks@1.0.0(react@18.3.1)");
    assert_eq!(dependency(&lock, ".", "legacy"), "legacy@1.0.0");
    assert_eq!(dep(&lock, "legacy@1.0.0", "hooks"), "hooks@1.0.0(react@17.0.2)");
    assert_eq!(dependency(&lock, ".", "plugin"), "plugin@1.0.0(react@18.3.1)");
    assert_eq!(
        dep(&lock, "plugin@1.0.0(react@18.3.1)", "hooks"),
        "hooks@1.0.0(react@18.3.1)"
    );
}

#[test]
fn mod_separates_instances_by_peer_context() {
    let lock = resolve_one(
        &specifiers(&[("react", "^18"), ("hooks", "^1"), ("legacy", "^1"), ("plugin", "^1")]),
        &react_registry(),
        &[],
    )
    .unwrap();

    assert_eq!(dependency(&lock, ".", "hooks"), "hooks@1.0.0(react@18.3.1)");
    assert_eq!(dependency(&lock, ".", "legacy"), "legacy@1.0.0");
    assert_eq!(dep(&lock, "legacy@1.0.0", "hooks"), "hooks@1.0.0(react@17.0.2)");
    assert_eq!(dependency(&lock, ".", "plugin"), "plugin@1.0.0(react@18.3.1)");
    assert_eq!(
        dep(&lock, "plugin@1.0.0(react@18.3.1)", "hooks"),
        "hooks@1.0.0(react@18.3.1)"
    );
}

#[test]
fn resolve_installs_missing_peers() {
    let lock =
        resolve_one(&specifiers(&[("react-dom", "^18")]), &react_registry(), &[]).unwrap();

    assert_eq!(dependency(&lock, ".", "react-dom"), "react-dom@18.3.1");
    assert_eq!(dep(&lock, "react-dom@18.3.1", "react"), "react@18.3.1");
}

#[test]
fn mod_installs_missing_peers() {
    let lock =
        resolve_one(&specifiers(&[("react-dom", "^18")]), &react_registry(), &[]).unwrap();

    assert_eq!(dependency(&lock, ".", "react-dom"), "react-dom@18.3.1");
    assert_eq!(dep(&lock, "react-dom@18.3.1", "react"), "react@18.3.1");
}

#[test]
fn resolve_satisfies_optional_peers_from_anywhere_in_the_graph() {
    let registry = registry(vec![
        ("chalk", vec![("4.1.2", json(r#"{ "dependencies": { "supports-color": "^7" } }"#))]),
        ("supports-color", vec![("7.2.0", json("{}"))]),
        (
            "debug",
            vec![(
                "4.4.3",
                json(
                    r#"{
                        "peerDependencies": { "supports-color": "*" },
                        "peerDependenciesMeta": { "supports-color": { "optional": true } }
                    }"#,
                ),
            )],
        ),
        ("app", vec![("1.0.0", json(r#"{ "dependencies": { "debug": "^4" } }"#))]),
    ]);
    let lock =
        resolve_one(&specifiers(&[("chalk", "^4"), ("app", "^1")]), &registry, &[]).unwrap();

    assert_eq!(dependency(&lock, ".", "app"), "app@1.0.0(supports-color@7.2.0)");
    assert_eq!(
        dep(&lock, "debug@4.4.3(supports-color@7.2.0)", "supports-color"),
        "supports-color@7.2.0"
    );
}

#[test]
fn mod_satisfies_optional_peers_from_anywhere_in_the_graph() {
    let registry = registry(vec![
        ("chalk", vec![("4.1.2", json(r#"{ "dependencies": { "supports-color": "^7" } }"#))]),
        ("supports-color", vec![("7.2.0", json("{}"))]),
        (
            "debug",
            vec![(
                "4.4.3",
                json(
                    r#"{
                        "peerDependencies": { "supports-color": "*" },
                        "peerDependenciesMeta": { "supports-color": { "optional": true } }
                    }"#,
                ),
            )],
        ),
        ("app", vec![("1.0.0", json(r#"{ "dependencies": { "debug": "^4" } }"#))]),
    ]);
    let lock =
        resolve_one(&specifiers(&[("chalk", "^4"), ("app", "^1")]), &registry, &[]).unwrap();

    assert_eq!(dependency(&lock, ".", "app"), "app@1.0.0(supports-color@7.2.0)");
    assert_eq!(
        dep(&lock, "debug@4.4.3(supports-color@7.2.0)", "supports-color"),
        "supports-color@7.2.0"
    );
}

#[test]
fn resolve_follows_aliases_and_tags_and_skips_unsatisfiable_optionals() {
    let registry = registry(vec![
        ("strip-ansi", vec![("6.0.1", json("{}")), ("7.1.0", json("{}"))]),
        ("@scope/pkg", vec![("1.0.0", json("{}"))]),
        ("gone", vec![("1.0.0", json("{}"))]),
    ]);
    let specifiers = Specifiers {
        dependencies: deps(&[
            ("strip", "npm:strip-ansi@^6"),
            ("scoped", "npm:@scope/pkg"),
            ("strip-ansi", "latest"),
        ]),
        dev_dependencies: Dict::new(),
        optional_dependencies: deps(&[("gone", "^9")]),
    };
    let lock = resolve_one(&specifiers, &registry, &[]).unwrap();
    let root = lock.importers.get(".").unwrap();

    assert_eq!(root.dependencies.get("strip").unwrap(), "strip-ansi@6.0.1");
    assert_eq!(root.dependencies.get("scoped").unwrap(), "@scope/pkg@1.0.0");
    assert_eq!(root.dependencies.get("strip-ansi").unwrap(), "strip-ansi@7.1.0");
    assert!(root.optional_dependencies.is_empty());
    assert_eq!(root.specifiers, specifiers);
}

#[test]
fn mod_follows_aliases_and_tags_and_skips_unsatisfiable_optionals() {
    let registry = registry(vec![
        ("strip-ansi", vec![("6.0.1", json("{}")), ("7.1.0", json("{}"))]),
        ("@scope/pkg", vec![("1.0.0", json("{}"))]),
        ("gone", vec![("1.0.0", json("{}"))]),
    ]);
    let specifiers = Specifiers {
        dependencies: deps(&[
            ("strip", "npm:strip-ansi@^6"),
            ("scoped", "npm:@scope/pkg"),
            ("strip-ansi", "latest"),
        ]),
        dev_dependencies: Dict::new(),
        optional_dependencies: deps(&[("gone", "^9")]),
    };
    let lock = resolve_one(&specifiers, &registry, &[]).unwrap();
    let root = lock.importers.get(".").unwrap();

    assert_eq!(root.dependencies.get("strip").unwrap(), "strip-ansi@6.0.1");
    assert_eq!(root.dependencies.get("scoped").unwrap(), "@scope/pkg@1.0.0");
    assert_eq!(root.dependencies.get("strip-ansi").unwrap(), "strip-ansi@7.1.0");
    assert!(root.optional_dependencies.is_empty());
    assert_eq!(root.specifiers, specifiers);
}

#[test]
fn resolve_handles_cycles() {
    let registry = registry(vec![
        ("a", vec![("1.0.0", json(r#"{ "dependencies": { "b": "^1" } }"#))]),
        ("b", vec![("1.0.0", json(r#"{ "dependencies": { "a": "^1" } }"#))]),
    ]);
    let lock = resolve_one(&specifiers(&[("a", "^1")]), &registry, &[]).unwrap();

    assert_eq!(dep(&lock, "b@1.0.0", "a"), "a@1.0.0");
    assert_eq!(lock.sccs, vec![vec!["a@1.0.0".to_string(), "b@1.0.0".to_string()]]);
}

#[test]
fn mod_handles_cycles() {
    let registry = registry(vec![
        ("a", vec![("1.0.0", json(r#"{ "dependencies": { "b": "^1" } }"#))]),
        ("b", vec![("1.0.0", json(r#"{ "dependencies": { "a": "^1" } }"#))]),
    ]);
    let lock = resolve_one(&specifiers(&[("a", "^1")]), &registry, &[]).unwrap();

    assert_eq!(dep(&lock, "b@1.0.0", "a"), "a@1.0.0");
    assert_eq!(lock.sccs, vec![vec!["a@1.0.0".to_string(), "b@1.0.0".to_string()]]);
}

#[test]
fn resolve_rejects_unsupported_specifiers() {
    let registry = registry(vec![]);
    let error =
        resolve_one(&specifiers(&[("x", "github:user/repo")]), &registry, &[]).unwrap_err();
    assert!(format!("{error:?}").contains("not supported yet"));
}

#[test]
fn mod_rejects_unsupported_specifiers() {
    let registry = registry(vec![]);
    let error =
        resolve_one(&specifiers(&[("x", "github:user/repo")]), &registry, &[]).unwrap_err();
    assert!(format!("{error:?}").contains("not supported yet"));
}

fn override_registry() -> MemoryRegistry {
    registry(vec![
        ("old", vec![("1.0.0", json(r#"{ "dependencies": { "dep": "^1" } }"#))]),
        (
            "dep",
            vec![("1.0.0", json("{}")), ("2.0.0", json("{}")), ("3.0.0", json("{}"))],
        ),
    ])
}

#[test]
fn overrides_what_dependencies_ask_for() {
    let overrides = deps(&[("dep", "^2"), ("absent", "^1")]);
    let lock = resolve_overridden(
        &specifiers(&[("old", "^1")]),
        &override_registry(),
        &[],
        &overrides,
    )
    .unwrap();

    assert_eq!(dep(&lock, "old@1.0.0", "dep"), "dep@2.0.0");
    assert!(!lock.packages.contains_key("dep@1.0.0"));
    // An override nothing depends on is reported, not fatal.
    assert_eq!(lock.overrides, overrides);
    let (_, unused) = resolve_and_report(
        &alone(&specifiers(&[("old", "^1")])),
        &override_registry(),
        &Vec::new(),
        None,
        &overrides,
    )
    .unwrap();
    assert_eq!(unused, ["absent"]);
}

#[test]
fn overrides_only_the_ranges_a_selector_matches() {
    let lock = resolve_overridden(
        &specifiers(&[("old", "^1"), ("dep", "^3")]),
        &override_registry(),
        &[],
        &deps(&[("dep@^1", "^2")]),
    )
    .unwrap();

    assert_eq!(dep(&lock, "old@1.0.0", "dep"), "dep@2.0.0");
    assert_eq!(dependency(&lock, ".", "dep"), "dep@3.0.0");
}

#[test]
fn uses_cached_metadata_only_when_it_cannot_change_the_result() {
    let mut registry = registry(vec![("c", vec![("1.0.0", json("{}")), ("1.1.0", json("{}"))])]);
    registry.cache.insert("c".to_string(), packument("c", vec![("1.0.0", json("{}"))]));

    for (spec, locked, expected, fetched) in [
        ("^1", Some("1.0.0"), "c@1.0.0", false),
        ("1.0.0", None, "c@1.0.0", false),
        ("^1", Some("1.1.0"), "c@1.1.0", true),
        ("^1", None, "c@1.1.0", true),
        ("latest", Some("1.0.0"), "c@1.1.0", true),
    ] {
        registry.fetched.borrow_mut().clear();
        let preferred: Vec<(&str, &str)> = locked.map(|version| ("c", version)).into_iter().collect();
        let lock = resolve_one(&specifiers(&[("c", spec)]), &registry, &preferred).unwrap();
        assert_eq!(dependency(&lock, ".", "c"), expected, "{spec} {locked:?}");
        assert_eq!(registry.fetched.borrow().contains("c"), fetched, "{spec} {locked:?}");
    }
}

#[test]
fn skips_versions_published_after_the_cutoff() {
    let cutoff = parse_time("2026-01-02T00:00:00Z").unwrap();
    let mut registry = registry(vec![(
        "a",
        vec![("1.0.0", json("{}")), ("1.1.0-rc.1", json("{}")), ("1.1.0", json("{}"))],
    )]);
    let a = registry.packuments.get_mut("a").unwrap();
    a["modified"] = json(r#""2026-01-03T00:00:00Z""#);
    a["time"] = json(
        r#"{
            "1.0.0": "2025-12-01T00:00:00Z",
            "1.1.0-rc.1": "2025-12-15T00:00:00Z",
            "1.1.0": "2026-01-03T00:00:00Z"
        }"#,
    );
    let resolve = |spec: &str, locked: &[(&str, &str)]| {
        resolve(
            &alone(&specifiers(&[("a", spec)])),
            &registry,
            &pairs(locked),
            Some(cutoff),
            &Dict::new(),
        )
        .map(|lock| dependency(&lock, ".", "a").to_string())
    };

    assert_eq!(resolve("^1", &[]).unwrap(), "a@1.0.0");
    assert_eq!(resolve("latest", &[]).unwrap(), "a@1.0.0");
    let locked = [("a", "1.1.0")];
    assert_eq!(resolve("^1", &locked).unwrap(), "a@1.1.0");

    let error = resolve("1.1.0", &[]).unwrap_err();
    assert!(format!("{error:?}").contains("minimumReleaseAge"), "{error:?}");
}

#[test]
fn chooses_new_versions_of_what_has_not_changed_since_the_cutoff() {
    let mut registry = registry(vec![("a", vec![("1.0.0", json("{}"))])]);
    let lock = |registry: &MemoryRegistry, cutoff: Option<Timestamp>| {
        resolve(&alone(&specifiers(&[("a", "^1")])), registry, &Vec::new(), cutoff, &Dict::new())
    };
    let cutoff = parse_time("2026-01-02T00:00:00Z");
    assert_eq!(
        lock(&registry, cutoff).unwrap_err().message(),
        "every version of a matching ^1 was published too recently for hinata.minimumReleaseAge"
    );
    let a = registry.packuments.get_mut("a").unwrap();
    a["modified"] = json(r#""2026-01-01T23:59:59Z""#);
    assert!(lock(&registry, cutoff).is_ok());
}

fn project(name: &str, version: &str, dependencies: &[(&str, &str)]) -> Project {
    Project {
        name: Some(name.to_string()),
        version: Some(version.to_string()),
        specifiers: specifiers(dependencies),
    }
}

fn projects(entries: Vec<(&str, Project)>) -> Dict<Project> {
    let mut dict = Dict::new();
    for (path, project) in entries {
        dict.insert(path.to_string(), project);
    }
    dict
}

#[test]
fn resolves_workspace_importers_and_links() {
    let projects = projects(vec![
        (
            ".",
            project(
                "root",
                "0.0.0",
                &[("react", "^18"), ("hooks", "^1"), ("shared", "workspace:^")],
            ),
        ),
        (
            "apps/legacy",
            project(
                "legacy-app",
                "1.0.0",
                &[("react", "^17"), ("hooks", "^1"), ("common", "workspace:shared@^1.2.0")],
            ),
        ),
        ("packages/shared", project("shared", "1.2.3", &[("react-dom", "^18")])),
    ]);
    let lock = resolve(&projects, &react_registry(), &Vec::new(), None, &Dict::new()).unwrap();

    let root = lock.importers.get(".").unwrap();
    assert_eq!(root.dependencies.get("hooks").unwrap(), "hooks@1.0.0(react@18.3.1)");
    assert_eq!(root.links.get("shared").unwrap(), "packages/shared");
    assert!(!root.dependencies.contains_key("shared"));
    assert_eq!(root.specifiers.dependencies.get("shared").unwrap(), "workspace:^");

    let legacy = lock.importers.get("apps/legacy").unwrap();
    assert_eq!(legacy.dependencies.get("react").unwrap(), "react@17.0.2");
    assert_eq!(legacy.dependencies.get("hooks").unwrap(), "hooks@1.0.0(react@17.0.2)");
    assert_eq!(legacy.links.get("common").unwrap(), "../../packages/shared");

    assert_eq!(dependency(&lock, "packages/shared", "react-dom"), "react-dom@18.3.1");
    assert_eq!(lock.importers.len(), 3);
}

#[test]
fn rejects_mismatched_workspace_links() {
    let registry = registry(vec![]);
    for (spec, message) in [
        ("workspace:^2", "does not match ^2"),
        ("workspace:missing@*", "no workspace package is named missing"),
    ] {
        let projects = projects(vec![
            (".", project("root", "0.0.0", &[("shared", spec)])),
            ("packages/shared", project("shared", "1.0.0", &[])),
        ]);
        let error =
            resolve(&projects, &registry, &Vec::new(), None, &Dict::new()).unwrap_err();
        assert!(format!("{error:?}").contains(message), "{spec}: {error:?}");
    }
}

#[test]
fn rejects_projects_of_the_same_name() {
    let projects = projects(vec![
        ("a", project("shared", "1.0.0", &[])),
        ("b", project("shared", "1.0.0", &[])),
    ]);
    let error =
        resolve(&projects, &registry(vec![]), &Vec::new(), None, &Dict::new()).unwrap_err();
    assert_eq!(error.message(), "a and b are both named shared");
}

#[test]
fn fails_with_what_the_registry_fails_with() {
    let error =
        resolve_one(&specifiers(&[("a", "^1")]), &registry(vec![]), &[]).unwrap_err();
    assert_eq!(error.chain, ["a is not in the registry"]);
}

#[test]
fn names_what_no_version_matches() {
    let registry = registry(vec![("a", vec![("1.0.0", json("{}"))])]);
    let error = resolve_one(&specifiers(&[("a", "^2")]), &registry, &[]).unwrap_err();
    assert_eq!(error.chain, ["no version of a matches ^2"]);

    let error = resolve_one(&specifiers(&[("a", "~*")]), &registry, &[]).unwrap_err();
    assert_eq!(error.chain, ["no version of a matches ~*"]);
}

#[test]
fn names_the_package_that_asks_for_something_unsupported() {
    let registry = registry(vec![(
        "a",
        vec![("1.0.0", json(r#"{ "dependencies": { "b": "file:../b" } }"#))],
    )]);
    let error = resolve_one(&specifiers(&[("a", "^1")]), &registry, &[]).unwrap_err();
    assert_eq!(
        error.chain,
        [
            "in a@1.0.0",
            "b: file:../b is not supported yet; only registry versions, ranges and tags are"
        ]
    );
}

#[test]
fn needs_integrity_hashes_and_readable_manifests() {
    let mut registry = registry(vec![("a", vec![("1.0.0", json("{}"))])]);
    registry.packuments.get_mut("a").unwrap()["versions"]["1.0.0"]["dist"] =
        json(r#"{ "tarball": "https://registry.test/a.tgz" }"#);
    let error = resolve_one(&specifiers(&[("a", "^1")]), &registry, &[]).unwrap_err();
    assert_eq!(error.chain, ["a@1.0.0 has no integrity hash in the registry"]);

    registry.packuments.get_mut("a").unwrap()["versions"]["1.0.0"] = json("{}");
    let error = resolve_one(&specifiers(&[("a", "^1")]), &registry, &[]).unwrap_err();
    assert_eq!(
        error.chain,
        ["reading the registry metadata of a@1.0.0", "the manifest has no dist"]
    );
}

#[test]
fn settles_references_within_cycles_of_peers() {
    let registry = registry(vec![
        (
            "a",
            vec![(
                "1.0.0",
                json(r#"{ "dependencies": { "b": "^1" }, "peerDependencies": { "c": "*" } }"#),
            )],
        ),
        (
            "b",
            vec![(
                "1.0.0",
                json(r#"{ "dependencies": { "a": "^1" }, "peerDependencies": { "c": "*" } }"#),
            )],
        ),
        ("c", vec![("1.0.0", json("{}"))]),
    ]);
    let lock = resolve_one(&specifiers(&[("a", "^1"), ("c", "^1")]), &registry, &[]).unwrap();
    for i in 0..lock.packages.len() {
        let package = lock.packages.value(i);
        for k in 0..package.deps.len() {
            assert!(lock.packages.contains_key(package.deps.value(k)), "{}", package.deps.value(k));
        }
    }
    assert!(lock.packages.contains_key(dependency(&lock, ".", "a")));
}

#[test]
fn resolved_locks_match_what_they_were_resolved_from() {
    let asked = alone(&specifiers(&[("react-dom", "^18"), ("legacy", "^1"), ("plugin", "^1")]));
    let overrides = deps(&[("hooks", "1.0.0")]);
    let lock = resolve(&asked, &react_registry(), &Vec::new(), None, &overrides).unwrap();

    assert!(current(&lock, &asked, &overrides));
    assert!(!current(&lock, &asked, &Dict::new()));
    assert!(!current(&lock, &alone(&specifiers(&[("legacy", "^1")])), &overrides));
    validate(&lock).unwrap();
    for i in 0..lock.packages.len() {
        let package = lock.packages.value(i);
        for j in 0..package.deps.len() {
            assert!(lock.packages.contains_key(package.deps.value(j)));
        }
    }

    // Runtimes are not compared, so a project that asks for one is resolved every time.
    let mut runtime = specifiers(&[]);
    runtime.optional_dependencies = deps(&[("node", "runtime:22")]);
    let lock = resolve(&alone(&runtime), &react_registry(), &Vec::new(), None, &Dict::new()).unwrap();
    assert!(!current(&lock, &alone(&runtime), &Dict::new()));
}
