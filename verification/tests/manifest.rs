//! What projects say of themselves.
use hinata::dict::{Dict, Names};
use hinata::error::Error;
use hinata::lock::{Patch, Specifiers};
use hinata::manifest::{
    is_skipped_directory, matches_path, matches_segment, AllowBuild, AllowBuilds, BuildMode, Group, HinataConfig,
    Manifest, PnpmWorkspace, Reading,
};
use hinata::resolve::relative_path;
use hinata::util::{cache_dir, hash, hex, metadata_dir, project_dir, projects_dir};

#[test]
fn computes_relative_paths() {
    assert_eq!(relative_path(".", "packages/a"), "packages/a");
    assert_eq!(relative_path("packages/a", "packages/b"), "../b");
    assert_eq!(relative_path("apps/web", "."), "../..");
    assert_eq!(relative_path("packages/a", "packages/a"), ".");
}

#[test]
fn matches_glob_patterns() {
    assert!(matches_segment(b"*", b"anything"));
    assert!(matches_segment(b"app-?", b"app-1"));
    assert!(!matches_segment(b"app-*", b"lib-1"));
    assert!(matches_path(&["a", "**", "c"], &["a", "c"], false));
    assert!(matches_path(
        &["a", "**", "c"],
        &["a", "b", "b", "c"],
        false
    ));
    assert!(!matches_path(&["a", "*"], &["a"], false));
    assert!(matches_path(&["a", "*"], &["a"], true));
    assert!(!matches_path(&["a", "*"], &["a", "b", "c"], true));
}

fn dict(entries: &[(&str, &str)]) -> Dict<String> {
    let mut dict = Dict::new();
    for (key, value) in entries {
        dict.insert((*key).to_string(), (*value).to_string());
    }
    dict
}

fn names(entries: &[&str]) -> AllowBuilds {
    let mut names = Names::new();
    for name in entries {
        names.insert((*name).to_string());
    }
    AllowBuilds::Names(names)
}

fn entries(entries: &[(&str, AllowBuild)]) -> AllowBuilds {
    let mut dict = Dict::new();
    for (name, entry) in entries {
        dict.insert((*name).to_string(), *entry);
    }
    AllowBuilds::Entries(dict)
}

fn lists(entries: &[(&str, &[&str])]) -> Dict<Vec<String>> {
    let mut dict = Dict::new();
    for (key, values) in entries {
        dict.insert((*key).to_string(), values.iter().map(|value| (*value).to_string()).collect());
    }
    dict
}

fn flags(entries: &[(&str, bool)]) -> Dict<bool> {
    let mut dict = Dict::new();
    for (key, value) in entries {
        dict.insert((*key).to_string(), *value);
    }
    dict
}

fn manifest(allow_builds: AllowBuilds, workspace_builds: Dict<bool>) -> Manifest {
    Manifest {
        name: Some("app".to_string()),
        version: None,
        specifiers: Specifiers {
            dependencies: dict(&[("a", "^1")]),
            dev_dependencies: Dict::new(),
            optional_dependencies: Dict::new(),
        },
        scripts: Dict::new(),
        hinata: HinataConfig {
            allow_builds,
            build_inputs: Dict::new(),
            patched_dependencies: Dict::new(),
            substituters: Dict::new(),
            nixpkgs: None,
            overrides: Dict::new(),
            minimum_release_age: 0,
        },
        workspace: PnpmWorkspace {
            packages: Vec::new(),
            allow_builds: workspace_builds,
            build_inputs: Dict::new(),
            patched_dependencies: Dict::new(),
        },
        node: None,
    }
}

fn modes(entries: &[(&str, BuildMode)]) -> Dict<BuildMode> {
    let mut dict = Dict::new();
    for (name, mode) in entries {
        dict.insert((*name).to_string(), *mode);
    }
    dict
}

#[test]
fn reads_build_allowlists_from_hinata_and_pnpm_workspace() {
    let manifest = manifest(names(&["esbuild"]), flags(&[("sharp", true), ("core-js", false)]));
    assert_eq!(manifest.name.as_deref(), Some("app"));
    assert_eq!(manifest.project().specifiers.dependencies.get("a").unwrap(), "^1");
    assert_eq!(
        manifest.allow_builds(),
        modes(&[("esbuild", BuildMode::Sandboxed), ("sharp", BuildMode::Sandboxed)])
    );
}

#[test]
fn reads_impure_builds_and_overrides_pnpm_workspace() {
    let manifest = manifest(
        entries(&[
            ("esbuild", AllowBuild::Allowed(true)),
            ("puppeteer", AllowBuild::Mode(BuildMode::Impure)),
            ("sharp", AllowBuild::Allowed(false)),
        ]),
        flags(&[("sharp", true), ("puppeteer", true)]),
    );
    assert_eq!(
        manifest.allow_builds(),
        modes(&[("esbuild", BuildMode::Sandboxed), ("puppeteer", BuildMode::Impure)])
    );
}

#[test]
fn reads_build_inputs_for_sandboxed_builds() {
    let mut project = manifest(names(&["a", "b"]), flags(&[]));
    project.hinata.build_inputs = lists(&[("a", &["cairo"]), ("b", &[])]);
    project.workspace.build_inputs = lists(&[("a", &["vips"]), ("b", &["vips"])]);
    assert_eq!(project.build_inputs().unwrap(), lists(&[("a", &["cairo"])]));

    for (allowed, message) in [
        (names(&[]), "not allowed to run"),
        (entries(&[("a", AllowBuild::Mode(BuildMode::Impure))]), "outside the Nix sandbox"),
    ] {
        let mut project = manifest(allowed, flags(&[]));
        project.hinata.build_inputs = lists(&[("a", &["cairo"])]);
        let error = project.build_inputs().unwrap_err();
        assert!(error.message().contains(message), "{error:?}");
    }
}

#[test]
fn reads_patches_from_hinata_and_pnpm_workspace() {
    let mut project = manifest(names(&[]), flags(&[]));
    project.hinata.patched_dependencies = dict(&[("a@1.0.0", "patches/a.patch")]);
    project.workspace.patched_dependencies =
        dict(&[("a@1.0.0", "patches/b.patch"), ("b", "./patches/b.patch")]);
    let mut files = Dict::new();
    files.insert("patches/a.patch".to_string(), Reading::Contents(b"a".to_vec()));
    files.insert("./patches/b.patch".to_string(), Reading::Contents(b"b".to_vec()));

    let patches = project.patches(&files).unwrap();
    assert_eq!(patches.len(), 2);
    assert_eq!(
        patches.get("a@1.0.0").unwrap(),
        &Patch { path: "patches/a.patch".to_string(), hash: hash(b"a") }
    );
    assert_eq!(
        patches.get("b").unwrap(),
        &Patch { path: "./patches/b.patch".to_string(), hash: hash(b"b") }
    );

    files.insert(
        "patches/a.patch".to_string(),
        Reading::Failed(Error::new("reading patches/a.patch".to_string())),
    );
    assert_eq!(project.patches(&files).unwrap_err().message(), "reading patches/a.patch");

    for path in ["../a.patch", "/a.patch", "patches/../../a.patch"] {
        project.hinata.patched_dependencies = dict(&[("a", path)]);
        let error = project.patches(&files).unwrap_err();
        assert!(error.message().contains("inside the project"), "{error:?}");
    }
}

#[test]
fn finds_workspace_packages() {
    let mut project = manifest(names(&[]), flags(&[]));
    assert!(project.workspace_packages().is_none());
    project.workspace.packages = ["packages/*", "./tools/**", "!packages/b"]
        .iter()
        .map(|pattern| (*pattern).to_string())
        .collect();
    let patterns = project.workspace_packages().unwrap();

    assert!(patterns.descends_into(&["packages"]));
    assert!(!patterns.is_package(&["packages"]));
    assert!(patterns.is_package(&["packages", "a"]));
    assert!(!patterns.is_package(&["packages", "b"]));
    assert!(patterns.is_package(&["tools", "deep", "nested"]));
    assert!(patterns.descends_into(&["tools", "deep"]));
    assert!(!patterns.descends_into(&["other"]));
    assert!(is_skipped_directory("node_modules"));
    assert!(is_skipped_directory(".hidden"));
    assert!(!is_skipped_directory("packages"));
}

#[test]
fn names_groups() {
    assert_eq!(Group::Prod.key(), "dependencies");
    assert_eq!(Group::Dev.key(), "devDependencies");
    assert_eq!(Group::Optional.key(), "optionalDependencies");
}

#[test]
fn hashes_and_names_directories() {
    assert_eq!(hex(&vec![0, 15, 16, 255]), "000f10ff");
    assert_eq!(
        hash(b"abc"),
        "ba7816bf8f01cfea414140de5dae2223b00361a396177a9cb410ff61f20015ad"
    );
    assert_eq!(cache_dir(Some("/cache"), Some("/home/u")).unwrap(), "/cache/hinata");
    assert_eq!(cache_dir(None, Some("/home/u/")).unwrap(), "/home/u/.cache/hinata");
    assert_eq!(
        cache_dir(None, None).unwrap_err().message(),
        "neither XDG_CACHE_HOME nor HOME is set"
    );
    assert_eq!(projects_dir("/c"), "/c/projects");
    assert_eq!(metadata_dir("/c"), "/c/metadata");
    assert_eq!(
        project_dir("/c", b"abc"),
        "/c/projects/ba7816bf8f01cfea414140de5dae2223b00361a396177a9cb410ff61f20015ad"
    );
}
