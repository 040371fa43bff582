//! What installs do with the lockfiles they find.
use hinata::dict::{Dict, Names};
use hinata::error::Error;
use hinata::install::{
    builds_for_user_node, cache_key, choose_packages, finish, importer_packages, mark_builds, mark_patches,
    missing_updates, newest_release, node_major, pick_node, preferred, Finish, ImporterRoots, Lockfile, Update,
};
use hinata::json::Json;
use hinata::lock::{Importer, Lock, Package, Patch, Specifiers, VERSION};
use hinata::manifest::BuildMode;
use hinata::nix::{
    build_arguments, built_path, flake_lock_nixpkgs, lock_nixpkgs, node_arguments, shareable, FlakeLock, FlakeNode,
    INSTALL,
};
use hinata::registry::{cache_nothing, Packument, Registry};
use hinata::resolve::Project;
use hinata::util::is_pruned;
use hinata::workspace::{cached_workspace, current_workspace, installed, plan_build, tasks, Build, Task};

fn text(text: &str) -> Json {
    Json::String(text.to_string())
}

fn dict(entries: &[(&str, &str)]) -> Dict<String> {
    let mut dict = Dict::new();
    for (key, value) in entries {
        dict.insert((*key).to_string(), (*value).to_string());
    }
    dict
}

fn attributes(entries: &[(&str, &str)]) -> Dict<Json> {
    let mut dict = Dict::new();
    for (key, value) in entries {
        dict.insert((*key).to_string(), text(value));
    }
    dict
}

fn specifiers(dependencies: &[(&str, &str)]) -> Specifiers {
    Specifiers {
        dependencies: dict(dependencies),
        dev_dependencies: Dict::new(),
        optional_dependencies: Dict::new(),
    }
}

struct NoRegistry;

impl Registry for NoRegistry {
    fn fetch(&self, names: &Vec<String>) -> Result<Vec<Packument>, Error> {
        Err(Error::new(format!("fetching {}", names.join(" "))))
    }

    fn cached(&self, names: &Vec<String>) -> Vec<Option<Packument>> {
        cache_nothing(names)
    }
}

fn package(name: &str, version: &str) -> Package {
    Package {
        name: name.to_string(),
        version: version.to_string(),
        url: "u".to_string(),
        integrity: "sha512-i".to_string(),
        deps: Dict::new(),
        optional_deps: Dict::new(),
        os: None,
        cpu: None,
        libc: None,
        has_bin: false,
        install_script: false,
        build: false,
        impure_build: false,
        build_inputs: Vec::new(),
        patch: None,
    }
}

fn lock(importers: &[(&str, &[(&str, &str)])], packages: &[(&str, &str)]) -> Lock {
    let mut all = Dict::new();
    for (name, version) in packages {
        all.insert(format!("{name}@{version}"), package(name, version));
    }
    let mut projects = Dict::new();
    for (path, dependencies) in importers {
        let importer = Importer {
            dependencies: Dict::new(),
            dev_dependencies: Dict::new(),
            optional_dependencies: Dict::new(),
            links: Dict::new(),
            specifiers: specifiers(dependencies),
        };
        projects.insert((*path).to_string(), importer);
    }
    Lock {
        version: VERSION,
        nixpkgs: None,
        node: None,
        overrides: Dict::new(),
        packages: all,
        sccs: Vec::new(),
        importers: projects,
    }
}

fn projects(entries: &[(&str, &[(&str, &str)])]) -> Dict<Project> {
    let mut projects = Dict::new();
    for (path, dependencies) in entries {
        let project = Project { name: None, version: None, specifiers: specifiers(dependencies) };
        projects.insert((*path).to_string(), project);
    }
    projects
}

fn chosen(
    existing: Option<Lock>,
    pnpm: Option<Lock>,
    projects: &Dict<Project>,
    lockfile: Lockfile,
) -> Result<(Lock, bool), Error> {
    let none = Dict::new();
    choose_packages(existing, pnpm, projects, &NoRegistry, &Update::Keep, lockfile, None, &none)
        .map(|chosen| (chosen.lock, chosen.pnpm_only))
}

#[test]
fn writes_only_what_changed() {
    let error = chosen(None, None, &projects(&[(".", &[])]), Lockfile::Frozen).unwrap_err();
    assert!(error.message().contains("hinata install"), "{error:?}");

    let found = lock(&[(".", &[])], &[]);
    assert!(chosen(Some(found), None, &projects(&[(".", &[])]), Lockfile::Frozen).is_ok());
    assert!(finish(false, Lockfile::Frozen, Some("{}"), "{ }").is_err());
    assert!(finish(false, Lockfile::Frozen, None, "{ }").is_err());
    assert_eq!(finish(false, Lockfile::Frozen, Some("{}"), "{}").unwrap(), Finish::Leave);
    assert_eq!(finish(true, Lockfile::Frozen, None, "{}").unwrap(), Finish::Leave);
    assert_eq!(finish(false, Lockfile::Default, None, "{}").unwrap(), Finish::Create);
    assert_eq!(finish(false, Lockfile::Default, Some("{ }"), "{}").unwrap(), Finish::Replace);
}

#[test]
fn resolves_again_when_an_override_or_the_format_changes() {
    let asked = projects(&[(".", &[("a", "^1")])]);
    let found = || lock(&[(".", &[("a", "^1")])], &[("a", "1.0.0")]);
    let run = |found: Lock, overrides: &[(&str, &str)]| {
        let overrides = dict(overrides);
        let update = Update::Keep;
        choose_packages(Some(found), None, &asked, &NoRegistry, &update, Lockfile::Default, None, &overrides)
    };
    assert!(run(found(), &[]).is_ok());
    assert_eq!(run(found(), &[("b", "^1")]).err().unwrap().message(), "fetching a");
    let mut older = found();
    older.version = 0;
    assert_eq!(run(older, &[]).err().unwrap().message(), "fetching a");
}

#[test]
fn looks_up_install_scripts_to_save_a_lockfile() {
    let asked = projects(&[(".", &[("a", "^1")])]);
    let found = lock(&[(".", &[("a", "^1")])], &[("a", "1.0.0")]);
    let error = chosen(None, Some(found), &asked, Lockfile::Save).unwrap_err();
    assert_eq!(error.message(), "fetching a");
}

#[test]
fn prefers_versions_that_are_not_updated() {
    let found = lock(&[], &[("b", "2.0.0"), ("a", "1.0.0"), ("a", "1.1.0")]);
    let pair = |name: &str, version: &str| (name.to_string(), version.to_string());
    assert_eq!(
        preferred(Some(&found), &Update::Keep),
        [pair("a", "1.0.0"), pair("a", "1.1.0"), pair("b", "2.0.0")]
    );
    let mut names = Names::new();
    names.insert("a".to_string());
    names.insert("c".to_string());
    assert_eq!(missing_updates(&names, &found).to_vec(), ["c"]);
    assert_eq!(preferred(Some(&found), &Update::Only(names)), [pair("b", "2.0.0")]);
    assert!(preferred(Some(&found), &Update::All).is_empty());
    assert!(preferred(None, &Update::Keep).is_empty());
}

#[test]
fn patches_one_version_before_all_of_them() {
    let mut found = lock(&[], &[("a", "1.0.0"), ("a", "2.0.0")]);
    let mut patches = Dict::new();
    for key in ["a@1.0.0", "a", "b"] {
        let patch = Patch { path: format!("{key}.patch"), hash: String::new() };
        patches.insert(key.to_string(), patch);
    }
    assert_eq!(mark_patches(&mut found, &patches).to_vec(), ["b"]);
    let path = |id: &str| found.packages.get(id).unwrap().patch.as_ref().unwrap().path.clone();
    assert_eq!(path("a@1.0.0"), "a@1.0.0.patch");
    assert_eq!(path("a@2.0.0"), "a.patch");
}

#[test]
fn skips_install_scripts_that_are_not_allowed() {
    let mut found = lock(&[], &[("a", "1.0.0"), ("b", "1.0.0")]);
    let mut a = found.packages.remove("a@1.0.0").unwrap();
    a.install_script = true;
    found.packages.insert("a@1.0.0".to_string(), a);
    let mut allowed = Dict::new();
    allowed.insert("b".to_string(), BuildMode::Sandboxed);
    let skipped = mark_builds(&mut found, &allowed, &Dict::new(), false);
    assert_eq!(skipped.to_vec(), ["a"]);
    assert!(!found.packages.get("b@1.0.0").unwrap().build);
    assert!(!builds_for_user_node(&found));
    mark_builds(&mut found, &allowed, &Dict::new(), true);
    assert!(builds_for_user_node(&found));
}

fn flake_lock(rev: &str) -> FlakeLock {
    let mut nodes = Dict::new();
    nodes.insert(
        "root".to_string(),
        FlakeNode { inputs: attributes(&[("nixpkgs", "nixpkgs_2")]), locked: None },
    );
    nodes.insert(
        "nixpkgs_2".to_string(),
        FlakeNode {
            inputs: Dict::new(),
            locked: Some(attributes(&[
                ("type", "github"),
                ("owner", "NixOS"),
                ("repo", "nixpkgs"),
                ("rev", rev),
                ("narHash", "sha256-x"),
            ])),
        },
    );
    FlakeLock { nodes, root: "root".to_string() }
}

#[test]
fn reads_flake_locks() {
    let mut flake = flake_lock("a");
    flake.root = "missing".to_string();
    assert!(flake_lock_nixpkgs("flake.lock", &flake).unwrap().is_none());

    let mut flake = flake_lock("a");
    let mut inputs = Dict::new();
    inputs.insert("nixpkgs".to_string(), Json::Array(vec![text("other"), text("nixpkgs")]));
    flake.nodes.insert("root".to_string(), FlakeNode { inputs, locked: None });
    assert!(flake_lock_nixpkgs("flake.lock", &flake).unwrap().is_none());

    let mut flake = flake_lock("a");
    let locked = attributes(&[("type", "path"), ("path", "/src")]);
    flake.nodes.insert("nixpkgs_2".to_string(), FlakeNode { inputs: Dict::new(), locked: Some(locked) });
    assert_eq!(
        flake_lock_nixpkgs("/p/flake.lock", &flake).unwrap_err().message(),
        "the nixpkgs input in /p/flake.lock is a local path, which other machines cannot fetch"
    );
}

#[test]
fn picks_node_generously_from_nixpkgs() {
    let available = dict(&[
        ("nodejs_20", "20.19.5"),
        ("nodejs_22", "22.17.1"),
        ("nodejs_24", "24.7.0"),
    ]);
    let pick = |range: &str| pick_node(range, &available).map(|node| (node.attr, node.version));

    assert_eq!(pick("22").unwrap(), ("nodejs_22".into(), "22.17.1".into()));
    assert_eq!(pick(">=20").unwrap(), ("nodejs_24".into(), "24.7.0".into()));
    assert_eq!(
        pick("^22.18.0").unwrap(),
        ("nodejs_22".into(), "22.17.1".into())
    );

    let error = pick("^18.0.0").unwrap_err();
    assert!(
        error.message().contains("20.19.5, 22.17.1, 24.7.0"),
        "{error:?}"
    );
    let error = pick("what").unwrap_err();
    assert!(error.message().starts_with("parsing the Node.js version what in devEngines: "));
}

#[test]
fn locks_only_shareable_sources() {
    let github = || {
        let mut locked = attributes(&[
            ("type", "github"),
            ("owner", "NixOS"),
            ("repo", "nixpkgs"),
            ("rev", "abc"),
            ("narHash", "sha256-x"),
        ]);
        locked.insert("lastModified".to_string(), Json::Number("1".to_string()));
        locked
    };
    let mut final_github = github();
    final_github.insert("__final".to_string(), Json::Bool(true));
    assert_eq!(
        shareable("nixpkgs", final_github).unwrap().locked,
        github()
    );

    assert!(
        shareable(
            "nixpkgs",
            attributes(&[("type", "path"), ("path", "/nix/store/x-source"), ("narHash", "sha256-x")]),
        )
        .is_none()
    );
    assert_eq!(
        lock_nixpkgs("nixpkgs", attributes(&[("type", "path")])).unwrap_err().message(),
        "nixpkgs locks to a local path, which other machines cannot fetch"
    );
}

#[test]
fn asks_nix_for_a_workspace() {
    let caches = dict(&[("https://b", "k2"), ("https://a", "k1")]);
    let arguments = build_arguments("/out", "/d", "sha256-h", "x86_64-linux", false, Some(22), &caches);
    assert_eq!(
        arguments,
        [
            "build",
            "--extra-experimental-features",
            "nix-command flakes",
            "--pure-eval",
            "--print-out-paths",
            "--out-link",
            "/out",
            "--expr",
            INSTALL,
            "--argstr",
            "source",
            "/d",
            "--argstr",
            "narHash",
            "sha256-h",
            "--argstr",
            "system",
            "x86_64-linux",
            "--arg",
            "dev",
            "false",
            "--arg",
            "nodeMajor",
            "22",
            "--extra-substituters",
            "https://a https://b",
            "--extra-trusted-public-keys",
            "k1 k2",
        ]
    );
    let plain = build_arguments("/out", "/d", "sha256-h", "x86_64-linux", true, None, &Dict::new());
    assert_eq!(plain[..20], arguments[..20]);
    assert_eq!(plain[20..], ["true"]);
    assert_eq!(built_path("/nix/store/x\n/nix/store/y\n").unwrap(), "/nix/store/x");
    assert_eq!(built_path("/nix/store/x").unwrap(), "/nix/store/x");
    assert_eq!(built_path("").unwrap_err().message(), "nix build printed no output path");
}

#[test]
fn asks_nix_for_versions_of_node() {
    let arguments = node_arguments("{ nixpkgs, system }: { }", "{\"type\":\"github\"}", "aarch64-darwin");
    assert_eq!(
        arguments,
        [
            "eval",
            "--extra-experimental-features",
            "nix-command flakes",
            "--pure-eval",
            "--json",
            "--expr",
            "{ nixpkgs, system }: { }",
            "--argstr",
            "nixpkgs",
            "{\"type\":\"github\"}",
            "--argstr",
            "system",
            "aarch64-darwin",
        ]
    );
}

#[test]
fn never_asks_nix_for_impure_evaluation() {
    let build = build_arguments("/out", "/d", "sha256-h", "x86_64-linux", true, Some(22), &Dict::new());
    let listing = node_arguments("{ }: { }", "{}", "x86_64-linux");
    for arguments in [build, listing] {
        assert!(arguments.contains(&"--pure-eval".to_string()));
        assert!(!arguments.iter().any(|argument| argument == "--impure" || argument == "--file"));
    }
}

#[test]
fn keys_the_cache_by_what_a_build_depends_on() {
    let library = vec![("a.nix".to_string(), "x".to_string())];
    let key = cache_key("{}", true, Some(22), &library);
    assert_eq!(
        key,
        hinata::util::hash(br#"["{}",true,22,[["a.nix","x"]]]"#)
    );
    assert_ne!(key, cache_key("{}", false, Some(22), &library));
    assert_ne!(key, cache_key("{}", true, None, &library));
    assert_ne!(key, cache_key("{ }", true, Some(22), &library));
    assert_ne!(key, cache_key("{}", true, Some(22), &Vec::new()));
}

#[test]
fn reads_the_major_version_of_node() {
    assert_eq!(node_major("v22.18.0\n"), Some(22));
    assert_eq!(node_major("v+8"), Some(8));
    assert_eq!(node_major("22.18.0"), None);
    assert_eq!(node_major("v"), None);
    assert_eq!(node_major("v2x.1"), None);
    assert_eq!(node_major("v4294967295.0"), Some(u32::MAX));
    assert_eq!(node_major("v4294967296.0"), None);
}

#[test]
fn links_projects_before_packages() {
    let roots = ImporterRoots {
        dependencies: dict(&[("a", "/a"), ("b", "/b")]),
        dev_dependencies: dict(&[("a", "/dev")]),
        optional_dependencies: dict(&[("a", "/optional"), ("c", "/c")]),
    };
    let packages = importer_packages(&roots, &dict(&[("b", "../b"), ("d", "/abs")]), "/root/app");
    assert_eq!(packages, dict(&[("a", "/a"), ("b", "/root/app/../b"), ("c", "/c"), ("d", "/abs")]));
}

#[test]
fn prunes_projects_that_are_gone() {
    assert!(is_pruned(true, false));
    assert!(!is_pruned(true, true));
    assert!(!is_pruned(false, false));
}

#[test]
fn prefers_its_own_lockfile() {
    let asked = projects(&[(".", &[("a", "^1")])]);
    let own = lock(&[(".", &[("a", "^1")])], &[("a", "1.0.0")]);
    let other = lock(&[(".", &[("a", "^1")])], &[("a", "1.1.0")]);
    let (chosen_lock, pnpm_only) = chosen(Some(own), Some(other), &asked, Lockfile::Default).unwrap();
    assert!(!pnpm_only);
    assert!(chosen_lock.packages.contains_key("a@1.0.0"));
}

#[test]
fn marks_the_same_when_marking_again() {
    let mut found = lock(&[], &[("a", "1.0.0"), ("b", "1.0.0")]);
    let mut allowed = Dict::new();
    allowed.insert("a".to_string(), BuildMode::Sandboxed);
    allowed.insert("b".to_string(), BuildMode::Impure);
    let mut inputs = Dict::new();
    inputs.insert("a".to_string(), vec!["cairo".to_string()]);
    mark_builds(&mut found, &allowed, &inputs, true);
    let once = format!("{found:?}");
    mark_builds(&mut found, &allowed, &inputs, true);
    assert_eq!(format!("{found:?}"), once);
    let marked = |id: &str| {
        let package = found.packages.get(id).unwrap();
        (package.build, package.impure_build, package.build_inputs.clone())
    };
    assert_eq!(marked("a@1.0.0"), (true, false, vec!["cairo".to_string()]));
    assert_eq!(marked("b@1.0.0"), (false, true, Vec::new()));
}

#[test]
fn reuses_workspaces_that_were_built_from_the_same() {
    let library = vec![("a.nix".to_string(), "x".to_string())];
    let key = |dev: bool| cache_key("{}", dev, None, &library);
    let kept = |recorded: Option<&str>, exists: bool| cached_workspace(Some("/nix/x"), recorded, exists, &key(true));
    assert_eq!(kept(Some(&key(true)), true).as_deref(), Some("/nix/x"));
    assert_eq!(kept(Some(&key(true)), false), None);
    assert_eq!(kept(Some(&key(false)), true), None);
    assert_eq!(kept(None, true), None);
    assert_eq!(cached_workspace(None, Some(&key(true)), true, &key(true)), None);

    let current = |recorded: &str| current_workspace(Some("/nix/x"), Some(recorded), true, "{}", None, &library);
    assert_eq!(current(&key(true)).as_deref(), Some("/nix/x"));
    assert_eq!(current(&key(false)).as_deref(), Some("/nix/x"));
    assert_eq!(current("other"), None);

    assert!(matches!(plan_build(Some("/nix/x".to_string()), false), Build::Reuse(path) if path == "/nix/x"));
    assert!(matches!(plan_build(Some("/nix/x".to_string()), true), Build::Anew));
    assert!(matches!(plan_build(None, false), Build::Anew));
}

#[test]
fn records_the_key_after_all_scripts_have_run() {
    let found = lock(&[(".", &[])], &[("a", "1.0.0"), ("b", "2.0.0")]);
    let dirs = dict(&[("b@2.0.0", "/nix/b"), ("a@1.0.0", "/nix/a")]);
    let script = |name: &str, version: &str, dir: &str| Task::RunScripts {
        name: name.to_string(),
        version: version.to_string(),
        dir: dir.to_string(),
    };
    assert_eq!(
        tasks(&found, true, true, &dirs).unwrap(),
        [Task::RecordCompat, script("a", "1.0.0", "/nix/a"), script("b", "2.0.0", "/nix/b"), Task::RecordKey]
    );
    assert_eq!(tasks(&found, false, true, &Dict::new()).unwrap(), [Task::RecordKey]);
    assert_eq!(tasks(&found, true, false, &dirs).unwrap(), [Task::RecordCompat]);
    assert_eq!(
        tasks(&found, false, true, &dict(&[("c@1.0.0", "/nix/c")])).unwrap_err().message(),
        "the Nix build has c@1.0.0, which is not in the lockfile"
    );
    assert_eq!(installed(&found), format!("installed {}", hinata::logging::plural(2, "package", "packages")));
    let two = lock(&[(".", &[]), ("a", &[])], &[]);
    assert!(installed(&two).ends_with("workspaces"));
}

#[test]
fn prefers_a_release_in_the_range() {
    assert_eq!(newest_release(&vec![true, true, false], &vec![true, true, true]), Some(1));
    assert_eq!(newest_release(&vec![false, false, false], &vec![true, true, false]), Some(1));
    assert_eq!(newest_release(&vec![false, false], &vec![false, false]), None);
}
