//! Installs from start to end, up to what is written.
use std::cell::Cell;

use hinata::dict::{Dict, Duplicate, Names};
use hinata::error::Error;
use hinata::install::{finish, pick_nixpkgs, plan, Finish, Lockfile, NixpkgsPlan, Plan, Update, DEFAULT_NIXPKGS};
use hinata::json::Json;
use hinata::lock::{Importer, Lock, Nixpkgs, Node, Package, Specifiers, VERSION};
use hinata::manifest::{AllowBuild, AllowBuilds, BuildMode, HinataConfig, Manifest, PnpmWorkspace, Reading};
use hinata::nix::{flake_lock_nixpkgs, FlakeLock, FlakeNode};
use hinata::pnpm::{self, Dependency, PnpmImporter, PnpmLock, PnpmPackage, Resolution, Snapshot};
use hinata::registry::{cache_nothing, Dist, Packument, Registry, Release, VersionManifest};
use hinata::resolve::Project;
use hinata::update::{begin, flake_read, nixpkgs_known, node_listed, Earlier, Request, Step};
use serde_json::Value;

struct NoRegistry;

impl Registry for NoRegistry {
    fn fetch(&self, names: &Vec<String>) -> Result<Vec<Packument>, Error> {
        Err(Error::new(format!("fetching {}", names.join(" "))))
    }

    fn cached(&self, names: &Vec<String>) -> Vec<Option<Packument>> {
        cache_nothing(names)
    }
}

/// A registry for projects without dependencies.
struct EmptyRegistry;

impl Registry for EmptyRegistry {
    fn fetch(&self, _: &Vec<String>) -> Result<Vec<Packument>, Error> {
        Ok(Vec::new())
    }

    fn cached(&self, _: &Vec<String>) -> Vec<Option<Packument>> {
        Vec::new()
    }
}

fn members(value: Option<&Value>) -> Vec<(String, &Value)> {
    match value {
        Some(Value::Object(members)) => members.iter().map(|(key, value)| (key.clone(), value)).collect(),
        _ => Vec::new(),
    }
}

fn text(value: Option<&Value>) -> Option<String> {
    value.and_then(Value::as_str).map(str::to_string)
}

fn strings(value: Option<&Value>) -> Dict<String> {
    let mut dict = Dict::new();
    for (key, value) in members(value) {
        dict.insert(key, text(Some(value)).unwrap());
    }
    dict
}

fn list(value: &Value) -> Vec<String> {
    value.as_array().unwrap().iter().map(|item| text(Some(item)).unwrap()).collect()
}

fn specifiers(value: &Value) -> Specifiers {
    Specifiers {
        dependencies: strings(value.get("dependencies")),
        dev_dependencies: strings(value.get("devDependencies")),
        optional_dependencies: strings(value.get("optionalDependencies")),
    }
}

fn manifest(source: &str) -> Manifest {
    let value: Value = serde_json::from_str(source).unwrap();
    let config = value.get("hinata").cloned().unwrap_or_default();
    let mut allowed = Dict::new();
    for (name, entry) in members(config.get("allowBuilds")) {
        let entry = match entry.as_bool() {
            Some(allowed) => AllowBuild::Allowed(allowed),
            None => AllowBuild::Mode(BuildMode::Impure),
        };
        allowed.insert(name, entry);
    }
    let mut build_inputs = Dict::new();
    for (name, inputs) in members(config.get("buildInputs")) {
        build_inputs.insert(name, list(inputs));
    }
    let runtime = value.get("devEngines").and_then(|engines| engines.get("runtime"));
    Manifest {
        name: text(value.get("name")),
        version: text(value.get("version")),
        specifiers: specifiers(&value),
        scripts: Dict::new(),
        hinata: HinataConfig {
            allow_builds: AllowBuilds::Entries(allowed),
            build_inputs,
            patched_dependencies: strings(config.get("patchedDependencies")),
            substituters: Dict::new(),
            nixpkgs: text(config.get("nixpkgs")),
            overrides: Dict::new(),
            minimum_release_age: 0,
        },
        workspace: PnpmWorkspace {
            packages: Vec::new(),
            allow_builds: Dict::new(),
            build_inputs: Dict::new(),
            patched_dependencies: Dict::new(),
        },
        node: text(runtime.and_then(|runtime| runtime.get("version"))),
    }
}

fn pnpm_dependencies(value: Option<&Value>) -> Dict<Dependency> {
    let mut dict = Dict::new();
    for (key, value) in members(value) {
        let dependency = Dependency {
            specifier: text(value.get("specifier")).unwrap(),
            version: text(value.get("version")).unwrap(),
        };
        dict.insert(key, dependency);
    }
    dict
}

fn pnpm_lock(source: &str) -> PnpmLock {
    let document: Value = serde_yaml::from_str(source).unwrap();
    let mut importers = Dict::new();
    for (path, value) in members(document.get("importers")) {
        let importer = PnpmImporter {
            dependencies: pnpm_dependencies(value.get("dependencies")),
            dev_dependencies: pnpm_dependencies(value.get("devDependencies")),
            optional_dependencies: pnpm_dependencies(value.get("optionalDependencies")),
        };
        importers.insert(path, importer);
    }
    let mut packages = Dict::new();
    for (key, value) in members(document.get("packages")) {
        let resolution = value.get("resolution").unwrap();
        let package = PnpmPackage {
            resolution: Resolution {
                integrity: text(resolution.get("integrity")),
                tarball: text(resolution.get("tarball")),
            },
            os: None,
            cpu: None,
            libc: None,
            has_bin: false,
        };
        packages.insert(key, package);
    }
    let mut snapshots = Dict::new();
    for (id, value) in members(document.get("snapshots")) {
        let snapshot = Snapshot {
            dependencies: strings(value.get("dependencies")),
            optional_dependencies: strings(value.get("optionalDependencies")),
        };
        snapshots.insert(id, snapshot);
    }
    PnpmLock { importers, packages, snapshots, patched_dependencies: Names::new() }
}

fn string(text: &str) -> Json {
    Json::String(text.to_string())
}

fn number(number: u32) -> Json {
    Json::Number(number.to_string())
}

fn nixpkgs_at(from: &str, rev: Json) -> Nixpkgs {
    let mut locked = Dict::new();
    locked.insert("rev".to_string(), rev);
    Nixpkgs { from: from.to_string(), locked }
}

fn locked_nixpkgs(from: &str) -> Nixpkgs {
    nixpkgs_at(from, string("abc"))
}

fn unpinned_lock() -> Lock {
    let importer = Importer {
        dependencies: Dict::new(),
        dev_dependencies: Dict::new(),
        optional_dependencies: Dict::new(),
        links: Dict::new(),
        specifiers: Specifiers {
            dependencies: Dict::new(),
            dev_dependencies: Dict::new(),
            optional_dependencies: Dict::new(),
        },
    };
    let mut importers = Dict::new();
    importers.insert(".".to_string(), importer);
    Lock {
        version: VERSION,
        nixpkgs: None,
        node: None,
        overrides: Dict::new(),
        packages: Dict::new(),
        sccs: Vec::new(),
        importers,
    }
}

/// The files of a project, and how often Nix was asked.
struct Site {
    projects: Vec<(&'static str, String)>,
    pnpm: Option<&'static str>,
    compat: Option<Nixpkgs>,
    flake: Option<FlakeLock>,
    lock: Option<Lock>,
    /// Whether hinata.lock is written as it is written by installs.
    canonical: bool,
    update_nixpkgs: bool,
    /// Whether each locking finds another revision of Nixpkgs.
    moving: bool,
    locked: Cell<u32>,
    listed: Cell<u32>,
}

impl Site {
    fn new(package: &str) -> Self {
        Site {
            projects: vec![(".", package.to_string())],
            pnpm: None,
            compat: None,
            flake: None,
            lock: None,
            canonical: true,
            update_nixpkgs: false,
            moving: false,
            locked: Cell::new(0),
            listed: Cell::new(0),
        }
    }

    /// The lock that is installed from, and whether it is from pnpm.
    fn install(&mut self, lockfile: Lockfile) -> Result<(Lock, bool), Error> {
        let root = manifest(&self.projects[0].1);
        let mut files = Dict::new();
        for (path, contents) in [("a.patch", "a"), ("b.patch", "b")] {
            files.insert(path.to_string(), Reading::Contents(contents.as_bytes().to_vec()));
        }
        let patches = root.patches(&files)?;
        let mut projects: Dict<Project> = Dict::new();
        for (path, source) in &self.projects {
            projects.insert((*path).to_string(), manifest(source).project());
        }
        let pnpm = match (&self.lock, self.pnpm) {
            (None, Some(source)) => pnpm::read("pnpm-lock.yaml", Some(&pnpm_lock(source)), &patches)?,
            _ => None,
        };
        let request = Request {
            projects,
            overrides: Dict::new(),
            allow_builds: root.allow_builds(),
            build_inputs: root.build_inputs()?,
            patches,
            nixpkgs: root.nixpkgs().map(str::to_string),
            node: root.node().map(str::to_string),
            update: Update::Keep,
            update_nixpkgs: self.update_nixpkgs,
            lockfile,
            cutoff: None,
        };
        let earlier = Earlier {
            existing: self.lock.as_ref().map(Duplicate::duplicate),
            pnpm,
            nixpkgs: self.compat.as_ref().map(Duplicate::duplicate),
            node: None,
        };
        let mut step = begin(&request, earlier, &EmptyRegistry)?;
        let done = loop {
            step = match step {
                Step::ReadFlake(pending) => {
                    let flake = match &self.flake {
                        Some(flake) => flake_lock_nixpkgs("flake.lock", flake)?,
                        None => None,
                    };
                    flake_read(&request, pending, flake)?
                }
                Step::LockNixpkgs(pending, reference) => {
                    self.locked.set(self.locked.get() + 1);
                    let nixpkgs = match self.moving {
                        true => nixpkgs_at(&reference, number(self.locked.get())),
                        false => locked_nixpkgs(&reference),
                    };
                    nixpkgs_known(&request, pending, nixpkgs)?
                }
                Step::ListNode(pending, nixpkgs, range) => {
                    self.listed.set(self.listed.get() + 1);
                    let mut available = Dict::new();
                    available.insert("nodejs_22".to_string(), "22.17.1".to_string());
                    available.insert("nodejs_24".to_string(), "24.7.0".to_string());
                    node_listed(pending, nixpkgs, &range, &available)?
                }
                Step::Done(done) => break done,
            };
        };
        let written = |lock: &Lock| format!("{lock:?}");
        let previous = self.lock.as_ref().map(|lock| match self.canonical {
            true => written(lock),
            false => format!(" {}", written(lock)),
        });
        match finish(done.pnpm_only, lockfile, previous.as_deref(), &written(&done.lock))? {
            Finish::Leave => {}
            Finish::Create | Finish::Replace => {
                self.lock = Some(done.lock.duplicate());
                self.canonical = true;
            }
        }
        Ok((done.lock, done.pnpm_only))
    }

    fn rev(&mut self, lockfile: Lockfile) -> Result<Json, Error> {
        let (lock, _) = self.install(lockfile)?;
        Ok(lock.nixpkgs.unwrap().locked.get("rev").unwrap().duplicate())
    }

    fn node(&mut self, lockfile: Lockfile) -> Result<Option<String>, Error> {
        let (lock, _) = self.install(lockfile)?;
        Ok(lock.node.map(|node: Node| node.attr))
    }
}

#[test]
fn installs_from_a_matching_pnpm_lockfile() {
    let package = |range: &str| {
        format!(
            r#"{{ "dependencies": {{ "a": "{range}", "b": "^1.0.0" }}, "devDependencies": {{ "node": "runtime:22.18.0" }}, "hinata": {{ "allowBuilds": {{ "a": true, "b": "impure" }}, "buildInputs": {{ "a": ["cairo"] }}, "patchedDependencies": {{ "a@1.0.0": "a.patch", "a": "b.patch", "b": "b.patch" }} }} }}"#
        )
    };
    let mut site = Site::new(&package("^1.0.0"));
    site.pnpm = Some(
        "lockfileVersion: '9.0'
importers:
  .:
    dependencies:
      a:
        specifier: ^1.0.0
        version: 1.0.0
      b:
        specifier: ^1.0.0
        version: 1.0.0
    devDependencies:
      node:
        specifier: runtime:22.18.0
        version: runtime:22.18.0
packages:
  a@1.0.0:
    resolution: {integrity: sha512-a}
  b@1.0.0:
    resolution: {integrity: sha512-b}
  node@runtime:22.18.0:
    resolution: {type: variations, variants: []}
snapshots:
  a@1.0.0: {}
  b@1.0.0: {}
  node@runtime:22.18.0: {}
",
    );
    site.compat = Some(locked_nixpkgs(DEFAULT_NIXPKGS));

    let (lock, pnpm_only) = site.install(Lockfile::Default).unwrap();
    assert!(pnpm_only);
    assert_eq!(lock.nixpkgs, Some(locked_nixpkgs(DEFAULT_NIXPKGS)));
    assert_eq!(site.locked.get(), 0);
    let package_of = |id: &str| lock.packages.get(id).unwrap();
    assert!(package_of("a@1.0.0").build);
    assert!(!package_of("a@1.0.0").impure_build);
    assert_eq!(package_of("a@1.0.0").build_inputs, ["cairo"]);
    assert!(!package_of("b@1.0.0").build);
    assert!(package_of("b@1.0.0").impure_build);
    assert!(site.lock.is_none());

    let patch = |id: &str| package_of(id).patch.as_ref().unwrap().path.as_str();
    assert_eq!(patch("a@1.0.0"), "a.patch");
    assert_eq!(patch("b@1.0.0"), "b.patch");

    site.projects[0].1 = package("^2.0.0");
    site.compat = None;
    let error = site.install(Lockfile::Default).unwrap_err();
    assert!(error.message().contains("pnpm install"));
    assert!(site.lock.is_none());
}

#[test]
fn checks_every_workspace_importer_against_the_lockfile() {
    let mut site = Site::new(r#"{ "devDependencies": { "shared": "workspace:*" } }"#);
    let shared = |range: &str| format!(r#"{{ "name": "shared", "dependencies": {{ "a": "{range}" }} }}"#);
    site.projects.push(("packages/shared", shared("^1.0.0")));
    site.pnpm = Some(
        "lockfileVersion: '9.0'
importers:
  .:
    devDependencies:
      shared:
        specifier: workspace:*
        version: link:packages/shared
  packages/shared:
    dependencies:
      a:
        specifier: ^1.0.0
        version: 1.0.0
packages:
  a@1.0.0:
    resolution: {integrity: sha512-a}
snapshots:
  a@1.0.0: {}
",
    );

    let (lock, pnpm_only) = site.install(Lockfile::Default).unwrap();
    assert!(pnpm_only);
    assert_eq!(lock.importers.len(), 2);

    site.projects[1].1 = shared("^2.0.0");
    let error = site.install(Lockfile::Default).unwrap_err();
    assert!(error.message().contains("pnpm install"));

    site.projects.pop();
    let error = site.install(Lockfile::Default).unwrap_err();
    assert!(error.message().contains("pnpm install"));
}

#[test]
fn frozen_installs_fail_instead_of_changing_the_lockfile() {
    let mut site = Site::new("{}");
    let error = site.install(Lockfile::Frozen).unwrap_err();
    assert!(error.message().contains("hinata install"), "{error:?}");
    assert!(site.lock.is_none());

    let mut found = unpinned_lock();
    found.nixpkgs = Some(locked_nixpkgs("github:NixOS/nixpkgs/nixpkgs-unstable"));
    site.lock = Some(found);
    site.canonical = false;
    assert!(site.install(Lockfile::Frozen).is_err());
    assert!(!site.canonical);

    site.canonical = true;
    assert!(site.install(Lockfile::Frozen).is_ok());
}

#[test]
fn keeps_nixpkgs_locked_until_it_is_updated() {
    let mut site = Site::new("{}");
    site.lock = Some(unpinned_lock());
    site.moving = true;

    assert!(site.rev(Lockfile::Frozen).is_err());
    assert_eq!(site.rev(Lockfile::Default).unwrap(), number(1));
    assert_eq!(site.rev(Lockfile::Frozen).unwrap(), number(1));
    site.update_nixpkgs = true;
    assert_eq!(site.rev(Lockfile::Default).unwrap(), number(2));

    site.update_nixpkgs = false;
    site.projects[0].1 = r#"{ "hinata": { "nixpkgs": "github:NixOS/nixpkgs/nixos-25.05" } }"#.to_string();
    assert!(site.rev(Lockfile::Frozen).is_err());
    assert_eq!(site.rev(Lockfile::Default).unwrap(), number(3));
    assert_eq!(site.locked.get(), 3);
}

fn flake_lock(rev: &str) -> FlakeLock {
    let mut inputs = Dict::new();
    inputs.insert("nixpkgs".to_string(), Json::String("nixpkgs_2".to_string()));
    let mut locked = Dict::new();
    for (key, value) in
        [("type", "github"), ("owner", "NixOS"), ("repo", "nixpkgs"), ("rev", rev), ("narHash", "sha256-x")]
    {
        locked.insert(key.to_string(), Json::String(value.to_string()));
    }
    let mut nodes = Dict::new();
    nodes.insert("root".to_string(), FlakeNode { inputs, locked: None });
    nodes.insert("nixpkgs_2".to_string(), FlakeNode { inputs: Dict::new(), locked: Some(locked) });
    FlakeLock { nodes, root: "root".to_string() }
}

#[test]
fn follows_nixpkgs_in_flake_lock() {
    let mut site = Site::new("{}");
    site.lock = Some(unpinned_lock());
    site.update_nixpkgs = true;

    site.flake = Some(flake_lock("a"));
    assert_eq!(site.rev(Lockfile::Default).unwrap(), string("a"));
    assert_eq!(site.rev(Lockfile::Frozen).unwrap(), string("a"));

    site.flake = Some(flake_lock("b"));
    assert!(site.rev(Lockfile::Frozen).is_err());
    assert_eq!(site.rev(Lockfile::Default).unwrap(), string("b"));
    assert_eq!(site.locked.get(), 0);

    site.projects[0].1 = r#"{ "hinata": { "nixpkgs": "github:NixOS/nixpkgs/nixos-25.05" } }"#.to_string();
    assert_eq!(site.rev(Lockfile::Default).unwrap(), string("abc"));
}

#[test]
fn keeps_node_locked_until_its_range_or_nixpkgs_changes() {
    let dev_engines = |range: &str, nixpkgs: &str| {
        format!(
            r#"{{ "devEngines": {{ "runtime": {{ "name": "node", "version": "{range}" }} }}, "hinata": {{ "nixpkgs": "{nixpkgs}" }} }}"#
        )
    };
    let mut site = Site::new(&dev_engines("22", DEFAULT_NIXPKGS));
    assert_eq!(site.node(Lockfile::Default).unwrap().as_deref(), Some("nodejs_22"));
    assert_eq!(site.node(Lockfile::Frozen).unwrap().as_deref(), Some("nodejs_22"));
    assert_eq!(site.listed.get(), 1);

    site.projects[0].1 = dev_engines("24", DEFAULT_NIXPKGS);
    assert!(site.node(Lockfile::Frozen).is_err());
    assert_eq!(site.node(Lockfile::Default).unwrap().as_deref(), Some("nodejs_24"));
    assert_eq!(site.listed.get(), 2);

    site.projects[0].1 = dev_engines("24", "github:NixOS/nixpkgs/nixos-25.05");
    assert_eq!(site.node(Lockfile::Default).unwrap().as_deref(), Some("nodejs_24"));
    assert_eq!(site.listed.get(), 3);
}

#[test]
fn says_which_node_is_missing() {
    let source = r#"{ "devEngines": { "runtime": { "name": "node", "version": "^18" } } }"#;
    let error = Site::new(source).install(Lockfile::Default).unwrap_err();
    assert!(error.message().contains("22.17.1, 24.7.0"), "{error:?}");
}

#[test]
fn failures_of_the_registry_end_an_install() {
    let mut projects: Dict<Project> = Dict::new();
    projects.insert(".".to_string(), manifest(r#"{ "dependencies": { "a": "^1" } }"#).project());
    let request = Request {
        projects,
        overrides: Dict::new(),
        allow_builds: Dict::new(),
        build_inputs: Dict::new(),
        patches: Dict::new(),
        nixpkgs: None,
        node: None,
        update: Update::Keep,
        update_nixpkgs: false,
        lockfile: Lockfile::Default,
        cutoff: None,
    };
    let earlier = Earlier { existing: None, pnpm: None, nixpkgs: None, node: None };
    match begin(&request, earlier, &NoRegistry) {
        Err(error) => assert_eq!(error.message(), "fetching a"),
        Ok(_) => panic!("nothing can be fetched"),
    }
}

fn request(source: &str, lockfile: Lockfile) -> Request {
    let mut projects: Dict<Project> = Dict::new();
    projects.insert(".".to_string(), manifest(source).project());
    Request {
        projects,
        overrides: Dict::new(),
        allow_builds: Dict::new(),
        build_inputs: Dict::new(),
        patches: Dict::new(),
        nixpkgs: None,
        node: None,
        update: Update::Keep,
        update_nixpkgs: false,
        lockfile,
        cutoff: None,
    }
}

/// A lock for a project that depends on version 1.0.0 of `name`.
fn lock_of(name: &str, integrity: &str) -> Lock {
    let package = Package {
        name: name.to_string(),
        version: "1.0.0".to_string(),
        url: "https://registry.test/x.tgz".to_string(),
        integrity: integrity.to_string(),
        deps: Dict::new(),
        optional_deps: Dict::new(),
        os: None,
        cpu: None,
        libc: None,
        has_bin: false,
        install_script: false,
        build: false,
        impure_build: false,
        build_inputs: Vec::new(),
        patch: None,
    };
    let id = format!("{name}@1.0.0");
    let importer = Importer {
        dependencies: Dict::new(),
        dev_dependencies: Dict::new(),
        optional_dependencies: Dict::new(),
        links: Dict::new(),
        specifiers: Specifiers {
            dependencies: Dict::new(),
            dev_dependencies: Dict::new(),
            optional_dependencies: Dict::new(),
        },
    };
    let mut lock = Lock {
        version: VERSION,
        nixpkgs: None,
        node: None,
        overrides: Dict::new(),
        packages: Dict::new(),
        sccs: Vec::new(),
        importers: Dict::new(),
    };
    lock.packages.insert(id, package);
    lock.importers.insert(".".to_string(), importer);
    lock
}

#[test]
fn installs_from_pnpm_lock_whatever_is_overridden() {
    let plan = |overrides: &[&str], lockfile: Lockfile, pnpm: bool| {
        let mut configured = Dict::new();
        for name in overrides {
            configured.insert((*name).to_string(), "^1".to_string());
        }
        let lock = lock_of("a", "sha512-a");
        let (existing, pnpm) = if pnpm { (None, Some(&lock)) } else { (Some(&lock), None) };
        plan(existing, pnpm, &request("{}", lockfile).projects, &configured, &Update::Keep, lockfile)
    };
    assert_eq!(plan(&[], Lockfile::Default, true), Plan::KeepPnpm);
    assert_eq!(plan(&["a"], Lockfile::Default, true), Plan::KeepPnpm);
    assert_eq!(plan(&["a"], Lockfile::Frozen, true), Plan::KeepPnpm);
    assert_eq!(plan(&["a"], Lockfile::Save, true), Plan::Import);
    assert_eq!(plan(&[], Lockfile::Default, false), Plan::Keep);
    assert_eq!(plan(&["a"], Lockfile::Default, false), Plan::Resolve);
}

#[test]
fn refuses_lockfiles_that_are_not_valid() {
    let begun = |existing: Option<Lock>, pnpm: Option<Lock>| {
        let earlier = Earlier { existing, pnpm, nixpkgs: None, node: None };
        begin(&request("{}", Lockfile::Default), earlier, &NoRegistry).map(|_| ()).map_err(|error| error.chain)
    };
    assert_eq!(begun(Some(lock_of("a", "sha512-a")), None), Ok(()));
    assert_eq!(begun(None, Some(lock_of("a", "sha256-a"))), Ok(()));
    assert_eq!(
        begun(Some(lock_of("a", "sha1-a")), None),
        Err(vec![
            "reading hinata.lock".to_string(),
            "a@1.0.0 has no SHA-512 or SHA-256 integrity hash".to_string()
        ])
    );
    assert_eq!(
        begun(None, Some(lock_of("../a", "sha512-a"))),
        Err(vec![
            "reading pnpm-lock.yaml".to_string(),
            "../a@1.0.0 is named \"../a\", which is not a valid package name".to_string()
        ])
    );
}

/// A registry whose packages have weak hashes.
struct WeakRegistry;

impl Registry for WeakRegistry {
    fn fetch(&self, names: &Vec<String>) -> Result<Vec<Packument>, Error> {
        let packument = || {
            let manifest = VersionManifest {
                dependencies: Dict::new(),
                optional_dependencies: Dict::new(),
                peer_dependencies: Dict::new(),
                peer_dependencies_meta: Dict::new(),
                bin: Json::Null,
                directories: Json::Null,
                dist: Dist {
                    tarball: "https://registry.test/x.tgz".to_string(),
                    integrity: Some("sha1-x".to_string()),
                },
                os: None,
                cpu: None,
                libc: None,
                has_install_script: false,
            };
            let mut versions = Dict::new();
            let release = Release { manifest: Some(manifest), problem: String::new(), install_script: false };
            versions.insert("1.0.0".to_string(), release);
            Packument { dist_tags: Dict::new(), versions, modified: None, time: Dict::new() }
        };
        Ok(names.iter().map(|_| packument()).collect())
    }

    fn cached(&self, names: &Vec<String>) -> Vec<Option<Packument>> {
        cache_nothing(names)
    }
}

#[test]
fn a_registry_without_a_cache_gives_nothing_for_each_name() {
    let names = vec!["a".to_string(), "b".to_string()];
    assert!(NoRegistry.cached(&names).iter().all(Option::is_none));
    assert_eq!(NoRegistry.cached(&names).len(), 2);
}

#[test]
fn refuses_weak_hashes_from_the_registry() {
    let request = request(r#"{ "dependencies": { "a": "^1" } }"#, Lockfile::Default);
    let earlier = Earlier { existing: None, pnpm: None, nixpkgs: None, node: None };
    match begin(&request, earlier, &WeakRegistry) {
        Err(error) => assert_eq!(error.message(), "a@1.0.0 has no SHA-512 or SHA-256 integrity hash"),
        Ok(_) => panic!("the hash is weak"),
    }
}

#[test]
fn follows_flake_lock_by_value() {
    let object = |keys: [&str; 2]| {
        let member = |key: &str| (key.to_string(), Json::String(format!("{key}!")));
        Json::Object(keys.into_iter().map(member).collect())
    };
    let nixpkgs = |keys: [&str; 2]| {
        let mut locked = Dict::new();
        locked.insert("rev".to_string(), Json::String("x".to_string()));
        locked.insert("extra".to_string(), Json::Array(vec![object(keys), Json::Bool(true)]));
        Nixpkgs { from: "flake.lock".to_string(), locked }
    };
    assert!(object(["a", "b"]).same_value(&object(["b", "a"])));
    assert!(!object(["a", "b"]).same_value(&object(["a", "c"])));
    assert!(!object(["a", "b"]).same_value(&Json::Object(Vec::new())));
    assert!(!Json::Object(Vec::new()).same_value(&object(["a", "b"])));
    assert!(Json::Number("1".to_string()).same_value(&Json::Number("1".to_string())));
    assert!(!Json::Number("1".to_string()).same_value(&Json::String("1".to_string())));

    let picked = |flake: Nixpkgs| {
        match pick_nixpkgs(None, Some(flake), Some(nixpkgs(["a", "b"])), false, Lockfile::Frozen) {
            Ok(NixpkgsPlan::Use(used)) => used == nixpkgs(["a", "b"]),
            _ => false,
        }
    };
    assert!(picked(nixpkgs(["a", "b"])));
    assert!(picked(nixpkgs(["b", "a"])));
    assert!(!picked(nixpkgs(["a", "c"])));
}
