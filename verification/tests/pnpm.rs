//! Lockfiles of pnpm.
use hinata::dict::{Dict, Names};
use hinata::error::Error;
use hinata::lock::{Lock, Patch, Specifiers};
use hinata::pnpm::{
    convert, fill_install_scripts, project_document, read, skipped_runtimes, without_runtimes, Dependency, Document,
    PnpmImporter, PnpmLock, PnpmPackage, Resolution, Snapshot, LOCKFILE,
};
use hinata::registry::{Packument, Registry, Release};
use serde_yaml::Value;

fn text(value: &Value, key: &str) -> Option<String> {
    value.get(key).and_then(Value::as_str).map(str::to_string)
}

fn entries(value: Option<&Value>) -> Vec<(String, &Value)> {
    match value {
        Some(Value::Mapping(members)) => members
            .iter()
            .map(|(key, value)| (key.as_str().unwrap().to_string(), value))
            .collect(),
        _ => Vec::new(),
    }
}

fn strings(value: Option<&Value>) -> Dict<String> {
    let mut dict = Dict::new();
    for (key, value) in entries(value) {
        dict.insert(key, value.as_str().unwrap().to_string());
    }
    dict
}

fn list(value: Option<&Value>) -> Option<Vec<String>> {
    value?.as_sequence()?.iter().map(|item| item.as_str().map(str::to_string)).collect()
}

fn dependencies(value: Option<&Value>) -> Dict<Dependency> {
    let mut dict = Dict::new();
    for (key, value) in entries(value) {
        let dependency = Dependency {
            specifier: text(value, "specifier").unwrap(),
            version: text(value, "version").unwrap(),
        };
        dict.insert(key, dependency);
    }
    dict
}

fn document(source: &str) -> Result<PnpmLock, Error> {
    let mut documents: Vec<Value> = serde_yaml::Deserializer::from_str(source)
        .map(|document| <Value as serde::Deserialize>::deserialize(document).unwrap())
        .collect();
    let found = documents
        .iter()
        .map(|document| {
            Document::Read(match document.get("lockfileVersion") {
                Some(Value::String(version)) => Some(version.clone()),
                Some(Value::Number(version)) => Some(version.to_string()),
                _ => None,
            })
        })
        .collect();
    let document = documents.swap_remove(project_document(&found)?);

    let mut importers = Dict::new();
    for (path, value) in entries(document.get("importers")) {
        let importer = PnpmImporter {
            dependencies: dependencies(value.get("dependencies")),
            dev_dependencies: dependencies(value.get("devDependencies")),
            optional_dependencies: dependencies(value.get("optionalDependencies")),
        };
        importers.insert(path, importer);
    }
    let mut packages = Dict::new();
    for (key, value) in entries(document.get("packages")) {
        let resolution = value.get("resolution").unwrap();
        let package = PnpmPackage {
            resolution: Resolution {
                integrity: text(resolution, "integrity"),
                tarball: text(resolution, "tarball"),
            },
            os: list(value.get("os")),
            cpu: list(value.get("cpu")),
            libc: list(value.get("libc")),
            has_bin: value.get("hasBin") == Some(&Value::Bool(true)),
        };
        packages.insert(key, package);
    }
    let mut snapshots = Dict::new();
    for (id, value) in entries(document.get("snapshots")) {
        let snapshot = Snapshot {
            dependencies: strings(value.get("dependencies")),
            optional_dependencies: strings(value.get("optionalDependencies")),
        };
        snapshots.insert(id, snapshot);
    }
    let mut patched_dependencies = Names::new();
    for (key, _) in entries(document.get("patchedDependencies")) {
        patched_dependencies.insert(key);
    }
    Ok(PnpmLock { importers, packages, snapshots, patched_dependencies })
}

fn parse(source: &str) -> Result<Lock, Error> {
    convert(&document(source)?)
}

const LOCKFILE_V9: &str = "lockfileVersion: '9.0'

settings:
  autoInstallPeers: true
  excludeLinksFromLockfile: false

importers:

  .:
    dependencies:
      '@scope/tool':
        specifier: ^2.0.0
        version: 2.0.0
      react-dom:
        specifier: ^18.3.1
        version: 18.3.1(react@18.3.1)
      strip:
        specifier: npm:strip-ansi@^6
        version: strip-ansi@6.0.1
    devDependencies:
      node:
        specifier: runtime:22.18.0
        version: runtime:22.18.0
      react:
        specifier: ^18.3.1
        version: 18.3.1
      shared:
        specifier: workspace:*
        version: link:packages/shared

packages:

  '@scope/tool@2.0.0':
    resolution: {integrity: sha512-tool}
    hasBin: true
    os: [darwin, linux]
    cpu: [arm64]

  a@1.0.0:
    resolution: {integrity: sha512-a, tarball: https://example.test/a-1.0.0.tgz}

  b@1.0.0:
    resolution: {integrity: sha512-b}

  node@runtime:22.18.0:
    hasBin: true
    resolution:
      type: variations
      variants:
        - resolution:
            type: binary
            archive: tarball
            url: https://nodejs.test/node-v22.18.0-darwin-arm64.tar.gz
            integrity: sha256-node
            bin: bin/node
          targets:
            - os: darwin
              cpu: arm64

  react-dom@18.3.1:
    resolution: {integrity: sha512-react-dom}
    peerDependencies:
      react: ^18.3.1

  react@18.3.1:
    resolution: {integrity: sha512-react}

  strip-ansi@6.0.1:
    resolution: {integrity: sha512-strip-ansi}

snapshots:

  '@scope/tool@2.0.0':
    dependencies:
      a: 1.0.0
    optionalDependencies:
      b: 1.0.0

  a@1.0.0:
    dependencies:
      b: 1.0.0

  b@1.0.0:
    dependencies:
      a: 1.0.0
      node: runtime:22.18.0

  node@runtime:22.18.0: {}

  react-dom@18.3.1(react@18.3.1):
    dependencies:
      react: 18.3.1

  react@18.3.1: {}

  strip-ansi@6.0.1: {}
";
#[test]
fn converts_importers() {
    let lock = parse(LOCKFILE_V9).unwrap();
    let root = lock.importers.get(".").unwrap();
    assert_eq!(
        root.dependencies.get("react-dom").unwrap(),
        "react-dom@18.3.1(react@18.3.1)"
    );
    assert_eq!(root.dependencies.get("strip").unwrap(), "strip-ansi@6.0.1");
    assert_eq!(root.dependencies.get("@scope/tool").unwrap(), "@scope/tool@2.0.0");
    assert_eq!(root.dev_dependencies.get("react").unwrap(), "react@18.3.1");
    assert!(!root.dev_dependencies.contains_key("shared"));
    assert!(!root.dev_dependencies.contains_key("node"));
    assert!(!root.specifiers.dev_dependencies.contains_key("node"));
    assert_eq!(root.links.get("shared").unwrap(), "packages/shared");
    assert_eq!(root.specifiers.dependencies.get("strip").unwrap(), "npm:strip-ansi@^6");
    assert_eq!(root.specifiers.dev_dependencies.get("shared").unwrap(), "workspace:*");
}

#[test]
fn converts_packages() {
    let lock = parse(LOCKFILE_V9).unwrap();
    assert_eq!(lock.packages.len(), 6);

    let tool = lock.packages.get("@scope/tool@2.0.0").unwrap();
    assert_eq!(tool.name, "@scope/tool");
    assert_eq!(tool.version, "2.0.0");
    assert_eq!(
        tool.url,
        "https://registry.npmjs.org/@scope/tool/-/tool-2.0.0.tgz"
    );
    assert_eq!(tool.integrity, "sha512-tool");
    assert!(tool.has_bin);
    assert_eq!(
        tool.os,
        Some(vec!["darwin".to_string(), "linux".to_string()])
    );
    assert_eq!(tool.cpu, Some(vec!["arm64".to_string()]));
    assert_eq!(tool.deps.get("a").unwrap(), "a@1.0.0");
    assert_eq!(tool.optional_deps.get("b").unwrap(), "b@1.0.0");

    assert_eq!(
        lock.packages.get("a@1.0.0").unwrap().url,
        "https://example.test/a-1.0.0.tgz"
    );
    let react_dom = lock.packages.get("react-dom@18.3.1(react@18.3.1)").unwrap();
    assert_eq!(react_dom.name, "react-dom");
    assert_eq!(react_dom.deps.get("react").unwrap(), "react@18.3.1");
    assert!(!lock.packages.get("b@1.0.0").unwrap().deps.contains_key("node"));

    assert_eq!(
        lock.sccs,
        vec![vec!["a@1.0.0".to_string(), "b@1.0.0".to_string()]]
    );
}

#[test]
fn reads_the_last_document() {
    let source = format!(
        "---\nlockfileVersion: '9.0'\nimporters:\n  .:\n    configDependencies: {{}}\n---\n{LOCKFILE_V9}"
    );
    assert_eq!(parse(&source).unwrap().packages.len(), 6);
}

#[test]
fn picks_the_last_document() {
    let old = || Document::Read(Some("6.0".to_string()));
    let new = || Document::Read(Some("9.0".to_string()));
    let broken = || Document::Unreadable("it is torn".to_string());
    assert_eq!(project_document(&vec![new()]).unwrap(), 0);
    assert_eq!(project_document(&vec![old(), broken(), new()]).unwrap(), 2);
    let message = |documents: Vec<Document>| project_document(&documents).unwrap_err().message();
    assert_eq!(message(vec![new(), broken()]), "it is torn");
    assert_eq!(message(vec![new(), old()]), "lockfileVersion 6.0 is not supported; only 9.0 is");
    assert_eq!(message(vec![new(), Document::Read(None)]), "the lockfile has no lockfileVersion");
}

#[test]
fn names_the_runtimes_that_are_skipped() {
    assert_eq!(skipped_runtimes(&document(LOCKFILE_V9).unwrap()).to_vec(), ["node@runtime:22.18.0"]);
    assert!(!parse(LOCKFILE_V9).unwrap().packages.contains_key("node@runtime:22.18.0"));
}

#[test]
fn validates_what_it_reads() {
    let message = |source: &str| {
        let pnpm = document(&format!("lockfileVersion: '9.0'\n{source}")).unwrap();
        let error = read(LOCKFILE, Some(&pnpm), &Dict::new()).unwrap_err();
        assert_eq!(error.message(), "parsing pnpm-lock.yaml");
        error.chain[1].clone()
    };
    assert_eq!(
        message("packages:\n  x@1.0.0:\n    resolution: {integrity: sha1-x}\nsnapshots:\n  x@1.0.0: {}\n"),
        "x@1.0.0 has no SHA-512 or SHA-256 integrity hash"
    );
    assert_eq!(
        message("packages:\n  _x@1.0.0:\n    resolution: {integrity: sha512-x}\nsnapshots:\n  _x@1.0.0: {}\n"),
        "_x@1.0.0 is named \"_x\", which is not a valid package name"
    );
    assert_eq!(
        message("importers:\n  .:\n    dependencies:\n      ../x: {specifier: '*', version: 1.0.0}\n"),
        "importer . depends on \"../x\", which is not a valid package name"
    );
}

#[test]
fn rejects_unsupported_lockfiles() {
    let error = parse("lockfileVersion: '6.0'\n").unwrap_err();
    assert!(error.message().contains("6.0"));

    let git = "lockfileVersion: '9.0'
packages:
  x@1.0.0:
    resolution: {commit: abc, repo: https://git.test/x, type: git}
snapshots:
  x@1.0.0: {}
";
    assert!(
        parse(git)
            .unwrap_err()
            .message()
            .contains("not from a registry")
    );
}

#[test]
fn says_what_is_wrong_with_a_lockfile() {
    let message = |source: &str| parse(source).unwrap_err().message();
    assert_eq!(project_document(&Vec::new()).unwrap_err().message(), "the lockfile is empty");
    assert_eq!(message("packages: {}\n"), "the lockfile has no lockfileVersion");
    assert_eq!(message("lockfileVersion: 5.4\n"), "lockfileVersion 5.4 is not supported; only 9.0 is");

    let with = |rest: &str| message(&format!("lockfileVersion: '9.0'\n{rest}"));
    assert_eq!(with("snapshots:\n  x: {}\n"), "x is not a valid package id");
    assert_eq!(with("snapshots:\n  x@1.0.0: {}\n"), "x@1.0.0 has no entry in packages");
    assert_eq!(
        with("packages:\n  x@1.0.0:\n    resolution: {integrity: sha512-x, tarball: file:x.tgz}\nsnapshots:\n  x@1.0.0: {}\n"),
        "x@1.0.0 is not from a registry, which is not supported yet"
    );
    assert_eq!(
        with("packages:\n  x@1.0.0:\n    resolution: {integrity: sha512-x}\nsnapshots:\n  x@1.0.0:\n    dependencies:\n      y: link:../y\n"),
        "x@1.0.0 depends on y through link:../y, which is not supported yet"
    );
}

#[test]
fn requires_pnpm_patches_to_be_configured() {
    let pnpm = document(&format!("{LOCKFILE_V9}\npatchedDependencies:\n  react@18.3.1: abc\n")).unwrap();

    let error = read(LOCKFILE, Some(&pnpm), &Dict::new()).unwrap_err();
    assert!(error.message().contains("patchedDependencies"), "{error:?}");

    let mut patches = Dict::new();
    patches.insert(
        "react@18.3.1".to_string(),
        Patch {
            path: "react.patch".to_string(),
            hash: "abc".to_string(),
        },
    );
    assert!(read(LOCKFILE, Some(&pnpm), &patches).unwrap().is_some());
    assert!(read(LOCKFILE, None, &patches).unwrap().is_none());
}

struct MemoryRegistry {
    cached: bool,
}

fn packument(versions: &[(&str, bool)]) -> Packument {
    let mut dict = Dict::new();
    for (version, install_script) in versions {
        let release = Release {
            manifest: None,
            problem: "missing field `dist`".to_string(),
            install_script: *install_script,
        };
        dict.insert((*version).to_string(), release);
    }
    Packument { dist_tags: Dict::new(), versions: dict, modified: None, time: Dict::new() }
}

impl Registry for MemoryRegistry {
    fn fetch(&self, names: &Vec<String>) -> Result<Vec<Packument>, Error> {
        assert!(!self.cached || names == &["b"], "{names:?}");
        Ok(names
            .iter()
            .map(|name| {
                if name == "a" {
                    packument(&[("1.0.0", true)])
                } else {
                    packument(&[("1.0.0", false), ("2.0.0", false), ("6.0.1", false), ("18.3.1", false)])
                }
            })
            .collect())
    }

    fn cached(&self, names: &Vec<String>) -> Vec<Option<Packument>> {
        names
            .iter()
            .map(|name| match name.as_str() {
                _ if !self.cached => None,
                "b" => Some(packument(&[("0.9.0", true)])),
                _ => Some(packument(&[("1.0.0", true), ("2.0.0", true), ("6.0.1", true), ("18.3.1", true)])),
            })
            .collect()
    }
}

#[test]
fn fills_install_scripts_from_the_registry() {
    let mut lock = parse(LOCKFILE_V9).unwrap();
    fill_install_scripts(&mut lock, &MemoryRegistry { cached: false }).unwrap();
    assert!(lock.packages.get("a@1.0.0").unwrap().install_script);
    assert!(!lock.packages.get("b@1.0.0").unwrap().install_script);
}

#[test]
fn fetches_only_what_the_cache_lacks() {
    let mut lock = parse(LOCKFILE_V9).unwrap();
    fill_install_scripts(&mut lock, &MemoryRegistry { cached: true }).unwrap();
    assert!(lock.packages.get("react@18.3.1").unwrap().install_script);
    assert!(!lock.packages.get("b@1.0.0").unwrap().install_script);
}

#[test]
fn fails_for_packages_that_the_registry_lacks() {
    let source = "lockfileVersion: '9.0'\npackages:\n  x@3.0.0:\n    resolution: {integrity: sha512-x}\nsnapshots:\n  x@3.0.0: {}\n";
    let mut lock = parse(source).unwrap();
    let error = fill_install_scripts(&mut lock, &MemoryRegistry { cached: false }).unwrap_err();
    assert_eq!(error.message(), "x@3.0.0 is not in the registry");
}

#[test]
fn leaves_runtimes_out() {
    let mut dependencies = Dict::new();
    dependencies.insert("node".to_string(), "runtime:22.18.0".to_string());
    dependencies.insert("a".to_string(), "^1".to_string());
    let specifiers = without_runtimes(&Specifiers {
        dependencies,
        dev_dependencies: Dict::new(),
        optional_dependencies: Dict::new(),
    });
    assert_eq!(specifiers.dependencies.len(), 1);
    assert!(specifiers.dependencies.contains_key("a"));
}
