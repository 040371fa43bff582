//! The lockfile.
use hinata::dict::Dict;
use hinata::lock::{find_cycles, is_valid_name, validate, Importer, Lock, Package, Specifiers, VERSION};

#[test]
fn accepts_only_npm_package_names() {
    for name in [
        "react",
        "@babel/core",
        "JSONStream",
        "lodash.merge",
        "a-b_c~d",
    ] {
        assert!(is_valid_name(name), "{name}");
    }
    for name in [
        "",
        "..",
        "../x",
        ".bin",
        "_private",
        "@scope",
        "@scope/",
        "@scope/a/b",
        "a b",
        "a\"$(id)",
    ] {
        assert!(!is_valid_name(name), "{name}");
    }
}

#[test]
fn limits_the_length_of_names() {
    assert!(is_valid_name(&"a".repeat(214)));
    assert!(!is_valid_name(&"a".repeat(215)));
    assert!(!is_valid_name("é"));
}

fn dict(entries: &[(&str, &str)]) -> Dict<String> {
    let mut dict = Dict::new();
    for (key, value) in entries {
        dict.insert((*key).to_string(), (*value).to_string());
    }
    dict
}

fn package(name: &str, version: &str, integrity: &str, deps: &[(&str, &str)]) -> Package {
    Package {
        name: name.to_string(),
        version: version.to_string(),
        url: "https://registry.test/a.tgz".to_string(),
        integrity: integrity.to_string(),
        deps: dict(deps),
        optional_deps: Dict::new(),
        os: None,
        cpu: None,
        libc: None,
        has_bin: false,
        install_script: false,
        build: false,
        impure_build: false,
        build_inputs: Vec::new(),
        patch: None,
    }
}

fn empty_specifiers() -> Specifiers {
    Specifiers {
        dependencies: Dict::new(),
        dev_dependencies: Dict::new(),
        optional_dependencies: Dict::new(),
    }
}

fn lock(name: &str, alias: &str, integrity: &str, root: &str) -> Lock {
    let mut packages = Dict::new();
    packages.insert("a@1.0.0".to_string(), package(name, "1.0.0", integrity, &[(alias, "b@1.0.0")]));
    let mut importers = Dict::new();
    importers.insert(
        ".".to_string(),
        Importer {
            dependencies: dict(&[(root, "a@1.0.0")]),
            dev_dependencies: Dict::new(),
            optional_dependencies: Dict::new(),
            links: Dict::new(),
            specifiers: empty_specifiers(),
        },
    );
    Lock {
        version: VERSION,
        nixpkgs: None,
        node: None,
        overrides: Dict::new(),
        packages,
        sccs: Vec::new(),
        importers,
    }
}

#[test]
fn rejects_unsafe_aliases_and_weak_integrity() {
    let lock = |alias: &str, integrity: &str| lock("a", alias, integrity, "a");

    assert!(validate(&lock("b", "sha512-x")).is_ok());
    assert!(validate(&lock("../b", "sha512-x")).is_err());
    assert!(validate(&lock("b", "sha1-x")).is_err());
}

#[test]
fn says_what_is_wrong_with_a_lock() {
    let message = |lock: &Lock| validate(lock).unwrap_err().message();
    assert_eq!(
        message(&lock("a b", "b", "sha512-x", "a")),
        "a@1.0.0 is named \"a b\", which is not a valid package name"
    );
    assert_eq!(
        message(&lock("a", "../b", "sha512-x", "a")),
        "a@1.0.0 depends on \"../b\", which is not a valid package name"
    );
    assert_eq!(
        message(&lock("a", "b", "sha1-x", "a")),
        "a@1.0.0 has no SHA-512 or SHA-256 integrity hash"
    );
    assert_eq!(
        message(&lock("a", "b", "sha256-x", ".bin")),
        "importer . depends on \".bin\", which is not a valid package name"
    );
}

#[test]
fn groups_packages_that_depend_on_each_other() {
    let mut packages = Dict::new();
    for (id, deps) in [
        ("e", vec![("d", "d")]),
        ("d", vec![("e", "e"), ("a", "a")]),
        ("c", vec![("a", "a"), ("missing", "missing")]),
        ("b", vec![("c", "c")]),
        ("a", vec![("b", "b")]),
        ("self", vec![("self", "self")]),
    ] {
        packages.insert(id.to_string(), package(id, "1.0.0", "sha512-x", &deps));
    }
    assert_eq!(find_cycles(&packages), [vec!["a", "b", "c"], vec!["d", "e"]]);
}

#[test]
fn walks_specifiers_group_by_group() {
    let mut specifiers = empty_specifiers();
    assert!(specifiers.is_empty());
    specifiers.groups_mut()[1].insert("a".to_string(), "^1".to_string());
    assert!(!specifiers.is_empty());
    assert_eq!(specifiers.groups()[1].get("a").unwrap(), "^1");
    assert_eq!(specifiers.groups()[0].len(), 0);
    assert_eq!(specifiers.dev_dependencies.len(), 1);
}
