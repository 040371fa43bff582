//! What resolving changed, what needs approval, and why packages are there.
use hinata::dict::Dict;
use hinata::lock::{Importer, Lock, Package, Specifiers, VERSION};
use hinata::logging::{plural, ticked};
use hinata::summary::{changes, report, snapshot, Entry};
use hinata::trust::{approve, approve_hashed, check, consented, Approval, Consent};
use hinata::why::{routes, run};

fn package(name: &str, version: &str, integrity: &str) -> Package {
    Package {
        name: name.to_string(),
        version: version.to_string(),
        url: "u".to_string(),
        integrity: integrity.to_string(),
        deps: Dict::new(),
        optional_deps: Dict::new(),
        os: None,
        cpu: None,
        libc: None,
        has_bin: false,
        install_script: false,
        build: false,
        impure_build: false,
        build_inputs: Vec::new(),
        patch: None,
    }
}

fn lock(packages: Vec<(&str, Package)>) -> Lock {
    let mut all = Dict::new();
    for (id, package) in packages {
        all.insert(id.to_string(), package);
    }
    Lock {
        version: VERSION,
        nixpkgs: None,
        node: None,
        overrides: Dict::new(),
        packages: all,
        sccs: Vec::new(),
        importers: Dict::new(),
    }
}

fn names(entries: &[Entry]) -> Vec<String> {
    entries
        .iter()
        .map(|entry| format!("{} {}", entry.name, entry.version))
        .collect()
}

#[test]
fn pairs_a_removal_with_an_addition_of_the_same_package() {
    let before = lock(vec![
        ("vite@5.4.2", package("vite", "5.4.2", "sha512-i")),
        ("lodash@4.17.20", package("lodash", "4.17.20", "sha512-i")),
    ]);
    let after = lock(vec![
        ("vite@5.4.11", package("vite", "5.4.11", "sha512-i")),
        ("semver@7.6.3", package("semver", "7.6.3", "sha512-i")),
    ]);

    let changes = changes(&snapshot(Some(&before)), &after);
    assert_eq!(names(&changes.added), ["semver 7.6.3"]);
    assert_eq!(names(&changes.removed), ["lodash 4.17.20"]);
    assert_eq!(
        changes.updated,
        [(
            "vite".to_string(),
            "5.4.2".to_string(),
            "5.4.11".to_string()
        )]
    );
}

#[test]
fn keeps_packages_apart_when_several_versions_change() {
    let package = |version: &str| package("ignored", version, "sha512-i");
    let before = lock(vec![("a@1.0.0", package("1.0.0")), ("a@2.0.0", package("2.0.0"))]);
    let after = lock(vec![("a@3.0.0", package("3.0.0"))]);

    let changes = changes(&snapshot(Some(&before)), &after);
    assert_eq!(names(&changes.added), ["ignored 3.0.0"]);
    assert_eq!(names(&changes.removed), ["ignored 1.0.0", "ignored 2.0.0"]);
    assert!(changes.updated.is_empty());
}

#[test]
fn reports_a_version_that_changed_tarball() {
    let before = lock(vec![("a@1.0.0", package("a", "1.0.0", "sha512-i"))]);
    let after = lock(vec![("a@1.0.0", package("a", "1.0.0", "sha512-other"))]);

    let changes = changes(&snapshot(Some(&before)), &after);
    assert_eq!(names(&changes.resupplied), ["a 1.0.0"]);
    assert!(changes.added.is_empty() && changes.removed.is_empty());
}

#[test]
fn flags_new_packages_whose_install_scripts_are_skipped() {
    let mut esbuild = package("esbuild", "0.25.0", "sha512-i");
    esbuild.install_script = true;
    let mut sharp = package("sharp", "0.33.0", "sha512-i");
    sharp.install_script = true;
    sharp.build = true;
    let after = lock(vec![("esbuild@0.25.0", esbuild), ("sharp@0.33.0", sharp)]);

    let changes = changes(&snapshot(None), &after);
    let flagged: Vec<&str> = changes
        .added
        .iter()
        .filter(|entry| entry.scripts)
        .map(|entry| entry.name.as_str())
        .collect();
    assert_eq!(flagged, ["esbuild"]);
}

#[test]
fn finds_no_changes_in_the_same_lock() {
    let same = lock(vec![
        ("a@1.0.0", package("a", "1.0.0", "sha512-i")),
        ("a@1.0.0(b@1.0.0)", package("a", "1.0.0", "sha512-j")),
    ]);
    let changes = changes(&snapshot(Some(&same)), &same);
    assert!(changes.added.is_empty() && changes.removed.is_empty());
    assert!(changes.updated.is_empty() && changes.resupplied.is_empty());
}

#[test]
fn reports_only_a_count_at_first() {
    let after = lock(vec![("a@1.0.0", package("a", "1.0.0", "sha512-i"))]);
    let lines = report(&snapshot(None), &after);
    assert_eq!(lines.len(), 1);
    assert_eq!(lines[0].text, "resolved \u{1b}[32m1\u{1b}[39m package");
}

#[test]
fn reports_what_changed() {
    let mut esbuild = package("esbuild", "0.25.0", "sha512-i");
    esbuild.install_script = true;
    let before = lock(vec![
        ("a@1.0.0", package("a", "1.0.0", "sha512-i")),
        ("b@1.0.0", package("b", "1.0.0", "sha512-i")),
        ("c@1.0.0", package("c", "1.0.0", "sha512-i")),
    ]);
    let after = lock(vec![
        ("a@1.0.0", package("a", "1.0.0", "sha512-other")),
        ("b@2.0.0", package("b", "2.0.0", "sha512-i")),
        ("esbuild@0.25.0", esbuild),
    ]);
    let lines: Vec<(bool, String)> = report(&snapshot(Some(&before)), &after)
        .into_iter()
        .map(|line| (line.warning, line.text))
        .collect();
    assert_eq!(
        lines,
        [
            (
                false,
                "resolved \u{1b}[32m3\u{1b}[39m packages\u{1b}[2m (+1, -1, 1 updated)\u{1b}[0m".to_string()
            ),
            (false, "  \u{1b}[32m+\u{1b}[39m esbuild 0.25.0 (install scripts)".to_string()),
            (false, "  \u{1b}[31m-\u{1b}[39m c 1.0.0".to_string()),
            (false, "  \u{1b}[33m~\u{1b}[39m b 1.0.0 → 2.0.0".to_string()),
            (
                true,
                format!(
                    "{} is the version the lockfile recorded, but no longer the tarball",
                    ticked("a@1.0.0")
                )
            ),
        ]
    );
    assert_eq!(ticked("x"), "\u{1b}[2m`\u{1b}[0m\u{1b}[33mx\u{1b}[39m\u{1b}[2m`\u{1b}[0m");
}

#[test]
fn counts_what_is_not_listed() {
    let before = lock(vec![("z@1.0.0", package("z", "1.0.0", "sha512-i"))]);
    let ids: Vec<String> = (0..25).map(|n| format!("p{n}@1.0.0")).collect();
    let mut packages: Vec<(&str, Package)> = ids
        .iter()
        .map(|id| (id.as_str(), package(id.strip_suffix("@1.0.0").unwrap(), "1.0.0", "sha512-i")))
        .collect();
    packages.push(("z@1.0.0", package("z", "1.0.0", "sha512-i")));
    let lines = report(&snapshot(Some(&before)), &lock(packages));
    assert_eq!(lines.len(), 1 + 20 + 1);
    assert_eq!(lines[21].text, "  \u{1b}[2mand 5 more\u{1b}[0m");
    assert_eq!(plural(2, "package", "packages"), "\u{1b}[32m2\u{1b}[39m packages");
}

fn impure_lock(impure: &[(&str, &str)]) -> Lock {
    let ids: Vec<String> = impure.iter().map(|(name, version)| format!("{name}@{version}")).collect();
    lock(
        impure
            .iter()
            .zip(&ids)
            .map(|((name, version), id)| {
                let mut package = package(name, version, "sha512-x");
                package.impure_build = true;
                (id.as_str(), package)
            })
            .collect(),
    )
}

#[test]
fn asks_again_only_when_approvals_change() {
    let mut remembered: Option<String> = None;
    let mut asked = 0;
    let mut check = |lock: &Lock, substituters: &Dict<String>, answer: bool| {
        match approve(lock, substituters, remembered.as_deref()) {
            Approval::Granted => (true, asked),
            Approval::Needed { hash, lines } => {
                assert!(lines.len() > 1);
                asked += 1;
                if let Ok(hash) = consented(hash, Some(answer)) {
                    remembered = Some(hash);
                }
                (answer, asked)
            }
        }
    };
    let none = Dict::new();

    assert_eq!(check(&impure_lock(&[]), &none, false), (true, 0));

    assert_eq!(check(&impure_lock(&[("a", "1.0.0")]), &none, false), (false, 1));
    assert_eq!(check(&impure_lock(&[("a", "1.0.0")]), &none, true), (true, 2));
    assert_eq!(check(&impure_lock(&[("a", "1.0.0")]), &none, false), (true, 2));

    assert_eq!(check(&impure_lock(&[("a", "1.0.1")]), &none, false), (false, 3));
    let mut cache = Dict::new();
    cache.insert("https://cache.test".to_string(), "key".to_string());
    assert_eq!(check(&impure_lock(&[("a", "1.0.0")]), &cache, false), (false, 4));
}

#[test]
fn hashes_what_needs_approval() {
    let mut cache = Dict::new();
    cache.insert("https://cache.test".to_string(), "key".to_string());
    match approve(&impure_lock(&[("a", "1.0.0")]), &cache, None) {
        Approval::Needed { hash, lines } => {
            assert_eq!(
                hash,
                hinata::util::hash(br#"[[["a","1.0.0","sha512-x"]],{"https://cache.test":"key"}]"#)
            );
            assert_eq!(
                lines,
                [
                    "this project needs approval before installing:".to_string(),
                    format!(
                        "  {} runs install scripts with your permissions and network access",
                        ticked("a@1.0.0")
                    ),
                    format!(
                        "  {} can provide any store path, signed by \u{1b}[2mkey\u{1b}[0m",
                        ticked("https://cache.test")
                    ),
                ]
            );
        }
        Approval::Granted => panic!("nothing was approved"),
    }
}

#[test]
fn asks_only_where_there_is_someone_to_ask() {
    assert_eq!(check(true, false), Consent::Given);
    assert_eq!(check(false, true), Consent::Asked);
    assert_eq!(check(false, false), Consent::Impossible);
    assert_eq!(consented("abc".to_string(), Some(true)).unwrap(), "abc");
    assert_eq!(
        consented("abc".to_string(), Some(false)).unwrap_err().message(),
        "not approved, so nothing was installed"
    );
    assert_eq!(
        consented("abc".to_string(), None).unwrap_err().message(),
        "there is no terminal to ask for approval on; pass --trust to approve these"
    );
}

fn dict(entries: &[(&str, &str)]) -> Dict<String> {
    let mut dict = Dict::new();
    for (key, value) in entries {
        dict.insert((*key).to_string(), (*value).to_string());
    }
    dict
}

fn why_lock() -> Lock {
    let with = |name: &str, version: &str, deps: &[(&str, &str)]| {
        let mut package = package(name, version, "sha512-i");
        package.deps = dict(deps);
        package
    };
    let mut lock = lock(vec![
        ("react@18.3.1", with("react", "18.3.1", &[])),
        ("react-dom@18.3.1", with("react-dom", "18.3.1", &[("react", "react@18.3.1")])),
        ("react@17.0.2", with("react", "17.0.2", &[])),
        (
            "legacy@1.0.0",
            with("legacy", "1.0.0", &[("react", "react@17.0.2"), ("loop", "loop@1.0.0")]),
        ),
        ("loop@1.0.0", with("loop", "1.0.0", &[("legacy", "legacy@1.0.0")])),
        ("unused@1.0.0", with("unused", "1.0.0", &[])),
    ]);
    for (path, dependencies, dev_dependencies) in [
        (".", dict(&[("react-dom", "react-dom@18.3.1")]), dict(&[("react", "react@18.3.1")])),
        ("apps/old", dict(&[("legacy", "legacy@1.0.0")]), Dict::new()),
    ] {
        lock.importers.insert(
            path.to_string(),
            Importer {
                dependencies,
                dev_dependencies,
                optional_dependencies: Dict::new(),
                links: Dict::new(),
                specifiers: Specifiers {
                    dependencies: Dict::new(),
                    dev_dependencies: Dict::new(),
                    optional_dependencies: Dict::new(),
                },
            },
        );
    }
    lock
}

#[test]
fn reports_a_route_for_each_importer_and_group() {
    assert_eq!(
        routes(&why_lock(), "react", None),
        [
            ". (dependencies) → react-dom@18.3.1 → react@18.3.1",
            ". (devDependencies) → react@18.3.1",
            "apps/old (dependencies) → legacy@1.0.0 → react@17.0.2",
        ]
    );
}

#[test]
fn reports_only_the_instances_a_version_matches() {
    assert_eq!(
        routes(&why_lock(), "react", Some("17.0.2")),
        ["apps/old (dependencies) → legacy@1.0.0 → react@17.0.2"]
    );
    assert!(routes(&why_lock(), "react", Some("16.0.0")).is_empty());
}

#[test]
fn walks_out_of_cycles() {
    assert_eq!(
        routes(&why_lock(), "loop", None),
        ["apps/old (dependencies) → legacy@1.0.0 → loop@1.0.0"]
    );
}

#[test]
fn reports_nothing_for_a_package_no_importer_reaches() {
    assert!(routes(&why_lock(), "unused", None).is_empty());
    assert!(routes(&why_lock(), "absent", None).is_empty());
}

#[test]
fn says_that_nothing_depends_on_a_package() {
    assert_eq!(run(&why_lock(), "react@17.0.2").unwrap().len(), 1);
    assert_eq!(
        run(&why_lock(), "unused").unwrap_err().message(),
        "nothing depends on unused"
    );
}

#[test]
fn approves_what_was_approved_before() {
    let hash = || "abc".to_string();
    let empty = Dict::new();
    let mut caches = Dict::new();
    caches.insert("https://cache.test".to_string(), "key".to_string());
    let plain = lock(vec![("a@1.0.0", package("a", "1.0.0", "sha512-i"))]);
    assert!(matches!(approve_hashed(&plain, &empty, hash(), None), Approval::Granted));
    assert!(matches!(approve_hashed(&plain, &caches, hash(), Some("abc")), Approval::Granted));
    for remembered in [None, Some("abd")] {
        match approve_hashed(&plain, &caches, hash(), remembered) {
            Approval::Needed { lines, hash } => {
                assert_eq!(hash, "abc");
                assert!(lines.iter().any(|line| line.contains("https://cache.test")));
            }
            Approval::Granted => panic!("nothing was approved"),
        }
    }
}
