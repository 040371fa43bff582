//! What `node_modules` links to.
use hinata::dict::Dict;
use hinata::json::Json;
use hinata::link::{is_container, prune, wanted, Found, LinkedPackage, Pruning};

fn text(text: &str) -> Json {
    Json::String(text.to_string())
}

fn object(members: Vec<(&str, Json)>) -> Json {
    Json::Object(members.into_iter().map(|(key, value)| (key.to_string(), value)).collect())
}

fn packages(entries: Vec<(&str, &str, Option<Json>)>) -> Dict<LinkedPackage> {
    let mut packages = Dict::new();
    for (alias, root, manifest) in entries {
        packages.insert(alias.to_string(), LinkedPackage { root: root.to_string(), manifest });
    }
    packages
}

fn links(entries: &[(&str, &str)]) -> Dict<String> {
    let mut links = Dict::new();
    for (name, target) in entries {
        links.insert((*name).to_string(), (*target).to_string());
    }
    links
}

#[test]
fn links_packages_scopes_and_bins() {
    let packages = packages(vec![
        ("react", "/s/react", Some(object(vec![("name", text("react"))]))),
        ("@babel/core", "/s/@babel/core", Some(object(vec![("name", text("@babel/core"))]))),
        (
            "vite",
            "/s/vite",
            Some(object(vec![
                ("name", text("vite")),
                ("bin", object(vec![("vite", text("./bin/vite.js")), ("no", Json::Null)])),
            ])),
        ),
        (
            "typescript",
            "/s/typescript",
            Some(object(vec![("name", text("typescript")), ("bin", text("bin/tsc"))])),
        ),
    ]);

    assert_eq!(
        wanted(&packages, Some("/nodejs/bin/node")),
        links(&[
            ("react", "/s/react"),
            ("@babel/core", "/s/@babel/core"),
            ("vite", "/s/vite"),
            ("typescript", "/s/typescript"),
            (".bin/vite", "/s/vite/bin/vite.js"),
            (".bin/typescript", "/s/typescript/bin/tsc"),
            (".bin/node", "/nodejs/bin/node"),
        ])
    );
}

#[test]
fn names_binaries_without_scopes() {
    let packages = packages(vec![
        ("a", "/a", Some(object(vec![("bin", text("././x"))]))),
        ("b", "/b", Some(object(vec![("name", text("@s/tool")), ("bin", text("/abs"))]))),
        ("c", "/c", None),
    ]);
    assert_eq!(
        wanted(&packages, None),
        links(&[("a", "/a"), ("b", "/b"), ("c", "/c"), (".bin/a", "/a/x"), (".bin/tool", "/abs")])
    );
}

#[test]
fn leaves_unchanged_links_in_place() {
    let named = |name: &str| Some(object(vec![("name", text(name))]));
    let vite = || {
        Some(object(vec![("name", text("vite")), ("bin", object(vec![("vite", text("bin/vite.js"))]))]))
    };
    let link = |target: &str| Found::Link(Some(target.to_string()));
    let before = wanted(&packages(vec![("react", "/s/react", named("react")), ("vite", "/s/vite", vite())]), None);
    let after = wanted(
        &packages(vec![
            ("react", "/s/react", named("react")),
            ("vite", "/s/vite", vite()),
            ("zod", "/s/zod", named("zod")),
        ]),
        None,
    );
    for (prefix, name) in [("", "react"), ("", "vite"), (".bin/", "vite")] {
        let target = before.get(&format!("{prefix}{name}")).unwrap();
        assert_eq!(prune(prefix, name, &link(target), &after), Pruning::Keep);
    }
    assert!(!before.contains_key("zod"));
    assert_eq!(after.get("zod").unwrap(), "/s/zod");
}

#[test]
fn removes_links_to_anything_else() {
    let wanted = links(&[("react", "/s/react"), (".bin/vite", "/s/vite/bin/vite.js")]);
    let link = |target: &str| Found::Link(Some(target.to_string()));
    assert_eq!(prune("", "react", &link("/s/react"), &wanted), Pruning::Keep);
    assert_eq!(prune("", "react", &link("/s/other"), &wanted), Pruning::Remove);
    assert_eq!(prune("", "zod", &link("/s/zod"), &wanted), Pruning::Remove);
    assert_eq!(prune("", "zod", &Found::Link(None), &wanted), Pruning::Keep);
    assert_eq!(prune("", "react", &Found::Link(None), &wanted), Pruning::Remove);
    assert_eq!(prune("", "zod", &Found::ForeignLink, &wanted), Pruning::Remove);
    assert_eq!(prune("", "react", &Found::ForeignLink, &wanted), Pruning::Remove);
    assert_eq!(prune(".bin/", "vite", &link("/s/vite/bin/vite.js"), &wanted), Pruning::Keep);
}

#[test]
fn keeps_caches_and_removes_stale_entries() {
    let react = packages(vec![("react", "/s/react", Some(object(vec![("name", text("react"))])))]);
    let links_of_react = wanted(&react, None);
    let link = |target: &str| Found::Link(Some(target.to_string()));
    assert_eq!(prune("", ".vite", &Found::Directory, &links_of_react), Pruning::Keep);
    assert_eq!(prune("", "lodash", &Found::Directory, &links_of_react), Pruning::Remove);
    assert_eq!(prune("", "@old", &Found::Directory, &links_of_react), Pruning::Descend);
    assert_eq!(prune("@old/", "pkg", &link("/nix/store/old"), &links_of_react), Pruning::Remove);
    assert_eq!(prune("", "left-pad", &link("/nix/store/old"), &links_of_react), Pruning::Remove);
    assert_eq!(prune("", "react", &link("/nix/store/wrong"), &links_of_react), Pruning::Remove);
    assert_eq!(links_of_react.get("react").unwrap(), "/s/react");
}

#[test]
fn prunes_by_kind_and_name() {
    let wanted = links(&[("react", "/s/react"), (".cache-link", "/x")]);
    assert_eq!(prune("", ".vite", &Found::Directory, &wanted), Pruning::Keep);
    assert_eq!(prune("", ".package-lock.json", &Found::File, &wanted), Pruning::Keep);
    assert_eq!(prune("", ".cache-link", &Found::Directory, &wanted), Pruning::Remove);
    assert_eq!(prune("", "react", &Found::Directory, &wanted), Pruning::Remove);
    assert_eq!(prune("", "stale", &Found::Directory, &wanted), Pruning::Remove);
    assert_eq!(prune("", "stale.txt", &Found::File, &wanted), Pruning::Remove);
    assert_eq!(prune("", "@babel", &Found::Directory, &wanted), Pruning::Descend);
    assert_eq!(prune("", ".bin", &Found::Directory, &wanted), Pruning::Descend);
    assert_eq!(prune("@babel/", "@core", &Found::Directory, &wanted), Pruning::Remove);
    assert_eq!(prune("", "@file", &Found::File, &wanted), Pruning::Remove);
    assert!(is_container("@babel"));
    assert!(!is_container("babel"));
}
