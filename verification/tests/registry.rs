//! What is known of packages, and how it is cached.
use hinata::dict::Dict;
use hinata::json::Json;
use hinata::registry::{
    cache_file, frame_entry, packument_url, registry_url, split_entry, stands_for_cached, Dist, VersionManifest,
    DEFAULT_REGISTRY,
};

#[test]
fn round_trips_cache_entries() {
    let validators = br#"{"etag":"W/\"a\nb\"","last_modified":null}"#.to_vec();
    let entry = frame_entry(validators.clone(), &b"{\n}".to_vec());

    let (read, body) = split_entry(&entry).unwrap();
    assert_eq!(read, validators);
    assert_eq!(body, b"{\n}");
    assert!(split_entry(&b"no line".to_vec()).is_none());
}

#[test]
fn names_cache_entries_by_hash() {
    let upper = cache_file(DEFAULT_REGISTRY, "@Scope/Pkg");
    let lower = cache_file(DEFAULT_REGISTRY, "@scope/pkg");

    assert_ne!(upper, lower);
    for name in [upper, lower] {
        assert_eq!(name.len(), 64 + 5);
        assert!(
            name.strip_suffix(".json")
                .unwrap()
                .chars()
                .all(|char| matches!(char, '0'..='9' | 'a'..='f'))
        );
    }
    assert_eq!(
        cache_file("https://r", "a/b"),
        format!(
            "{}.json",
            hinata::util::hash(
                b"application/vnd.npm.install-v1+json; q=1.0, application/json; q=0.8, */*\nhttps://r/a%2fb"
            )
        )
    );
}

#[test]
fn finds_packuments() {
    assert_eq!(registry_url("https://registry.test//"), "https://registry.test");
    assert_eq!(
        packument_url("https://registry.test", "@scope/pkg"),
        "https://registry.test/@scope%2fpkg"
    );
}

fn manifest(bin: Json, directories: Json) -> VersionManifest {
    VersionManifest {
        dependencies: Dict::new(),
        optional_dependencies: Dict::new(),
        peer_dependencies: Dict::new(),
        peer_dependencies_meta: Dict::new(),
        bin,
        directories,
        dist: Dist { tarball: String::new(), integrity: None },
        os: None,
        cpu: None,
        libc: None,
        has_install_script: false,
    }
}

#[test]
fn tells_whether_packages_have_binaries() {
    let text = |text: &str| Json::String(text.to_string());
    assert!(manifest(text("cli.js"), Json::Null).has_bin());
    assert!(!manifest(text(""), Json::Null).has_bin());
    assert!(!manifest(Json::Object(vec![]), Json::Null).has_bin());
    assert!(manifest(Json::Object(vec![("a".to_string(), text("a.js"))]), Json::Null).has_bin());
    assert!(manifest(Json::Null, Json::Object(vec![("bin".to_string(), Json::Null)])).has_bin());
    assert!(!manifest(Json::Array(vec![]), Json::Object(vec![])).has_bin());
}

#[test]
fn takes_what_is_cached_when_it_is_unchanged() {
    assert!(stands_for_cached(true, 304));
    assert!(!stands_for_cached(false, 304));
    assert!(!stands_for_cached(true, 200));
}
