//! Versions, ranges and times.
use hinata::dict::Dict;
use hinata::registry::{may_have_changed, Packument, Release};
use hinata::resolve::pick::{
    add_release, choose_for_range, choose_for_tag, pick_version, was_released, Candidate, Fetched, Versions,
};
use hinata::resolve::{link_problem, parse_spec, release_cutoff, split_version};
use hinata::text::{less, number, trim};
use hinata::time::{parse_time, release_cutoff_at, Timestamp, FIRST_SECOND, LAST_SECOND};
use hinata::version::{check_range, overlaps, satisfies, Identifier, Version};

fn version(raw: &str) -> Version {
    Version::parse(raw).unwrap()
}

#[test]
fn parses_and_prints_versions() {
    let parsed = version("v1.2.3-rc.4+build.05");
    assert_eq!((parsed.major, parsed.minor, parsed.patch), (1, 2, 3));
    assert_eq!(
        parsed.pre_release,
        [Identifier::AlphaNumeric("rc".to_string()), Identifier::Numeric(4)]
    );
    assert_eq!(parsed.text(), "1.2.3-rc.4+build.5");
    assert!(parsed.is_prerelease());
    assert_eq!(parsed.into_bare().text(), "1.2.3-rc.4");
    assert!(Version::parse("1.2").is_none());
    assert!(Version::parse("").is_none());
}

#[test]
fn orders_versions() {
    let ascending = [
        "0.9.9",
        "1.0.0-1",
        "1.0.0-2",
        "1.0.0-10",
        "1.0.0-alpha",
        "1.0.0-alpha.1",
        "1.0.0-beta",
        "1.0.0",
        "1.0.1",
        "1.1.0",
        "10.0.0",
    ];
    for (i, a) in ascending.iter().enumerate() {
        for (j, b) in ascending.iter().enumerate() {
            assert_eq!(version(a).precedes(&version(b)), i < j, "{a} {b}");
        }
    }
    assert!(!version("1.0.0+a").precedes(&version("1.0.0+b")));
    assert!(!version("1.0.0+b").precedes(&version("1.0.0+a")));
}

#[test]
fn checks_ranges() {
    assert_eq!(check_range("^1.2.0 || 3.x"), None);
    assert!(check_range("latest").is_some());
    assert_eq!(check_range("~*").unwrap(), "a wildcard cannot be compared with");
    for raw in ["^1 ||=x", "||||=x", "1 - =v *", "a ~ > X", "~1.*.9", "~1.x.900719925474099"] {
        assert_eq!(check_range(raw).as_deref(), Some("a wildcard cannot be compared with"), "{raw}");
    }
    for raw in ["^1 |||=x", "^1 ||~1.x.x", "^1 ||~1.x.900719925474100", "^1 ~900719925474100.x.1", "^1 a=x", ">=x"] {
        assert_eq!(check_range(raw), None, "{raw}");
    }
    assert!(satisfies("^1.2.0", &version("1.9.0")));
    assert!(!satisfies("^1.2.0", &version("2.0.0")));
    assert!(!satisfies("=x", &version("2.0.0")));
    assert!(!satisfies("latest", &version("2.0.0")));
    assert!(overlaps("<7.5.2", "^7.3.0"));
    assert!(!overlaps("<7.5.2", "^7.6.0"));
    assert!(!overlaps("<7.5.2", "latest"));
}

#[test]
fn orders_text_by_bytes() {
    assert!(less("", "a"));
    assert!(less("a", "ab"));
    assert!(less("Z", "a"));
    assert!(less("z", "é"));
    assert!(!less("a", "a"));
    assert_eq!(trim("\u{3000} a b\t\n"), "a b");
    assert_eq!(number(0), "0");
    assert_eq!(number(u64::MAX), "18446744073709551615");
}

#[test]
fn parses_specifiers() {
    let parse = |alias: &str, spec: &str| parse_spec(alias, spec).map_err(|error| error.message());
    let pair = |name: &str, range: &str| Ok((name.to_string(), range.to_string()));
    assert_eq!(parse("a", "^1"), pair("a", "^1"));
    assert_eq!(parse("a", " "), pair("a", "*"));
    assert_eq!(parse("a", "npm:b"), pair("b", "*"));
    assert_eq!(parse("a", "npm:@s/b@ ^2 "), pair("@s/b", "^2"));
    assert_eq!(
        parse("a", "user/repo"),
        Err("a: user/repo is not supported yet; only registry versions, ranges and tags are".to_string())
    );
    assert_eq!(split_version("@s/b@1"), Some(("@s/b", "1")));
    assert_eq!(split_version("@s/b"), None);
    assert_eq!(split_version(""), None);
    assert_eq!(split_version("é@1"), None);
    assert_eq!(split_version("aé@1"), Some(("aé", "1")));
}

#[test]
fn parses_times() {
    assert_eq!(
        parse_time("1970-01-01T00:01:00.5+00:00"),
        Some(Timestamp { seconds: 60, nanos: 500_000_000 })
    );
    assert_eq!(parse_time("1970-01-01T01:00:00+01:00"), Some(Timestamp { seconds: 0, nanos: 0 }));
    assert_eq!(parse_time("yesterday"), None);
    let earlier = parse_time("2026-01-01T00:00:00Z").unwrap();
    let later = parse_time("2026-01-01T00:00:00.1Z").unwrap();
    assert!(earlier.before(&later));
    assert!(!later.before(&later));
}

#[test]
fn cuts_releases_off() {
    let now = Timestamp { seconds: 1_000_000, nanos: 5 };
    assert_eq!(release_cutoff_at(now, 0), None);
    assert_eq!(release_cutoff_at(now, 10), Some(Timestamp { seconds: 999_400, nanos: 5 }));
    let first = Timestamp { seconds: chrono::DateTime::<chrono::Utc>::MIN_UTC.timestamp(), nanos: 0 };
    assert_eq!(release_cutoff_at(now, u64::MAX), Some(first));
    assert_eq!(release_cutoff_at(now, i64::MAX as u64), Some(first));
    assert_eq!(first.seconds, FIRST_SECOND);
    assert_eq!(chrono::DateTime::<chrono::Utc>::MAX_UTC.timestamp(), LAST_SECOND);
    let limit = (now.seconds - FIRST_SECOND) as u64 / 60;
    assert_eq!(release_cutoff_at(now, limit + 1), Some(first));
    assert_eq!(
        release_cutoff_at(now, limit).unwrap().seconds,
        now.seconds - 60 * limit as i64
    );
    assert_eq!(release_cutoff(0), None);
    let cutoff = release_cutoff(1).unwrap();
    let now = chrono::Utc::now().timestamp();
    assert!(cutoff.seconds <= now - 60 && cutoff.seconds > now - 600);
}

fn fetched(tags: &[(&str, &str)], versions: &[&str]) -> Fetched {
    let mut dist_tags = Dict::new();
    for (tag, version) in tags {
        dist_tags.insert((*tag).to_string(), (*version).to_string());
    }
    let mut releases = Dict::new();
    for version in versions {
        let release = Release { manifest: None, problem: String::new(), install_script: false };
        releases.insert((*version).to_string(), release);
    }
    let mut time = Dict::new();
    time.insert("1.0.0".to_string(), "2020-01-01T00:00:00Z".to_string());
    time.insert("2.0.0-rc.1".to_string(), "2020-01-01T00:00:00Z".to_string());
    Fetched::new(Packument { dist_tags, versions: releases, modified: None, time }, true)
}

#[test]
fn picks_what_tags_and_ranges_select() {
    let all = fetched(
        &[("latest", "1.0.0"), ("next", "2.0.0-rc.2"), ("gone", "9.0.0"), ("odd", "what")],
        &["0.9.0", "1.0.0", "1.1.0", "v1.1.0", "2.0.0-rc.1", "2.0.0-rc.2", "unreadable"],
    );
    let cutoff = parse_time("2021-01-01T00:00:00Z");
    let pick = |range: &str, chosen: &Versions, cutoff| {
        pick_version(&all, range, chosen, cutoff).map(|(_, raw)| raw)
    };
    let none = Versions::new();
    assert_eq!(pick("*", &none, None).as_deref(), Some("1.0.0"));
    assert_eq!(pick(">1.0.0", &none, None).as_deref(), Some("v1.1.0"));
    assert_eq!(pick(">1.0.0", &none, cutoff), None);
    assert_eq!(pick("next", &none, None).as_deref(), Some("2.0.0-rc.2"));
    assert_eq!(pick("next", &none, cutoff).as_deref(), Some("2.0.0-rc.1"));
    assert_eq!(pick("gone", &none, None), None);
    assert_eq!(pick("odd", &none, None), None);
    assert_eq!(pick("missing", &none, None), None);

    let mut chosen = Versions::new();
    chosen.insert(version("1.1.0"));
    chosen.insert(version("0.9.0"));
    assert_eq!(pick("*", &chosen, cutoff).as_deref(), Some("v1.1.0"));
    assert_eq!(pick("<1", &chosen, cutoff).as_deref(), Some("0.9.0"));
    assert!(all.has_pinned_version("1.0.0", &none));
    assert!(all.has_pinned_version("<1.1.1", &chosen));
    assert!(!all.has_pinned_version("<1.1.1", &none));
    assert!(!all.has_pinned_version("latest", &chosen));

    assert_eq!(all.tagged("p", "latest", None).unwrap(), "1.0.0");
    assert_eq!(
        all.tagged("p", "gone", None).unwrap_err().message(),
        "every version of p up to gone was published too recently for hinata.minimumReleaseAge"
    );
    assert_eq!(
        all.tagged("p", "missing", None).unwrap_err().message(),
        "p has no version tagged missing"
    );
}

#[test]
fn keeps_dictionaries_in_order() {
    let mut dict: Dict<String> = Dict::new();
    for key in ["b", "c", "a", "b"] {
        dict.insert(key.to_string(), format!("{key}!"));
    }
    assert_eq!(dict.len(), 3);
    assert_eq!((dict.key(0).as_str(), dict.value(2).as_str()), ("a", "c!"));
    assert_eq!(dict.remove("b").as_deref(), Some("b!"));
    assert_eq!(dict.remove("b"), None);
    assert!(!dict.contains_key("b"));
}

fn candidate(raw: &str, chosen: bool, in_range: bool, released: bool) -> Candidate {
    Candidate { version: version(raw), chosen, in_range, released }
}

#[test]
fn chooses_a_candidate_for_a_range() {
    let fresh = vec![
        candidate("1.0.0", false, true, true),
        candidate("1.1.0", false, true, true),
        candidate("1.2.0", false, true, false),
        candidate("2.0.0", false, false, true),
    ];
    assert_eq!(choose_for_range(&fresh, None), Some(1));
    assert_eq!(choose_for_range(&fresh, Some(&version("1.0.0"))), Some(0));
    assert_eq!(choose_for_range(&fresh, Some(&version("1.2.0"))), Some(1));
    assert_eq!(choose_for_range(&fresh, Some(&version("2.0.0"))), Some(1));
    let reused = vec![
        candidate("1.0.0", true, true, false),
        candidate("1.1.0", false, true, true),
        candidate("2.0.0", true, false, true),
    ];
    assert_eq!(choose_for_range(&reused, Some(&version("1.1.0"))), Some(0));
    assert_eq!(choose_for_range(&vec![candidate("1.0.0", false, true, false)], None), None);
    assert_eq!(choose_for_range(&Vec::new(), None), None);
}

#[test]
fn chooses_a_candidate_for_a_tag() {
    let candidates = vec![
        candidate("1.0.0", false, false, true),
        candidate("2.0.0-rc.1", false, false, true),
        candidate("2.0.0", false, false, false),
        candidate("3.0.0", false, false, true),
    ];
    assert_eq!(choose_for_tag(&candidates, &version("3.0.0")), Some(3));
    assert_eq!(choose_for_tag(&candidates, &version("2.0.0")), Some(0));
    assert_eq!(choose_for_tag(&candidates, &version("2.0.0-rc.1")), Some(1));
    assert_eq!(choose_for_tag(&candidates, &version("2.5.0")), None);
}

#[test]
fn keeps_releases_in_order() {
    let mut list = Vec::new();
    for raw in ["1.10.0", "1.9.0", "1.9.0-rc.1", "v1.10.0"] {
        add_release(&mut list, version(raw), raw.to_string());
    }
    let raws: Vec<&str> = list.iter().map(|(_, raw)| raw.as_str()).collect();
    assert_eq!(raws, ["1.9.0-rc.1", "1.9.0", "v1.10.0"]);
}

#[test]
fn tells_when_releases_count() {
    let cutoff = Timestamp { seconds: 100, nanos: 5 };
    let before = Timestamp { seconds: 100, nanos: 4 };
    assert!(may_have_changed(None, cutoff));
    assert!(may_have_changed(Some(cutoff), cutoff));
    assert!(!may_have_changed(Some(before), cutoff));
    assert!(was_released(false, None, cutoff));
    assert!(was_released(true, Some(before), cutoff));
    assert!(!was_released(true, Some(cutoff), cutoff));
    assert!(!was_released(true, None, cutoff));
}

#[test]
fn tells_why_a_project_does_not_do() {
    let problem = |range: &str, invalid: Option<&str>, matching: bool| {
        link_problem("ui", "@scope/ui", "packages/ui", range, invalid.map(str::to_string), matching)
    };
    assert_eq!(problem("", Some("x"), false), None);
    assert_eq!(problem("^", Some("x"), false), None);
    assert_eq!(problem("^1.0.0", None, true), None);
    assert_eq!(problem("bad", Some("x"), true).as_deref(), Some("ui: bad is not a valid range: x"));
    assert_eq!(
        problem("^2.0.0", None, false).as_deref(),
        Some("ui: the workspace package @scope/ui in packages/ui does not match ^2.0.0")
    );
}
