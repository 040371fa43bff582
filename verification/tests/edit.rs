//! Adding and removing dependencies.
use hinata::dict::Dict;
use hinata::document::{detect_indent, Document};
use hinata::edit::{add, is_tag, parse_package_arg, parse_package_args, remove, PackageArg};
use hinata::error::Error;
use hinata::json::Json;
use hinata::manifest::Group;
use hinata::registry::{cache_nothing, Packument, Registry, Release};
use hinata::time::Timestamp;

fn arg(alias: &str, name: &str, range: Option<&str>) -> PackageArg {
    PackageArg {
        alias: alias.to_string(),
        name: name.to_string(),
        range: range.map(str::to_string),
    }
}

#[test]
fn parses_package_arguments() {
    assert_eq!(
        parse_package_arg("react").unwrap(),
        arg("react", "react", None)
    );
    assert_eq!(
        parse_package_arg("react@^18").unwrap(),
        arg("react", "react", Some("^18"))
    );
    assert_eq!(
        parse_package_arg("@types/node").unwrap(),
        arg("@types/node", "@types/node", None)
    );
    assert_eq!(
        parse_package_arg("@types/node@20").unwrap(),
        arg("@types/node", "@types/node", Some("20"))
    );
    assert_eq!(
        parse_package_arg("strip@npm:strip-ansi@^6").unwrap(),
        arg("strip", "strip-ansi", Some("^6"))
    );
    assert_eq!(
        parse_package_arg("x@npm:@scope/y").unwrap(),
        arg("x", "@scope/y", None)
    );
    assert!(parse_package_arg("").is_err());
}

#[test]
fn names_invalid_packages() {
    assert_eq!(parse_package_arg("").unwrap_err().message(), "invalid package \"\"");
    assert_eq!(
        parse_package_arg("a\"@npm:").unwrap_err().message(),
        "invalid package \"a\\\"@npm:\""
    );
    assert_eq!(parse_package_arg("react@").unwrap(), arg("react", "react", None));
}

#[test]
fn tells_tags_from_ranges() {
    assert!(is_tag("latest"));
    assert!(is_tag("next"));
    assert!(!is_tag("^1.2.0"));
    assert!(!is_tag("1.2.3"));
    assert!(!is_tag("*"));
}

fn value(source: &str) -> Json {
    fn convert(value: &serde_json::Value) -> Json {
        match value {
            serde_json::Value::Null => Json::Null,
            serde_json::Value::Bool(value) => Json::Bool(*value),
            serde_json::Value::Number(number) => Json::Number(number.to_string()),
            serde_json::Value::String(text) => Json::String(text.clone()),
            serde_json::Value::Array(items) => Json::Array(items.iter().map(convert).collect()),
            serde_json::Value::Object(members) => Json::Object(
                members.iter().map(|(key, value)| (key.clone(), convert(value))).collect(),
            ),
        }
    }
    convert(&serde_json::from_str(source).unwrap())
}

fn document(source: &str) -> Document {
    Document::open("package.json", source, value(source)).ok().unwrap()
}

const SOURCE: &str = "{\n    \"name\": \"app\",\n    \"dependencies\": {\n        \"zod\": \"^3\",\n        \"left-pad\": \"^1\"\n    },\n    \"scripts\": {}\n}\n";

#[test]
fn edits_dependencies_preserving_layout() {
    let mut document = document(SOURCE);
    document.set_dependency(Group::Dev, "left-pad", "^1.3.0");
    document.set_dependency(Group::Prod, "axios", "^1.7.0");
    assert!(document.remove_dependency("zod"));
    assert!(!document.remove_dependency("missing"));

    assert_eq!(document.indent(), "    ");
    assert_eq!(
        Json::Object(document.members().iter().map(|(key, value)| (key.clone(), copy(value))).collect()),
        value(
            "{\n    \"name\": \"app\",\n    \"dependencies\": {\n        \"axios\": \"^1.7.0\"\n    },\n    \"scripts\": {},\n    \"devDependencies\": {\n        \"left-pad\": \"^1.3.0\"\n    }\n}\n"
        )
    );

    assert!(document.original().contains("zod"));
    assert_eq!(document.path(), "package.json");
}

fn copy(value: &Json) -> Json {
    hinata::dict::Duplicate::duplicate(value)
}

#[test]
fn sorts_the_group_that_is_edited() {
    let mut document = document(r#"{ "dependencies": { "b": "1", "c": "1", "a": "1" } }"#);
    document.set_dependency(Group::Prod, "b", "2");
    assert_eq!(
        document.members()[0].1,
        value(r#"{ "a": "1", "b": "2", "c": "1" }"#)
    );
    document.set_dependency(Group::Optional, "b", "3");
    assert_eq!(document.members()[0].1, value(r#"{ "a": "1", "c": "1" }"#));
    assert_eq!(document.members()[1].1, value(r#"{ "b": "3" }"#));
}

#[test]
fn replaces_a_group_that_is_no_object() {
    let mut document = document(r#"{ "dependencies": [1, null, true] }"#);
    document.set_dependency(Group::Prod, "a", "1");
    assert_eq!(document.members()[0].1, value(r#"{ "a": "1" }"#));
}

#[test]
fn opens_objects_only() {
    let error = Document::open("package.json", "[]", value("[]")).err().unwrap();
    assert_eq!(error.message(), "package.json is not a JSON object");
}

#[test]
fn detects_indents() {
    assert_eq!(detect_indent("{\n\t\"a\": 1\n}\n"), "\t");
    assert_eq!(detect_indent("{\r\n   \"a\": 1\r\n}\r\n"), "   ");
    assert_eq!(detect_indent("{}"), "  ");
    assert_eq!(detect_indent("\r\n"), "  ");
}

struct Tagged;

impl Registry for Tagged {
    fn fetch(&self, names: &Vec<String>) -> Result<Vec<Packument>, Error> {
        assert_eq!(names, &["react", "strip-ansi"]);
        Ok(names
            .iter()
            .map(|_| {
                let mut dist_tags = Dict::new();
                dist_tags.insert("latest".to_string(), "18.3.1".to_string());
                dist_tags.insert("next".to_string(), "19.0.0-rc.1".to_string());
                dist_tags.insert("gone".to_string(), "20.0.0".to_string());
                let mut versions = Dict::new();
                for version in ["18.3.1", "19.0.0-rc.1"] {
                    let release = Release {
                        manifest: None,
                        problem: String::new(),
                        install_script: false,
                    };
                    versions.insert(version.to_string(), release);
                }
                Packument { dist_tags, versions, modified: None, time: Dict::new() }
            })
            .collect())
    }

    fn cached(&self, names: &Vec<String>) -> Vec<Option<Packument>> {
        cache_nothing(names)
    }
}

fn args(args: &[&str]) -> Vec<PackageArg> {
    let args: Vec<String> = args.iter().map(|arg| (*arg).to_string()).collect();
    parse_package_args(&args).unwrap()
}

#[test]
fn adds_what_tags_stand_for() {
    let mut document = document("{}");
    let args = args(&["react", "zod@^3", "strip@npm:strip-ansi@next"]);
    let added = add(&mut document, &args, Group::Prod, false, &Tagged, None).unwrap();
    assert_eq!(
        added,
        [
            ("react".to_string(), "^18.3.1".to_string()),
            ("zod".to_string(), "^3".to_string()),
            ("strip".to_string(), "npm:strip-ansi@^19.0.0-rc.1".to_string()),
        ]
    );
    assert_eq!(
        document.members()[0].1,
        value(r#"{ "react": "^18.3.1", "strip": "npm:strip-ansi@^19.0.0-rc.1", "zod": "^3" }"#)
    );

    let added = add(&mut document, &args, Group::Dev, true, &Tagged, None).unwrap();
    assert_eq!(added[0].1, "18.3.1");
}

#[test]
fn fails_for_tags_that_are_missing() {
    let mut document = document("{}");
    let args = args(&["react@canary", "strip-ansi"]);
    let error = add(&mut document, &args, Group::Prod, false, &Tagged, None).unwrap_err();
    assert_eq!(error.message(), "react has no version tagged canary");
}

#[test]
fn adds_what_a_tag_says_unless_a_release_age_is_set() {
    let mut document = document("{}");
    let args = args(&["react@gone", "strip-ansi"]);
    let added = add(&mut document, &args, Group::Prod, false, &Tagged, None).unwrap();
    assert_eq!(added[0], ("react".to_string(), "^20.0.0".to_string()));

    let cutoff = Some(Timestamp { seconds: 0, nanos: 0 });
    let error = add(&mut document, &args, Group::Prod, false, &Tagged, cutoff).unwrap_err();
    assert_eq!(
        error.message(),
        "every version of react up to gone was published too recently for hinata.minimumReleaseAge"
    );
}

#[test]
fn removes_dependencies_only() {
    let mut document = document(SOURCE);
    assert!(remove(&mut document, &vec!["zod".to_string()]).is_ok());
    let error = remove(&mut document, &vec!["zod".to_string()]).unwrap_err();
    assert_eq!(error.message(), "zod is not a dependency in package.json");
}
