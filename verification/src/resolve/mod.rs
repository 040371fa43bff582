//! Versions are chosen breadth-first, reusing an already chosen version wherever it satisfies a
//! range. Peers are then resolved from ancestors, and a package gets one instance per distinct set
//! of resolved peers.
use vstd::prelude::*;
use vstd::string::*;

use crate::dict::{sorted, Dict, Duplicate};
use crate::error::Error;
use crate::lock::{
    cycles, find_cycles, Importer, ImporterView, Lock, LockView, PackageView, Specifiers, SpecifiersView, VERSION,
};
use crate::registry::Registry;
use crate::resolve::chooser::{first_state, Answer, Chooser, GroupsView};
use crate::resolve::overrides::{configured, unused_keys, Overrides};
use crate::resolve::peers::{build_packages, built_packages};
use crate::text::{
    cat, cat3, cat4, cat5, contains, cut_at_first, cuts_give_parts, find, head, is_space, join, joined,
    joined_is_parted, only_space_is_trimmed, pieces, pieces_make_up_text, same, split, strip_prefix, tail, trim, trimmed,
    without_prefix, Text,
};
use crate::time::{cutoff_from, now, release_cutoff_at, Timestamp};
use crate::version::{check_range, in_range, parsed_version, range_fault, satisfies, Version};

pub mod choices;
pub mod chooser;
pub mod closures;
pub mod outcome;
pub mod overrides;
pub mod peers;
pub mod pick;
pub mod references;

verus! {

/// `name@version`, where `name` may be scoped.
pub open spec fn cut_version(spec: Text) -> Option<(Text, Text)> {
    if spec.len() == 0 || spec[0] as u32 >= 0x80 {
        None
    } else {
        match cut_at_first(spec.skip(1), '@') {
            Some((name, version)) => Some((spec.take(1) + name, version)),
            None => None,
        }
    }
}

/// A name and a version are told apart at the `@` between them, whether or not the name is scoped. A
/// name alone has no version.
pub proof fn versions_are_split(name: Text, version: Text)
    requires
        name.len() > 0,
        (name[0] as u32) < 0x80,
        !name.skip(1).contains('@'),
    ensures
        cut_version(name + "@"@ + version) == Some((name, version)),
        cut_version(name) is None,
{
    reveal_strlit("@");
    let spec = name + "@"@ + version;
    cuts_give_parts(name.skip(1), version, '@');
    assert(spec.skip(1) =~= name.skip(1) + seq!['@'] + version);
    assert(spec.take(1) + name.skip(1) =~= name);
}

/// Splits `name@version`, where `name` may be scoped.
pub fn split_version(spec: &str) -> (result: Option<(&str, &str)>)
    ensures
        result.deep_view() == cut_version(spec@),
{
    if spec.unicode_len() == 0 || spec.get_char(0) as u32 >= 0x80 {
        return None;
    }
    let rest = tail(spec, 1);
    match find(rest, '@') {
        Some(at) => {
            let n: usize = spec.unicode_len();
            assert(rest@.len() == n - 1);
            assert(spec@.take(at + 1) =~= spec@.take(1) + rest@.take(at as int));
            assert(spec@.skip(at + 2) =~= rest@.skip(at + 1));
            Some((head(spec, at + 1), tail(spec, at + 2)))
        },
        None => None,
    }
}

/// The package and the range that `spec` asks for under the name `alias`.
pub open spec fn spec_target(alias: Text, spec: Text) -> (Text, Text) {
    let (name, range) = match without_prefix(spec, "npm:"@) {
        Some(target) => match cut_version(target) {
            Some(parts) => parts,
            None => (target, Seq::empty()),
        },
        None => (alias, spec),
    };
    (name, trimmed(range))
}

/// What `spec` asks for under the name `alias`, or what is wrong with it.
pub open spec fn parsed_spec(alias: Text, spec: Text) -> Result<(Text, Text), Text> {
    let (name, range) = spec_target(alias, spec);
    if range.contains(':') || range.contains('/') {
        Err(alias + ": "@ + spec + " is not supported yet; only registry versions, ranges and tags are"@)
    } else if range.len() == 0 {
        Ok((name, "*"@))
    } else {
        Ok((name, range))
    }
}

/// Reads what a dependency asks for: a version, a range or a tag, or an alias of another package.
pub fn parse_spec(alias: &str, spec: &str) -> (result: Result<(String, String), Error>)
    ensures
        match result {
            Ok((name, range)) => parsed_spec(alias@, spec@) == Ok::<(Text, Text), Text>((name@, range@)),
            Err(error) => error@.len() == 1 && parsed_spec(alias@, spec@) == Err::<(Text, Text), Text>(error@[0]),
        },
{
    let (name, range) = match strip_prefix(spec, "npm:") {
        Some(target) => match split_version(target) {
            Some(parts) => parts,
            None => (target, ""),
        },
        None => (alias, spec),
    };
    proof {
        reveal_strlit("");
        assert(""@ =~= Seq::<char>::empty());
    }
    let range = trim(range);
    if contains(range, ':') || contains(range, '/') {
        return Err(
            Error::new(
                cat4(alias, ": ", spec, " is not supported yet; only registry versions, ranges and tags are"),
            ),
        );
    }
    if range.is_empty() {
        Ok((name.to_owned(), "*".to_owned()))
    } else {
        Ok((name.to_owned(), range.to_owned()))
    }
}

/// What marks a dependency on another project of the workspace.
pub const WORKSPACE: &'static str = "workspace:";

/// The time that newly chosen versions must have been published before, if any.
pub fn release_cutoff(minutes: u64) -> (result: Option<Timestamp>)
    ensures
        exists|now: Timestamp| now.is_regular() && result == #[trigger] cutoff_from(now, minutes),
{
    release_cutoff_at(now(), minutes)
}

/// One project of the workspace.
#[derive(Debug, PartialEq, Eq)]
pub struct Project {
    pub name: Option<String>,
    pub version: Option<String>,
    pub specifiers: Specifiers,
}

/// What a `Project` means.
#[verifier::ext_equal]
pub struct ProjectView {
    pub name: Option<Text>,
    pub version: Option<Text>,
    pub specifiers: SpecifiersView,
}

impl View for Project {
    type V = ProjectView;

    open spec fn view(&self) -> ProjectView {
        ProjectView {
            name: self.name.deep_view(),
            version: self.version.deep_view(),
            specifiers: self.specifiers.deep_view(),
        }
    }
}

impl DeepView for Project {
    type V = ProjectView;

    open spec fn deep_view(&self) -> ProjectView {
        self@
    }
}

impl Duplicate for Project {
    fn duplicate(&self) -> (result: Self) {
        Project {
            name: self.name.duplicate(),
            version: self.version.duplicate(),
            specifiers: self.specifiers.duplicate(),
        }
    }
}

/// The parts of a path between its slashes.
pub open spec fn path_parts(path: Text) -> Seq<Text> {
    pieces(path, '/').filter(|part: Text| part.len() > 0 && part != "."@)
}

/// How many parts `a` and `b` begin with in common.
pub open spec fn common_parts(a: Seq<Text>, b: Seq<Text>) -> nat
    decreases a.len(),
{
    if a.len() > 0 && b.len() > 0 && a[0] == b[0] {
        1 + common_parts(a.skip(1), b.skip(1))
    } else {
        0
    }
}

/// The parts of the way from `from` to `to`: up to where they part, then down.
pub open spec fn way(from: Seq<Text>, to: Seq<Text>) -> Seq<Text> {
    let common = common_parts(from, to);
    Seq::new((from.len() - common) as nat, |i: int| ".."@) + to.skip(common as int)
}

/// The path of `to` relative to `from`.
pub open spec fn relative(from: Text, to: Text) -> Text {
    let parts = way(path_parts(from), path_parts(to));
    if parts.len() == 0 {
        "."@
    } else {
        joined(parts, "/"@)
    }
}

/// The parts of a path between its slashes.
pub(crate) fn components(path: &str) -> (result: Vec<String>)
    ensures
        result.deep_view() == path_parts(path@),
{
    let parts = split(path, '/');
    let ghost all = parts.deep_view();
    let ghost keep = |part: Text| part.len() > 0 && part != "."@;
    let mut result: Vec<String> = Vec::new();
    let mut i: usize = 0;
    proof {
        reveal(Seq::filter);
        assert(result.deep_view() =~= all.take(0).filter(keep));
    }
    while i < parts.len()
        invariant
            i <= parts.len(),
            all == parts.deep_view(),
            keep == (|part: Text| part.len() > 0 && part != "."@),
            result.deep_view() == all.take(i as int).filter(keep),
        decreases parts.len() - i,
    {
        proof {
            reveal(Seq::filter);
            assert(all.take(i + 1).drop_last() =~= all.take(i as int));
            assert(all[i as int] == parts@[i as int]@);
        }
        if !parts[i].as_str().is_empty() && !same(parts[i].as_str(), ".") {
            let ghost before = result.deep_view();
            result.push(parts[i].clone());
            assert(result.deep_view() =~= before.push(all[i as int]));
        }
        i += 1;
    }
    assert(all.take(i as int) =~= all);
    result
}

proof fn common_parts_bound(a: Seq<Text>, b: Seq<Text>)
    ensures
        common_parts(a, b) <= a.len(),
        common_parts(a, b) <= b.len(),
        a.take(common_parts(a, b) as int) == b.take(common_parts(a, b) as int),
    decreases a.len(),
{
    let n = common_parts(a, b) as int;
    if a.len() > 0 && b.len() > 0 && a[0] == b[0] {
        common_parts_bound(a.skip(1), b.skip(1));
        assert(a.take(n) =~= seq![a[0]] + a.skip(1).take(n - 1));
        assert(b.take(n) =~= seq![b[0]] + b.skip(1).take(n - 1));
    } else {
        assert(a.take(n) =~= b.take(n));
    }
}

/// Where a way leads: up one part for each `..`, and down for any other.
pub open spec fn follow(from: Seq<Text>, parts: Seq<Text>) -> Seq<Text>
    decreases parts.len(),
{
    if parts.len() == 0 {
        from
    } else if parts[0] == ".."@ {
        follow(
            if from.len() > 0 {
                from.drop_last()
            } else {
                from
            },
            parts.skip(1),
        )
    } else {
        follow(from.push(parts[0]), parts.skip(1))
    }
}

proof fn follow_up(from: Seq<Text>, up: nat, down: Seq<Text>)
    requires
        up <= from.len(),
    ensures
        follow(from, Seq::new(up, |i: int| ".."@) + down) == follow(from.take(from.len() - up), down),
    decreases up,
{
    let ups = Seq::new(up, |i: int| ".."@);
    if up == 0 {
        assert(ups + down =~= down);
        assert(from.take(from.len() as int) =~= from);
    } else {
        let fewer = (up - 1) as nat;
        assert((ups + down).skip(1) =~= Seq::new(fewer, |i: int| ".."@) + down);
        follow_up(from.drop_last(), fewer, down);
        assert(from.drop_last().take(from.len() - 1 - fewer) =~= from.take(from.len() - up));
    }
}

proof fn follow_down(from: Seq<Text>, down: Seq<Text>)
    requires
        forall|i: int| 0 <= i < down.len() ==> #[trigger] down[i] != ".."@,
    ensures
        follow(from, down) == from + down,
    decreases down.len(),
{
    if down.len() > 0 {
        assert forall|i: int| 0 <= i < down.skip(1).len() implies #[trigger] down.skip(1)[i] != ".."@ by {
            assert(down[i + 1] != ".."@);
        }
        follow_down(from.push(down[0]), down.skip(1));
        assert(from.push(down[0]) + down.skip(1) =~= from + down);
    } else {
        assert(from + down =~= from);
    }
}

/// The way from one path to another leads there, whichever they are, as long as the other one does
/// not itself go up.
pub proof fn way_leads_there(from: Seq<Text>, to: Seq<Text>)
    requires
        forall|i: int| 0 <= i < to.len() ==> #[trigger] to[i] != ".."@,
    ensures
        follow(from, way(from, to)) == to,
{
    let common = common_parts(from, to);
    common_parts_bound(from, to);
    follow_up(from, (from.len() - common) as nat, to.skip(common as int));
    assert forall|i: int| 0 <= i < to.skip(common as int).len() implies #[trigger] to.skip(common as int)[i] != ".."@ by {
        assert(to[i + common] != ".."@);
    }
    follow_down(from.take(common as int), to.skip(common as int));
    assert(from.take(common as int) + to.skip(common as int) =~= to);
}

/// The path of `to` relative to `from`.
pub fn relative_path(from: &str, to: &str) -> (result: String)
    ensures
        result@ == relative(from@, to@),
{
    let from = components(from);
    let to = components(to);
    let ghost a = from.deep_view();
    let ghost b = to.deep_view();
    let mut common: usize = 0;
    assert(a.skip(0) =~= a && b.skip(0) =~= b);
    while common < from.len() && common < to.len() && same(from[common].as_str(), to[common].as_str())
        invariant
            common <= from.len(),
            common <= to.len(),
            a == from.deep_view(),
            b == to.deep_view(),
            common_parts(a, b) == common + common_parts(a.skip(common as int), b.skip(common as int)),
        decreases from.len() - common,
    {
        assert(a.skip(common as int).skip(1) =~= a.skip(common + 1));
        assert(b.skip(common as int).skip(1) =~= b.skip(common + 1));
        common += 1;
    }
    assert(common_parts(a, b) == common);
    let mut parts: Vec<String> = Vec::new();
    let mut i: usize = common;
    while i < from.len()
        invariant
            common <= i <= from.len(),
            parts@.len() == i - common,
            forall|k: int| 0 <= k < parts@.len() ==> (#[trigger] parts@[k])@ == ".."@,
        decreases from.len() - i,
    {
        parts.push("..".to_owned());
        i += 1;
    }
    let ghost ups = parts.deep_view();
    let mut j: usize = common;
    assert(parts.deep_view() =~= ups + b.subrange(common as int, j as int));
    while j < to.len()
        invariant
            common <= j <= to.len(),
            b == to.deep_view(),
            parts.deep_view() == ups + b.subrange(common as int, j as int),
        decreases to.len() - j,
    {
        let ghost before = parts.deep_view();
        parts.push(to[j].clone());
        assert(parts.deep_view() =~= before.push(b[j as int]));
        j += 1;
        assert(parts.deep_view() =~= ups + b.subrange(common as int, j as int));
    }
    assert(b.subrange(common as int, j as int) =~= b.skip(common as int));
    assert(ups =~= Seq::new((a.len() - common) as nat, |i: int| ".."@));
    assert(parts.deep_view() =~= way(a, b));
    if parts.len() == 0 {
        ".".to_owned()
    } else {
        join(&parts, "/")
    }
}

/// The projects at `paths` by their names, beside those in `known`.
pub open spec fn named_projects(
    paths: Seq<Text>,
    projects: Map<Text, ProjectView>,
    known: Map<Text, Text>,
) -> Result<Map<Text, Text>, Seq<Text>>
    decreases paths.len(),
{
    if paths.len() == 0 {
        Ok(known)
    } else {
        match projects[paths[0]].name {
            None => named_projects(paths.skip(1), projects, known),
            Some(name) => if known.contains_key(name) {
                Err(seq![known[name] + " and "@ + paths[0] + " are both named "@ + name])
            } else {
                named_projects(paths.skip(1), projects, known.insert(name, paths[0]))
            },
        }
    }
}

/// The paths of the projects by their names, of which no two may be the same.
fn workspace_names(projects: &Dict<Project>) -> (result: Result<Dict<String>, Error>)
    ensures
        match result {
            Ok(known) => named_projects(sorted(projects@.dom()), projects@, Map::empty()) == Ok::<
                Map<Text, Text>,
                Seq<Text>,
            >(known@),
            Err(error) => named_projects(sorted(projects@.dom()), projects@, Map::empty()) == Err::<
                Map<Text, Text>,
                Seq<Text>,
            >(error@),
        },
        result matches Ok(known) ==> forall|name: Text| #[trigger]
            known@.contains_key(name) ==> projects@.contains_key(known@[name]),
{
    let mut known: Dict<String> = Dict::new();
    let n: usize = projects.len();
    let ghost paths = sorted(projects@.dom());
    let ghost none = Map::<Text, Text>::empty();
    let mut i: usize = 0;
    assert(paths.skip(0) =~= paths);
    while i < n
        invariant
            i <= n,
            n == paths.len(),
            paths == sorted(projects@.dom()),
            none == Map::<Text, Text>::empty(),
            named_projects(paths, projects@, none) == named_projects(paths.skip(i as int), projects@, known@),
            forall|name: Text| #[trigger] known@.contains_key(name) ==> projects@.contains_key(known@[name]),
        decreases n - i,
    {
        let path = projects.key(i);
        assert(paths.skip(i as int).skip(1) =~= paths.skip(i + 1));
        if let Some(name) = &projects.value(i).name {
            if let Some(other) = known.get(name.as_str()) {
                return Err(
                    Error::new(cat5(other.as_str(), " and ", path.as_str(), " are both named ", name.as_str())),
                );
            }
            known.insert(name.clone(), path.clone());
        }
        i += 1;
    }
    Ok(known)
}

/// A range that every version is in.
pub open spec fn is_any_range(range: Text) -> bool {
    range == ""@ || range == "*"@ || range == "^"@ || range == "~"@
}

/// Why a project `name` in `to` does not do for the dependency `alias`, which asks for `range`: the
/// range is `invalid`, or the version is not `matching`.
pub open spec fn link_fault(
    alias: Text,
    name: Text,
    to: Text,
    range: Text,
    invalid: Option<Text>,
    matching: bool,
) -> Option<Text> {
    if is_any_range(range) {
        None
    } else if let Some(problem) = invalid {
        Some(alias + ": "@ + range + " is not a valid range: "@ + problem)
    } else if matching {
        None
    } else {
        Some(alias + ": the workspace package "@ + (name + " in "@ + to + " does not match "@ + range))
    }
}

/// Where the dependency `alias` of the project at `from` on a project of the workspace leads.
pub open spec fn linked_path(
    known: Map<Text, Text>,
    projects: Map<Text, ProjectView>,
    from: Text,
    alias: Text,
    spec: Text,
) -> Result<Text, Text> {
    let (name, range) = match cut_version(spec) {
        Some(parts) => parts,
        None => (alias, spec),
    };
    let to = known[name];
    let version = match projects[to].version {
        Some(raw) => parsed_version(raw),
        None => None,
    };
    if !known.contains_key(name) {
        Err(alias + ": no workspace package is named "@ + name)
    } else if let Some(problem) = link_fault(
        alias,
        name,
        to,
        range,
        range_fault(range),
        version is Some && in_range(range, version->0),
    ) {
        Err(problem)
    } else {
        Ok(relative(from, to))
    }
}

/// Why a project `name` in `to` does not do for the dependency `alias`, which asks for `range`: the
/// range is `invalid`, or the version is not `matching`.
pub fn link_problem(alias: &str, name: &str, to: &str, range: &str, invalid: Option<String>, matching: bool) -> (result:
    Option<String>)
    ensures
        result.deep_view() == link_fault(alias@, name@, to@, range@, invalid.deep_view(), matching),
{
    if same(range, "") || same(range, "*") || same(range, "^") || same(range, "~") {
        return None;
    }
    if let Some(problem) = invalid {
        return Some(cat5(alias, ": ", range, " is not a valid range: ", problem.as_str()));
    }
    if matching {
        return None;
    }
    Some(
        cat3(
            alias,
            ": the workspace package ",
            cat5(name, " in ", to, " does not match ", range).as_str(),
        ),
    )
}

fn workspace_link(
    known: &Dict<String>,
    projects: &Dict<Project>,
    from: &str,
    alias: &str,
    spec: &str,
) -> (result: Result<String, String>)
    requires
        forall|name: Text| #[trigger] known@.contains_key(name) ==> projects@.contains_key(known@[name]),
    ensures
        match result {
            Ok(path) => linked_path(known@, projects@, from@, alias@, spec@) == Ok::<Text, Text>(path@),
            Err(problem) => linked_path(known@, projects@, from@, alias@, spec@) == Err::<Text, Text>(problem@),
        },
{
    let (name, range) = match split_version(spec) {
        Some(parts) => parts,
        None => (alias, spec),
    };
    let to = match known.get(name) {
        Some(to) => to,
        None => {
            return Err(cat3(alias, ": no workspace package is named ", name));
        },
    };
    let project = projects.get(to.as_str()).unwrap();
    let matching = match &project.version {
        Some(raw) => match Version::parse(raw.as_str()) {
            Some(version) => satisfies(range, &version),
            None => false,
        },
        None => false,
    };
    if let Some(problem) = link_problem(alias, name, to.as_str(), range, check_range(range), matching) {
        return Err(problem);
    }
    Ok(relative_path(from, to.as_str()))
}

/// The dependencies `aliases` parted into those that come from the registry and those that are
/// linked, beside those parted before.
pub open spec fn parted(
    known: Map<Text, Text>,
    projects: Map<Text, ProjectView>,
    from: Text,
    deps: Map<Text, Text>,
    aliases: Seq<Text>,
    registry: Map<Text, Text>,
    links: Map<Text, Text>,
) -> Result<(Map<Text, Text>, Map<Text, Text>), Text>
    decreases aliases.len(),
{
    if aliases.len() == 0 {
        Ok((registry, links))
    } else {
        let alias = aliases[0];
        match without_prefix(deps[alias], "workspace:"@) {
            Some(spec) => match linked_path(known, projects, from, alias, spec) {
                Ok(path) => parted(
                    known,
                    projects,
                    from,
                    deps,
                    aliases.skip(1),
                    registry,
                    links.insert(alias, path),
                ),
                Err(problem) => Err(problem),
            },
            None => parted(
                known,
                projects,
                from,
                deps,
                aliases.skip(1),
                registry.insert(alias, deps[alias]),
                links,
            ),
        }
    }
}

fn part_group(
    known: &Dict<String>,
    projects: &Dict<Project>,
    from: &str,
    deps: &Dict<String>,
    links: &mut Dict<String>,
) -> (result: Result<Dict<String>, String>)
    requires
        forall|name: Text| #[trigger] known@.contains_key(name) ==> projects@.contains_key(known@[name]),
    ensures
        ({
            let outcome = parted(
                known@,
                projects@,
                from@,
                deps@,
                sorted(deps@.dom()),
                Map::empty(),
                old(links)@,
            );
            match result {
                Ok(registry) => outcome == Ok::<(Map<Text, Text>, Map<Text, Text>), Text>(
                    (registry@, final(links)@),
                ),
                Err(problem) => outcome == Err::<(Map<Text, Text>, Map<Text, Text>), Text>(problem@),
            }
        }),
{
    let mut registry: Dict<String> = Dict::new();
    let ghost first = links@;
    let ghost none = Map::<Text, Text>::empty();
    let n: usize = deps.len();
    let ghost aliases = sorted(deps@.dom());
    let mut i: usize = 0;
    assert(aliases.skip(0) =~= aliases);
    while i < n
        invariant
            i <= n,
            n == aliases.len(),
            aliases == sorted(deps@.dom()),
            none == Map::<Text, Text>::empty(),
            first == old(links)@,
            forall|name: Text| #[trigger] known@.contains_key(name) ==> projects@.contains_key(known@[name]),
            parted(known@, projects@, from@, deps@, aliases, none, first) == parted(
                known@,
                projects@,
                from@,
                deps@,
                aliases.skip(i as int),
                registry@,
                links@,
            ),
        decreases n - i,
    {
        let alias = deps.key(i);
        let spec = deps.value(i);
        assert(aliases.skip(i as int).skip(1) =~= aliases.skip(i + 1));
        assert(aliases.skip(i as int)[0] == alias@);
        match strip_prefix(spec.as_str(), "workspace:") {
            Some(spec) => match workspace_link(known, projects, from, alias.as_str(), spec) {
                Ok(path) => {
                    links.insert(alias.clone(), path);
                },
                Err(problem) => {
                    return Err(problem);
                },
            },
            None => {
                registry.insert(alias.clone(), spec.clone());
            },
        }
        i += 1;
    }
    Ok(registry)
}

/// What a project takes from the registry, and where its links to other projects lead.
pub open spec fn parted_specifiers(
    known: Map<Text, Text>,
    projects: Map<Text, ProjectView>,
    from: Text,
    specifiers: SpecifiersView,
) -> Result<(SpecifiersView, Map<Text, Text>), Text> {
    let (a, b, c) = (specifiers.dependencies, specifiers.dev_dependencies, specifiers.optional_dependencies);
    match parted(known, projects, from, a, sorted(a.dom()), Map::empty(), Map::empty()) {
        Err(problem) => Err(problem),
        Ok((dependencies, links)) => match parted(known, projects, from, b, sorted(b.dom()), Map::empty(), links) {
            Err(problem) => Err(problem),
            Ok((dev_dependencies, links)) => match parted(
                known,
                projects,
                from,
                c,
                sorted(c.dom()),
                Map::empty(),
                links,
            ) {
                Err(problem) => Err(problem),
                Ok((optional_dependencies, links)) => Ok(
                    (SpecifiersView { dependencies, dev_dependencies, optional_dependencies }, links),
                ),
            },
        },
    }
}

fn split_workspace_links(
    known: &Dict<String>,
    projects: &Dict<Project>,
    from: &str,
    specifiers: &Specifiers,
) -> (result: Result<(Specifiers, Dict<String>), String>)
    requires
        forall|name: Text| #[trigger] known@.contains_key(name) ==> projects@.contains_key(known@[name]),
    ensures
        match result {
            Ok((registry, links)) => parted_specifiers(known@, projects@, from@, specifiers@) == Ok::<
                (SpecifiersView, Map<Text, Text>),
                Text,
            >((registry@, links@)),
            Err(problem) => parted_specifiers(known@, projects@, from@, specifiers@) == Err::<
                (SpecifiersView, Map<Text, Text>),
                Text,
            >(problem@),
        },
{
    let mut links: Dict<String> = Dict::new();
    let dependencies = part_group(known, projects, from, &specifiers.dependencies, &mut links)?;
    let dev_dependencies = part_group(known, projects, from, &specifiers.dev_dependencies, &mut links)?;
    let optional_dependencies = part_group(known, projects, from, &specifiers.optional_dependencies, &mut links)?;
    Ok((Specifiers { dependencies, dev_dependencies, optional_dependencies }, links))
}

/// What the projects at `paths` take from the registry, and where their links lead.
pub open spec fn parted_projects(known: Map<Text, Text>, projects: Map<Text, ProjectView>, paths: Seq<Text>) -> Result<
    (Seq<SpecifiersView>, Seq<Map<Text, Text>>),
    Seq<Text>,
>
    decreases paths.len(),
{
    if paths.len() == 0 {
        Ok((Seq::empty(), Seq::empty()))
    } else {
        match parted_projects(known, projects, paths.drop_last()) {
            Err(problem) => Err(problem),
            Ok((specifiers, links)) => match parted_specifiers(
                known,
                projects,
                paths.last(),
                projects[paths.last()].specifiers,
            ) {
                Err(problem) => Err(seq!["in "@ + paths.last(), problem]),
                Ok((more_specifiers, more_links)) => Ok((specifiers.push(more_specifiers), links.push(more_links))),
            },
        }
    }
}

/// A failure among the first projects is the failure of all.
proof fn parted_prefix_fails(known: Map<Text, Text>, projects: Map<Text, ProjectView>, paths: Seq<Text>, n: int)
    requires
        0 <= n <= paths.len(),
        parted_projects(known, projects, paths.take(n)) is Err,
    ensures
        parted_projects(known, projects, paths) == parted_projects(known, projects, paths.take(n)),
    decreases paths.len() - n,
{
    if n == paths.len() {
        assert(paths.take(n) =~= paths);
    } else {
        assert(paths.take(n + 1).drop_last() =~= paths.take(n));
        parted_prefix_fails(known, projects, paths, n + 1);
    }
}

fn part_projects(known: &Dict<String>, projects: &Dict<Project>) -> (result: Result<
    (Vec<Specifiers>, Vec<Dict<String>>),
    Error,
>)
    requires
        forall|name: Text| #[trigger] known@.contains_key(name) ==> projects@.contains_key(known@[name]),
    ensures
        match result {
            Ok((specifiers, links)) => parted_projects(known@, projects@, sorted(projects@.dom())) == Ok::<
                (Seq<SpecifiersView>, Seq<Map<Text, Text>>),
                Seq<Text>,
            >((specifiers.deep_view(), links.deep_view())) && specifiers@.len() == sorted(projects@.dom()).len()
                && links@.len() == sorted(projects@.dom()).len(),
            Err(error) => parted_projects(known@, projects@, sorted(projects@.dom())) == Err::<
                (Seq<SpecifiersView>, Seq<Map<Text, Text>>),
                Seq<Text>,
            >(error@),
        },
{
    let mut specifiers: Vec<Specifiers> = Vec::new();
    let mut links: Vec<Dict<String>> = Vec::new();
    let n: usize = projects.len();
    let ghost paths = sorted(projects@.dom());
    let mut i: usize = 0;
    assert(specifiers.deep_view() =~= Seq::<SpecifiersView>::empty());
    assert(links.deep_view() =~= Seq::<Map<Text, Text>>::empty());
    while i < n
        invariant
            i <= n,
            n == paths.len(),
            paths == sorted(projects@.dom()),
            specifiers@.len() == i,
            links@.len() == i,
            forall|name: Text| #[trigger] known@.contains_key(name) ==> projects@.contains_key(known@[name]),
            parted_projects(known@, projects@, paths.take(i as int)) == Ok::<
                (Seq<SpecifiersView>, Seq<Map<Text, Text>>),
                Seq<Text>,
            >((specifiers.deep_view(), links.deep_view())),
        decreases n - i,
    {
        let path = projects.key(i);
        let project = projects.value(i);
        let ghost had_specifiers = specifiers.deep_view();
        let ghost had_links = links.deep_view();
        assert(paths.take(i + 1).drop_last() =~= paths.take(i as int));
        match split_workspace_links(known, projects, path.as_str(), &project.specifiers) {
            Ok((more_specifiers, more_links)) => {
                specifiers.push(more_specifiers);
                links.push(more_links);
                assert(specifiers.deep_view() =~= had_specifiers.push(more_specifiers@));
                assert(links.deep_view() =~= had_links.push(more_links@));
            },
            Err(problem) => {
                let error = Error::new(problem).within(cat("in ", path.as_str()));
                proof {
                    assert(error@ =~= seq!["in "@ + path@, problem@]);
                    parted_prefix_fails(known@, projects@, paths, i + 1);
                }
                return Err(error);
            },
        }
        i += 1;
    }
    assert(paths.take(i as int) =~= paths);
    Ok((specifiers, links))
}

/// The importers that the projects at `paths` are locked as.
pub open spec fn locked_importers(
    projects: Map<Text, ProjectView>,
    paths: Seq<Text>,
    links: Seq<Map<Text, Text>>,
    ids: Seq<GroupsView>,
) -> Map<Text, ImporterView>
    decreases paths.len(),
{
    if paths.len() == 0 {
        Map::empty()
    } else {
        let i = paths.len() - 1;
        locked_importers(projects, paths.drop_last(), links, ids).insert(
            paths[i],
            ImporterView {
                dependencies: ids[i].dependencies,
                dev_dependencies: ids[i].dev_dependencies,
                optional_dependencies: ids[i].optional_dependencies,
                links: links[i],
                specifiers: projects[paths[i]].specifiers,
            },
        )
    }
}

/// The lock of packages and importers.
pub open spec fn new_lock(
    packages: Map<Text, PackageView>,
    importers: Map<Text, ImporterView>,
    overrides: Map<Text, Text>,
) -> LockView {
    LockView {
        version: VERSION,
        nixpkgs: None,
        node: None,
        overrides,
        packages,
        sccs: cycles(packages),
        importers,
    }
}

/// What the projects are resolved to, and the keys of the overrides that nothing matched, if
/// `registry` gives these `answers` and packages are nested no more than `fuel` levels deep.
pub open spec fn resolution<R: Registry>(
    projects: Map<Text, ProjectView>,
    registry: R,
    preferred: Seq<(Text, Text)>,
    cutoff: Option<Timestamp>,
    overrides: Map<Text, Text>,
    answers: Seq<Answer>,
    fuel: nat,
) -> Option<Result<(LockView, Seq<Text>), Seq<Text>>> {
    let paths = sorted(projects.dom());
    match named_projects(paths, projects, Map::empty()) {
        Err(problem) => Some(Err(problem)),
        Ok(known) => match parted_projects(known, projects, paths) {
            Err(problem) => Some(Err(problem)),
            Ok((specifiers, links)) => match configured(sorted(overrides.dom()), overrides) {
                Err(problem) => Some(Err(problem)),
                Ok(entries) => match first_state(preferred, entries).chooses(registry, specifiers, answers, cutoff) {
                    None => None,
                    Some(Err(problem)) => Some(Err(problem)),
                    Some(Ok((state, groups))) => match built_packages(state.nodes, groups, fuel) {
                        None => None,
                        Some(Err(problem)) => Some(Err(problem)),
                        Some(Ok((packages, ids))) => Some(
                            Ok(
                                (
                                    new_lock(packages, locked_importers(projects, paths, links, ids), overrides),
                                    unused_keys(state.overrides),
                                ),
                            ),
                        ),
                    },
                },
            },
        },
    }
}

/// What a failed or finished resolution means.
pub open spec fn resolution_view(result: Result<(Lock, Vec<String>), Error>) -> Result<
    (LockView, Seq<Text>),
    Seq<Text>,
> {
    match result {
        Ok((lock, unused)) => Ok((lock@, unused.deep_view())),
        Err(error) => Err(error@),
    }
}

/// Resolves the projects, and gives the keys of the overrides that nothing matched as well.
///
/// Projects are keyed by their `/`-separated path relative to the workspace root, which is `.`.
/// Versions in `preferred` are used even if published after `cutoff`.
pub fn resolve_and_report<R: Registry>(
    projects: &Dict<Project>,
    registry: &R,
    preferred: &Vec<(String, String)>,
    cutoff: Option<Timestamp>,
    overrides: &Dict<String>,
) -> (result: Result<(Lock, Vec<String>), Error>)
    ensures
        exists|answers: Seq<Answer>, fuel: nat| #[trigger]
            resolution(projects@, *registry, preferred.deep_view(), cutoff, overrides@, answers, fuel) == Some(
                resolution_view(result),
            ),
{
    let ghost no_answers = Seq::<Answer>::empty();
    let known = match workspace_names(projects) {
        Ok(known) => known,
        Err(error) => {
            assert(resolution(projects@, *registry, preferred.deep_view(), cutoff, overrides@, no_answers, 0) == Some(
                Err::<(LockView, Seq<Text>), Seq<Text>>(error@),
            ));
            return Err(error);
        },
    };
    let (specifiers, links) = match part_projects(&known, projects) {
        Ok(parts) => parts,
        Err(error) => {
            assert(resolution(projects@, *registry, preferred.deep_view(), cutoff, overrides@, no_answers, 0) == Some(
                Err::<(LockView, Seq<Text>), Seq<Text>>(error@),
            ));
            return Err(error);
        },
    };
    let entries = match Overrides::new(overrides) {
        Ok(entries) => entries,
        Err(error) => {
            assert(resolution(projects@, *registry, preferred.deep_view(), cutoff, overrides@, no_answers, 0) == Some(
                Err::<(LockView, Seq<Text>), Seq<Text>>(error@),
            ));
            return Err(error);
        },
    };
    let mut chooser = Chooser::new(registry, preferred, cutoff, entries);
    let ghost first = chooser.state();
    let chosen = chooser.choose_all(&specifiers);
    let ghost answers = choose|answers: Seq<Answer>| #[trigger]
        first.chooses(*registry, specifiers.deep_view(), answers, cutoff) == Some(
            chooser::outcome_view(chosen, chooser.state()),
        );
    let groups = match chosen {
        Ok(groups) => groups,
        Err(error) => {
            assert(resolution(projects@, *registry, preferred.deep_view(), cutoff, overrides@, answers, 0) == Some(
                Err::<(LockView, Seq<Text>), Seq<Text>>(error@),
            ));
            return Err(error);
        },
    };
    let built = build_packages(&chooser.nodes, &groups);
    let ghost fuel = choose|fuel: nat| #[trigger]
        built_packages(chooser.nodes@, groups.deep_view(), fuel) == Some(peers::packages_view(built));
    let (packages, ids) = match built {
        Ok(parts) => parts,
        Err(error) => {
            assert(resolution(projects@, *registry, preferred.deep_view(), cutoff, overrides@, answers, fuel) == Some(
                Err::<(LockView, Seq<Text>), Seq<Text>>(error@),
            ));
            return Err(error);
        },
    };
    let unused = chooser.overrides.unused();
    let mut importers: Dict<Importer> = Dict::new();
    let n: usize = projects.len();
    let ghost paths = sorted(projects@.dom());
    let mut i: usize = 0;
    while i < n
        invariant
            i <= n,
            n == paths.len(),
            paths == sorted(projects@.dom()),
            ids@.len() == n,
            links@.len() == n,
            importers@ == locked_importers(projects@, paths.take(i as int), links.deep_view(), ids.deep_view()),
        decreases n - i,
    {
        let project = projects.value(i);
        let importer = Importer {
            dependencies: ids[i].dependencies.duplicate(),
            dev_dependencies: ids[i].dev_dependencies.duplicate(),
            optional_dependencies: ids[i].optional_dependencies.duplicate(),
            links: links[i].duplicate(),
            specifiers: project.specifiers.duplicate(),
        };
        proof {
            assert(paths.take(i + 1).drop_last() =~= paths.take(i as int));
            assert(ids.deep_view()[i as int] == ids@[i as int]@);
            assert(links.deep_view()[i as int] == links@[i as int]@);
        }
        importers.insert(projects.key(i).clone(), importer);
        i += 1;
    }
    assert(paths.take(i as int) =~= paths);
    let lock = Lock {
        version: VERSION,
        nixpkgs: None,
        node: None,
        overrides: overrides.duplicate(),
        sccs: find_cycles(&packages),
        packages,
        importers,
    };
    proof {
        assert(lock@ =~= new_lock(packages@, importers@, overrides@));
        assert(resolution(projects@, *registry, preferred.deep_view(), cutoff, overrides@, answers, fuel) == Some(
            Ok::<(LockView, Seq<Text>), Seq<Text>>((lock@, unused.deep_view())),
        ));
    }
    Ok((lock, unused))
}

/// Projects are keyed by their `/`-separated path relative to the workspace root, which is `.`.
/// Versions in `preferred` are used even if published after `cutoff`.
pub fn resolve<R: Registry>(
    projects: &Dict<Project>,
    registry: &R,
    preferred: &Vec<(String, String)>,
    cutoff: Option<Timestamp>,
    overrides: &Dict<String>,
) -> (result: Result<Lock, Error>)
    ensures
        exists|answers: Seq<Answer>, fuel: nat|
            match (
                #[trigger] resolution(
                    projects@,
                    *registry,
                    preferred.deep_view(),
                    cutoff,
                    overrides@,
                    answers,
                    fuel,
                ),
                result,
            ) {
                (Some(Ok((lock, _))), Ok(made)) => made@ == lock,
                (Some(Err(problem)), Err(error)) => error@ == problem,
                _ => false,
            },
{
    match resolve_and_report(projects, registry, preferred, cutoff, overrides) {
        Ok((lock, _)) => Ok(lock),
        Err(error) => Err(error),
    }
}

/// A dependency asks for the range that is written, of the package that it is named after, or of the one
/// that is named after `npm:`. Without a range any version does. Nothing else is understood.
pub proof fn specs_are_read(alias: Text, name: Text, range: Text)
    requires
        range.len() > 0,
        !is_space(range[0]),
        !is_space(range.last()),
        name.len() > 0,
        (name[0] as u32) < 0x80,
        !name.skip(1).contains('@'),
    ensures
        !range.contains(':') && !range.contains('/') ==> {
            &&& parsed_spec(alias, range) == Ok::<(Text, Text), Text>((alias, range))
            &&& parsed_spec(alias, "npm:"@ + (name + "@"@ + range)) == Ok::<(Text, Text), Text>((name, range))
        },
        parsed_spec(alias, "npm:"@ + name) == Ok::<(Text, Text), Text>((name, "*"@)),
        parsed_spec(alias, Seq::empty()) == Ok::<(Text, Text), Text>((alias, "*"@)),
        (range.contains(':') || range.contains('/')) && !"npm:"@.is_prefix_of(range) ==> parsed_spec(alias, range) is Err,
        range.contains(':') || range.contains('/') ==> parsed_spec(alias, "npm:"@ + (name + "@"@ + range)) is Err,
{
    reveal_strlit("npm:");
    only_space_is_trimmed(range);
    let none = Seq::<char>::empty();
    assert(trimmed(none) =~= none);
    assert(!none.contains(':') && !none.contains('/'));
    let full = name + "@"@ + range;
    versions_are_split(name, range);
    assert(("npm:"@ + full).subrange(0, 4) =~= "npm:"@);
    assert(("npm:"@ + full).skip(4) =~= full);
    assert(("npm:"@ + name).subrange(0, 4) =~= "npm:"@);
    assert(("npm:"@ + name).skip(4) =~= name);
    if "npm:"@.is_prefix_of(range) {
        assert(range.subrange(0, 4)[3] == range[3]);
        assert(range.contains(':'));
    }
}

/// The parts of a path hold no slash and are not empty, and none is a dot.
proof fn parts_are_plain(path: Text)
    ensures
        forall|i: int|
            0 <= i < path_parts(path).len() ==> {
                let part = #[trigger] path_parts(path)[i];
                !part.contains('/') && part.len() > 0 && part != "."@
            },
{
    let keep = |part: Text| part.len() > 0 && part != "."@;
    let all = pieces(path, '/');
    pieces_make_up_text(path, '/');
    assert forall|i: int| 0 <= i < path_parts(path).len() implies {
        let part = #[trigger] path_parts(path)[i];
        !part.contains('/') && part.len() > 0 && part != "."@
    } by {
        all.lemma_filter_pred(keep, i);
        filtered_is_among(all, keep, i);
        let part = path_parts(path)[i];
        assert(all[all.index_of(part)] == part);
    }
}

proof fn filtered_is_among(all: Seq<Text>, keep: spec_fn(Text) -> bool, i: int)
    requires
        0 <= i < all.filter(keep).len(),
    ensures
        all.contains(all.filter(keep)[i]),
    decreases all.len(),
{
    reveal(Seq::filter);
    if all.len() > 0 {
        let shorter = all.drop_last();
        if i < shorter.filter(keep).len() {
            filtered_is_among(shorter, keep, i);
            let part = shorter.filter(keep)[i];
            assert(all[shorter.index_of(part)] == part);
        } else {
            assert(all[all.len() - 1] == all.last());
        }
    }
}

proof fn all_are_kept(all: Seq<Text>, keep: spec_fn(Text) -> bool)
    requires
        forall|i: int| 0 <= i < all.len() ==> keep(#[trigger] all[i]),
    ensures
        all.filter(keep) == all,
    decreases all.len(),
{
    reveal(Seq::filter);
    if all.len() > 0 {
        let shorter = all.drop_last();
        assert forall|i: int| 0 <= i < shorter.len() implies keep(#[trigger] shorter[i]) by {
            assert(shorter[i] == all[i]);
        }
        all_are_kept(shorter, keep);
        assert(keep(all[all.len() - 1]));
        assert(all.filter(keep) =~= all);
    }
}

/// Whoever follows a relative path gets from the one path to the other, as long as that does not itself
/// go up.
pub proof fn relative_leads_there(from: Text, to: Text)
    requires
        forall|i: int| 0 <= i < path_parts(to).len() ==> #[trigger] path_parts(to)[i] != ".."@,
    ensures
        follow(path_parts(from), path_parts(relative(from, to))) == path_parts(to),
{
    let (a, b) = (path_parts(from), path_parts(to));
    let parts = way(a, b);
    let keep = |part: Text| part.len() > 0 && part != "."@;
    way_leads_there(a, b);
    common_parts_bound(a, b);
    parts_are_plain(to);
    reveal_strlit("/");
    reveal_strlit(".");
    reveal_strlit("..");
    assert("/"@ =~= seq!['/']);
    if parts.len() == 0 {
        let dot = "."@;
        dot.index_of_first_ensures('/');
        assert(pieces(dot, '/') =~= seq![dot]);
        reveal(Seq::filter);
        assert(seq![dot].drop_last().filter(keep) =~= Seq::<Text>::empty());
        assert(path_parts(dot) =~= Seq::<Text>::empty());
        assert(parts =~= Seq::<Text>::empty());
    } else {
        let common = common_parts(a, b);
        assert forall|i: int| 0 <= i < parts.len() implies !(#[trigger] parts[i]).contains('/') && keep(parts[i]) by {
            let up = a.len() - common;
            if i < up {
                assert(parts[i] == ".."@);
                assert(".."@.len() != "."@.len());
            } else {
                assert(parts[i] == b[i - up + common]);
            }
        }
        joined_is_parted(parts, '/');
        all_are_kept(parts, keep);
    }
}

/// Every project that has a name is found by it, and no two may have the same one.
pub proof fn projects_are_found(paths: Seq<Text>, projects: Map<Text, ProjectView>, known: Map<Text, Text>)
    requires
        paths.no_duplicates(),
    ensures
        match named_projects(paths, projects, known) {
            Ok(names) => {
                &&& forall|name: Text| #[trigger] known.contains_key(name) ==> names.contains_key(name) && names[name] == known[name]
                &&& forall|i: int|
                    0 <= i < paths.len() && (#[trigger] projects[paths[i]]).name is Some ==> {
                        let name = projects[paths[i]].name->0;
                        names.contains_key(name) && names[name] == paths[i] && !known.contains_key(name)
                    }
                &&& forall|name: Text| #[trigger]
                    names.contains_key(name) && !known.contains_key(name) ==> paths.contains(names[name])
                        && projects[names[name]].name == Some(name)
            },
            Err(_) => exists|i: int, j: int|
                0 <= i < paths.len() && (#[trigger] projects[paths[i]]).name is Some && (known.contains_key(
                    projects[paths[i]].name->0,
                ) || (0 <= j < i && (#[trigger] projects[paths[j]]).name == projects[paths[i]].name)),
        },
    decreases paths.len(),
{
    if paths.len() > 0 {
        let rest = paths.skip(1);
        let first = paths[0];
        assert forall|i: int| 0 <= i < rest.len() implies #[trigger] rest[i] == paths[i + 1] && rest[i] != first by {}
        assert forall|path: Text| rest.contains(path) implies paths.contains(path) by {
            assert(paths[rest.index_of(path) + 1] == path);
        }
        assert(paths.contains(first));
        let more = match projects[first].name {
            None => known,
            Some(name) => known.insert(name, first),
        };
        if !(projects[first].name matches Some(name) && known.contains_key(name)) {
            projects_are_found(rest, projects, more);
            match named_projects(rest, projects, more) {
                Ok(names) => {
                    assert forall|name: Text| #[trigger] known.contains_key(name) implies names.contains_key(name)
                        && names[name] == known[name] by {
                        assert(more.contains_key(name));
                    }
                    assert forall|i: int| 0 <= i < paths.len() && (#[trigger] projects[paths[i]]).name is Some implies {
                        let name = projects[paths[i]].name->0;
                        names.contains_key(name) && names[name] == paths[i] && !known.contains_key(name)
                    } by {
                        let name = projects[paths[i]].name->0;
                        if i > 0 {
                            assert(projects[rest[i - 1]].name is Some);
                            assert(!more.contains_key(name));
                        } else {
                            assert(more.contains_key(name));
                        }
                    }
                    assert forall|name: Text| #[trigger]
                        names.contains_key(name) && !known.contains_key(name) implies paths.contains(names[name])
                        && projects[names[name]].name == Some(name) by {
                        if more.contains_key(name) {
                            assert(names[name] == first);
                        }
                    }
                },
                Err(_) => {
                    let (i, j) = choose|i: int, j: int|
                        0 <= i < rest.len() && (#[trigger] projects[rest[i]]).name is Some && (more.contains_key(
                            projects[rest[i]].name->0,
                        ) || (0 <= j < i && (#[trigger] projects[rest[j]]).name == projects[rest[i]].name));
                    assert(projects[paths[i + 1]].name is Some);
                    if 0 <= j < i && projects[rest[j]].name == projects[rest[i]].name {
                        assert(projects[paths[j + 1]].name == projects[paths[i + 1]].name);
                    } else if !known.contains_key(projects[rest[i]].name->0) {
                        assert(projects[paths[0]].name == projects[paths[i + 1]].name);
                    }
                },
            }
        } else {
            assert(projects[paths[0]].name is Some && projects[paths[0]].name == projects[paths[0]].name);
        }
    }
}

/// A dependency on a project of the workspace leads to the project of that name, whether that is the
/// alias or is written before the range, if its version is in the range or any version does. Otherwise
/// it leads nowhere.
pub proof fn links_lead_to_projects(
    known: Map<Text, Text>,
    projects: Map<Text, ProjectView>,
    from: Text,
    alias: Text,
    name: Text,
    range: Text,
)
    requires
        name.len() > 0,
        (name[0] as u32) < 0x80,
        !name.skip(1).contains('@'),
        cut_version(range) is None,
    ensures
        linked_path(known, projects, from, alias, name + "@"@ + range) is Ok <==> known.contains_key(name) && does_for(
            projects[known[name]],
            range,
        ),
        linked_path(known, projects, from, alias, name + "@"@ + range) matches Ok(path) ==> path == relative(
            from,
            known[name],
        ),
        linked_path(known, projects, from, name, range) is Ok <==> known.contains_key(name) && does_for(
            projects[known[name]],
            range,
        ),
        linked_path(known, projects, from, name, range) matches Ok(path) ==> path == relative(from, known[name]),
{
    versions_are_split(name, range);
}

/// A project does for `range`: any does, or its version is in it.
pub open spec fn does_for(project: ProjectView, range: Text) -> bool {
    ||| range == ""@
    ||| range == "*"@
    ||| range == "^"@
    ||| range == "~"@
    ||| range_fault(range) is None && (project.version matches Some(raw) && parsed_version(raw) matches Some(version)
        && in_range(range, version))
}

} // verus!
