//! Adding and removing dependencies.
use vstd::prelude::*;

use crate::dict::{sorted, Dict, Names};
use crate::document::{
    dependency_in, deps_unique, is_dependency, other_dependencies_stay, removed, removed_is_gone, set_is_read,
    set_keeps_unique, with_dependency, Document, DocumentView, Members,
};
use crate::error::{literal, quoted, Error};
use crate::json::JsonView;
use crate::manifest::Group;
use crate::registry::{fetched_view, PackumentView, Registry};
use crate::resolve::pick::{Fetched, FetchedView};
use crate::resolve::{cut_version, parse_spec, parsed_spec, split_version, versions_are_split};
use crate::text::{cat, cat4, same, strip_prefix, trimmed, without_prefix, Text};
use crate::time::Timestamp;
use crate::version::{check_range, range_fault};

verus! {

/// A package that is asked for on the command line.
#[derive(Debug, PartialEq, Eq)]
pub struct PackageArg {
    pub alias: String,
    pub name: String,
    pub range: Option<String>,
}

/// What a `PackageArg` means.
#[verifier::ext_equal]
pub struct PackageArgView {
    pub alias: Text,
    pub name: Text,
    pub range: Option<Text>,
}

impl View for PackageArg {
    type V = PackageArgView;

    open spec fn view(&self) -> PackageArgView {
        PackageArgView { alias: self.alias@, name: self.name@, range: self.range.deep_view() }
    }
}

impl DeepView for PackageArg {
    type V = PackageArgView;

    open spec fn deep_view(&self) -> PackageArgView {
        self@
    }
}

/// A name, and what follows it.
pub open spec fn name_and_rest(arg: Text) -> (Text, Option<Text>) {
    match cut_version(arg) {
        Some((name, rest)) => (name, Some(rest)),
        None => (arg, None),
    }
}

/// What `arg` asks for: `name`, `name@range` or `alias@npm:name@range`.
pub open spec fn parsed_arg(arg: Text) -> Result<PackageArgView, Text> {
    let (alias, rest) = name_and_rest(arg);
    let target = match rest {
        Some(rest) => without_prefix(rest, "npm:"@),
        None => None,
    };
    let (name, range) = match target {
        Some(target) => name_and_rest(target),
        None => (alias, rest),
    };
    if alias.len() == 0 || name.len() == 0 {
        Err("invalid package "@ + literal(arg))
    } else {
        Ok(
            PackageArgView {
                alias,
                name,
                range: if range is Some && (range->0).len() > 0 {
                    range
                } else {
                    None
                },
            },
        )
    }
}

fn split_rest(arg: &str) -> (result: (&str, Option<&str>))
    ensures
        (result.0@, result.1.deep_view()) == name_and_rest(arg@),
{
    match split_version(arg) {
        Some((name, rest)) => (name, Some(rest)),
        None => (arg, None),
    }
}

pub fn parse_package_arg(arg: &str) -> (result: Result<PackageArg, Error>)
    ensures
        match result {
            Ok(parsed) => parsed_arg(arg@) == Ok::<PackageArgView, Text>(parsed@),
            Err(error) => error@.len() == 1 && parsed_arg(arg@) == Err::<PackageArgView, Text>(error@[0]),
        },
{
    let (alias, rest) = split_rest(arg);
    let target = match rest {
        Some(rest) => strip_prefix(rest, "npm:"),
        None => None,
    };
    let (name, range) = match target {
        Some(target) => split_rest(target),
        None => (alias, rest),
    };
    if alias.is_empty() || name.is_empty() {
        return Err(Error::new(cat("invalid package ", quoted(arg).as_str())));
    }
    let range = match range {
        Some(range) => if range.is_empty() {
            None
        } else {
            Some(range.to_owned())
        },
        None => None,
    };
    Ok(PackageArg { alias: alias.to_owned(), name: name.to_owned(), range })
}

/// Whether `range` is a tag rather than a range.
pub fn is_tag(range: &str) -> (result: bool)
    ensures
        result == (range_fault(range@) is Some),
{
    check_range(range).is_some()
}

impl PackageArgView {
    /// A version is looked up under a tag.
    pub open spec fn is_tagged(self) -> bool {
        self.range is None || range_fault(self.range->0) is Some
    }

    /// The tag under which a version is looked up.
    pub open spec fn tag(self) -> Text {
        match self.range {
            Some(tag) => tag,
            None => "latest"@,
        }
    }

    /// What is asked for in package.json, or what is wrong with it.
    pub open spec fn spec_text(
        self,
        packuments: Map<Text, FetchedView>,
        exact: bool,
        cutoff: Option<Timestamp>,
    ) -> Result<Text, Text> {
        let range = if !self.is_tagged() {
            Ok(self.range->0)
        } else if !packuments.contains_key(self.name) {
            Err("the registry gave no answer for "@ + self.name)
        } else {
            match packuments[self.name].wanted_version(self.name, self.tag(), cutoff) {
                Ok(version) => if exact {
                    Ok(version)
                } else {
                    Ok("^"@ + version)
                },
                Err(problem) => Err(problem),
            }
        };
        match range {
            Err(problem) => Err(problem),
            Ok(range) => {
                let spec = if self.alias != self.name {
                    "npm:"@ + self.name + "@"@ + range
                } else {
                    range
                };
                match parsed_spec(self.alias, spec) {
                    Ok(_) => Ok(spec),
                    Err(problem) => Err(problem),
                }
            },
        }
    }
}

/// The arguments, or what is wrong with the first of them with which anything is wrong.
pub open spec fn parsed_args(args: Seq<Text>) -> Result<Seq<PackageArgView>, Text>
    decreases args.len(),
{
    if args.len() == 0 {
        Ok(Seq::empty())
    } else {
        match parsed_args(args.drop_last()) {
            Err(problem) => Err(problem),
            Ok(before) => match parsed_arg(args.last()) {
                Err(problem) => Err(problem),
                Ok(arg) => Ok(before.push(arg)),
            },
        }
    }
}

/// The names of the packages of which versions are looked up.
pub open spec fn looked_up(args: Seq<PackageArgView>) -> Set<Text>
    decreases args.len(),
{
    if args.len() == 0 {
        Set::empty()
    } else if args.last().is_tagged() {
        looked_up(args.drop_last()).insert(args.last().name)
    } else {
        looked_up(args.drop_last())
    }
}

/// What the registry gave for `names`.
pub open spec fn answered(names: Seq<Text>, packuments: Seq<PackumentView>) -> Map<Text, FetchedView>
    decreases names.len(),
{
    if names.len() == 0 {
        Map::empty()
    } else {
        let i = names.len() - 1;
        let before = answered(names.drop_last(), packuments);
        if i < packuments.len() {
            before.insert(names[i], FetchedView { packument: packuments[i], verified: true })
        } else {
            before
        }
    }
}

/// A document with `args` added, as far as that succeeds, what was added, and what stopped it.
pub open spec fn with_args(
    members: Members,
    args: Seq<PackageArgView>,
    packuments: Map<Text, FetchedView>,
    group: Group,
    exact: bool,
    cutoff: Option<Timestamp>,
) -> (Members, Seq<(Text, Text)>, Option<Text>)
    decreases args.len(),
{
    if args.len() == 0 {
        (members, Seq::empty(), None)
    } else {
        let (before, added, problem) = with_args(members, args.drop_last(), packuments, group, exact, cutoff);
        if problem is Some {
            (before, added, problem)
        } else {
            let arg = args.last();
            match arg.spec_text(packuments, exact, cutoff) {
                Err(problem) => (before, added, Some(problem)),
                Ok(spec) => (
                    with_dependency(before, group, arg.alias, spec),
                    added.push((arg.alias, spec)),
                    None,
                ),
            }
        }
    }
}

/// What comes of adding `args` if `registry` may give this answer.
pub open spec fn additions<R: Registry>(
    registry: R,
    members: Members,
    args: Seq<PackageArgView>,
    answer: Result<Seq<PackumentView>, Seq<Text>>,
    group: Group,
    exact: bool,
    cutoff: Option<Timestamp>,
) -> Option<(Members, Result<Seq<(Text, Text)>, Seq<Text>>)> {
    let names = sorted(looked_up(args));
    if names.len() > 0 && !registry.may_fetch(names, answer) {
        None
    } else if names.len() > 0 && answer is Err {
        Some((members, Err(answer->Err_0)))
    } else {
        let packuments = if names.len() > 0 {
            answered(names, answer->Ok_0)
        } else {
            Map::empty()
        };
        let (after, added, problem) = with_args(members, args, packuments, group, exact, cutoff);
        match problem {
            Some(problem) => Some((after, Err(seq![problem]))),
            None => Some((after, Ok(added))),
        }
    }
}

proof fn problem_stays(
    members: Members,
    args: Seq<PackageArgView>,
    packuments: Map<Text, FetchedView>,
    group: Group,
    exact: bool,
    cutoff: Option<Timestamp>,
    n: int,
)
    requires
        0 <= n <= args.len(),
        with_args(members, args.take(n), packuments, group, exact, cutoff).2 is Some,
    ensures
        with_args(members, args, packuments, group, exact, cutoff) == with_args(
            members,
            args.take(n),
            packuments,
            group,
            exact,
            cutoff,
        ),
    decreases args.len() - n,
{
    if n == args.len() {
        assert(args.take(n) =~= args);
    } else {
        assert(args.take(n + 1).drop_last() =~= args.take(n));
        problem_stays(members, args, packuments, group, exact, cutoff, n + 1);
    }
}

proof fn parse_problem_stays(args: Seq<Text>, n: int)
    requires
        0 <= n <= args.len(),
        parsed_args(args.take(n)) is Err,
    ensures
        parsed_args(args) == parsed_args(args.take(n)),
    decreases args.len() - n,
{
    if n == args.len() {
        assert(args.take(n) =~= args);
    } else {
        assert(args.take(n + 1).drop_last() =~= args.take(n));
        parse_problem_stays(args, n + 1);
    }
}

/// Reads the packages that are asked for.
pub fn parse_package_args(args: &Vec<String>) -> (result: Result<Vec<PackageArg>, Error>)
    ensures
        match result {
            Ok(parsed) => parsed_args(args.deep_view()) == Ok::<Seq<PackageArgView>, Text>(parsed.deep_view()),
            Err(error) => error@.len() == 1 && parsed_args(args.deep_view()) == Err::<Seq<PackageArgView>, Text>(
                error@[0],
            ),
        },
{
    let ghost all = args.deep_view();
    let mut parsed: Vec<PackageArg> = Vec::new();
    let mut i: usize = 0;
    assert(parsed.deep_view() =~= Seq::<PackageArgView>::empty());
    while i < args.len()
        invariant
            i <= args.len(),
            all == args.deep_view(),
            parsed_args(all.take(i as int)) == Ok::<Seq<PackageArgView>, Text>(parsed.deep_view()),
        decreases args.len() - i,
    {
        let ghost before = parsed.deep_view();
        assert(all.take(i + 1).drop_last() =~= all.take(i as int));
        assert(all[i as int] == args@[i as int]@);
        match parse_package_arg(args[i].as_str()) {
            Ok(arg) => {
                let ghost meaning = arg@;
                parsed.push(arg);
                assert(parsed.deep_view() =~= before.push(meaning));
            },
            Err(error) => {
                proof {
                    parse_problem_stays(all, i + 1);
                }
                return Err(error);
            },
        }
        i += 1;
    }
    assert(all.take(i as int) =~= all);
    Ok(parsed)
}

fn needs_lookup(arg: &PackageArg) -> (result: bool)
    ensures
        result == arg@.is_tagged(),
{
    match &arg.range {
        Some(range) => is_tag(range.as_str()),
        None => true,
    }
}

fn spec_for(arg: &PackageArg, packuments: &Dict<Fetched>, exact: bool, cutoff: Option<Timestamp>) -> (result: Result<
    String,
    Error,
>)
    ensures
        match result {
            Ok(spec) => arg@.spec_text(packuments@, exact, cutoff) == Ok::<Text, Text>(spec@),
            Err(error) => error@.len() == 1 && arg@.spec_text(packuments@, exact, cutoff) == Err::<Text, Text>(
                error@[0],
            ),
        },
{
    let range = if needs_lookup(arg) {
        let tag = match &arg.range {
            Some(tag) => tag.as_str(),
            None => "latest",
        };
        match packuments.get(arg.name.as_str()) {
            Some(fetched) => match fetched.wanted(arg.name.as_str(), tag, cutoff) {
                Ok(version) => if exact {
                    version
                } else {
                    cat("^", version.as_str())
                },
                Err(error) => {
                    return Err(error);
                },
            },
            None => {
                return Err(Error::new(cat("the registry gave no answer for ", arg.name.as_str())));
            },
        }
    } else {
        match &arg.range {
            Some(range) => range.clone(),
            None => String::new(),
        }
    };
    let spec = if same(arg.alias.as_str(), arg.name.as_str()) {
        range
    } else {
        cat4("npm:", arg.name.as_str(), "@", range.as_str())
    };
    match parse_spec(arg.alias.as_str(), spec.as_str()) {
        Ok(_) => Ok(spec),
        Err(error) => Err(error),
    }
}

/// Adds `args` to `group` of a document, and gives what was added under which alias. Versions are
/// looked up where a tag is asked for, or nothing in particular.
pub fn add<R: Registry>(
    document: &mut Document,
    args: &Vec<PackageArg>,
    group: Group,
    exact: bool,
    registry: &R,
    cutoff: Option<Timestamp>,
) -> (result: Result<Vec<(String, String)>, Error>)
    ensures
        exists|answer: Result<Seq<PackumentView>, Seq<Text>>| #[trigger]
            additions(*registry, old(document)@.members, args.deep_view(), answer, group, exact, cutoff) == Some(
                (
                    final(document)@.members,
                    match result {
                        Ok(added) => Ok(added.deep_view()),
                        Err(error) => Err(error@),
                    },
                ),
            ),
        final(document)@ == (DocumentView { members: final(document)@.members, ..old(document)@ }),
{
    let ghost first = document@;
    let ghost all = args.deep_view();
    let mut lookups = Names::new();
    let mut i: usize = 0;
    while i < args.len()
        invariant
            i <= args.len(),
            all == args.deep_view(),
            lookups@ == looked_up(all.take(i as int)),
        decreases args.len() - i,
    {
        assert(all.take(i + 1).drop_last() =~= all.take(i as int));
        assert(all[i as int] == args@[i as int]@);
        if needs_lookup(&args[i]) {
            lookups.insert(args[i].name.clone());
        }
        i += 1;
    }
    assert(all.take(i as int) =~= all);
    let names = lookups.to_vec();
    let ghost asked = names.deep_view();
    let mut packuments: Dict<Fetched> = Dict::new();
    let ghost mut answer: Result<Seq<PackumentView>, Seq<Text>> = Err(Seq::empty());
    if names.len() > 0 {
        let outcome = registry.fetch(&names);
        proof {
            answer = fetched_view(outcome);
        }
        let fetched = match outcome {
            Ok(fetched) => fetched,
            Err(error) => {
                assert(additions(*registry, first.members, all, answer, group, exact, cutoff) == Some(
                    (first.members, Err::<Seq<(Text, Text)>, Seq<Text>>(error@)),
                ));
                return Err(error);
            },
        };
        let ghost given = fetched.deep_view();
        let mut k: usize = 0;
        for packument in it: fetched
            invariant
                it.seq() == fetched@,
                given == fetched.deep_view(),
                asked == names.deep_view(),
                k <= names.len(),
                k <= it.index(),
                k < names.len() ==> k == it.index(),
                packuments@ == answered(asked.take(k as int), given),
        {
            if k < names.len() {
                assert(asked.take(k + 1).drop_last() =~= asked.take(k as int));
                assert(given[k as int] == packument@);
                packuments.insert(names[k].clone(), Fetched::new(packument, true));
                k += 1;
            }
        }
        proof {
            answered_stops(asked, given, k as int);
        }
    }
    let ghost known = packuments@;
    let mut added: Vec<(String, String)> = Vec::new();
    let mut j: usize = 0;
    assert(added.deep_view() =~= Seq::<(Text, Text)>::empty());
    while j < args.len()
        invariant
            j <= args.len(),
            all == args.deep_view(),
            first == old(document)@,
            known == packuments@,
            asked == sorted(looked_up(all)),
            asked.len() == 0 ==> known == Map::<Text, FetchedView>::empty(),
            asked.len() > 0 ==> registry.may_fetch(asked, answer) && answer is Ok && known == answered(
                asked,
                answer->Ok_0,
            ),
            document@ == (DocumentView { members: document@.members, ..first }),
            with_args(first.members, all.take(j as int), known, group, exact, cutoff) == (
                document@.members,
                added.deep_view(),
                None::<Text>,
            ),
        decreases args.len() - j,
    {
        let arg = &args[j];
        let ghost had = added.deep_view();
        assert(all.take(j + 1).drop_last() =~= all.take(j as int));
        assert(all[j as int] == arg@);
        match spec_for(arg, &packuments, exact, cutoff) {
            Ok(spec) => {
                document.set_dependency(group, arg.alias.as_str(), spec.as_str());
                let ghost entry = (arg@.alias, spec@);
                added.push((arg.alias.clone(), spec));
                assert(added.deep_view() =~= had.push(entry));
            },
            Err(error) => {
                proof {
                    problem_stays(first.members, all, known, group, exact, cutoff, j + 1);
                    assert(error@ =~= seq![error@[0]]);
                    assert(additions(*registry, first.members, all, answer, group, exact, cutoff) == Some(
                        (document@.members, Err::<Seq<(Text, Text)>, Seq<Text>>(error@)),
                    ));
                }
                return Err(error);
            },
        }
        j += 1;
    }
    assert(all.take(j as int) =~= all);
    assert(additions(*registry, first.members, all, answer, group, exact, cutoff) == Some(
        (document@.members, Ok::<Seq<(Text, Text)>, Seq<Text>>(added.deep_view())),
    ));
    Ok(added)
}

proof fn answered_stops(names: Seq<Text>, packuments: Seq<PackumentView>, n: int)
    requires
        0 <= n <= names.len(),
        n == names.len() || n >= packuments.len(),
    ensures
        answered(names.take(n), packuments) == answered(names, packuments),
    decreases names.len() - n,
{
    if n == names.len() {
        assert(names.take(n) =~= names);
    } else {
        assert(names.take(n + 1).drop_last() =~= names.take(n));
        answered_stops(names, packuments, n + 1);
    }
}

/// A document with `aliases` removed, as far as that succeeds, and what stopped it.
pub open spec fn without_args(members: Members, aliases: Seq<Text>) -> (Members, Option<Text>)
    decreases aliases.len(),
{
    if aliases.len() == 0 {
        (members, None)
    } else if is_dependency(members, aliases[0]) {
        without_args(removed(members, aliases[0]), aliases.skip(1))
    } else {
        (removed(members, aliases[0]), Some(aliases[0] + " is not a dependency in package.json"@))
    }
}

/// Removes `aliases` from a document.
pub fn remove(document: &mut Document, aliases: &Vec<String>) -> (result: Result<(), Error>)
    ensures
        without_args(old(document)@.members, aliases.deep_view()) == (
            final(document)@.members,
            match result {
                Ok(()) => None,
                Err(error) => Some(error@[0]),
            },
        ),
        result matches Err(error) ==> error@.len() == 1,
        final(document)@ == (DocumentView { members: final(document)@.members, ..old(document)@ }),
{
    let ghost first = document@;
    let ghost all = aliases.deep_view();
    let mut i: usize = 0;
    assert(all.skip(0) =~= all);
    while i < aliases.len()
        invariant
            i <= aliases.len(),
            all == aliases.deep_view(),
            first == old(document)@,
            document@ == (DocumentView { members: document@.members, ..first }),
            without_args(first.members, all) == without_args(document@.members, all.skip(i as int)),
        decreases aliases.len() - i,
    {
        let alias = aliases[i].as_str();
        assert(all.skip(i as int)[0] == alias@);
        assert(all.skip(i as int).skip(1) =~= all.skip(i + 1));
        if !document.remove_dependency(alias) {
            return Err(Error::new(cat(alias, " is not a dependency in package.json")));
        }
        i += 1;
    }
    Ok(())
}

/// An argument names a package, and behind an `@` a range or a tag, or behind `npm:` another package of
/// which that is asked for under the name in front. An empty range is none.
pub proof fn arguments_are_read(alias: Text, name: Text, range: Text)
    requires
        alias.len() > 0,
        (alias[0] as u32) < 0x80,
        !alias.skip(1).contains('@'),
        name.len() > 0,
        (name[0] as u32) < 0x80,
        !name.skip(1).contains('@'),
        range.len() > 0,
        !"npm:"@.is_prefix_of(range),
    ensures
        parsed_arg(name) == Ok::<PackageArgView, Text>(PackageArgView { alias: name, name, range: None }),
        parsed_arg(name + "@"@) == Ok::<PackageArgView, Text>(PackageArgView { alias: name, name, range: None }),
        parsed_arg(name + "@"@ + range) == Ok::<PackageArgView, Text>(
            PackageArgView { alias: name, name, range: Some(range) },
        ),
        parsed_arg(alias + "@"@ + ("npm:"@ + name)) == Ok::<PackageArgView, Text>(
            PackageArgView { alias, name, range: None },
        ),
        parsed_arg(alias + "@"@ + ("npm:"@ + (name + "@"@ + range))) == Ok::<PackageArgView, Text>(
            PackageArgView { alias, name, range: Some(range) },
        ),
{
    reveal_strlit("npm:");
    let none = Seq::<char>::empty();
    versions_are_split(name, range);
    versions_are_split(name, none);
    assert(name + "@"@ + none =~= name + "@"@);
    versions_are_split(alias, "npm:"@ + name);
    versions_are_split(alias, "npm:"@ + (name + "@"@ + range));
    assert(("npm:"@ + name).subrange(0, 4) =~= "npm:"@);
    assert(("npm:"@ + name).skip(4) =~= name);
    let full = name + "@"@ + range;
    assert(("npm:"@ + full).subrange(0, 4) =~= "npm:"@);
    assert(("npm:"@ + full).skip(4) =~= full);
}

/// What is written into package.json for an argument asks for the package that it names, and for its
/// range, where it gives one. Where it gives none or a tag, that asks for the version which the tag
/// stands for, or any one that is compatible with it.
pub proof fn written_is_asked_for(
    arg: PackageArgView,
    packuments: Map<Text, FetchedView>,
    exact: bool,
    cutoff: Option<Timestamp>,
)
    requires
        arg.name.len() > 0,
        (arg.name[0] as u32) < 0x80,
        !arg.name.skip(1).contains('@'),
    ensures
        arg.spec_text(packuments, exact, cutoff) matches Ok(spec) ==> {
            &&& parsed_spec(arg.alias, spec) is Ok
            &&& arg.alias != arg.name || !"npm:"@.is_prefix_of(spec) ==> {
                let (name, range) = parsed_spec(arg.alias, spec)->Ok_0;
                &&& name == arg.name
                &&& !arg.is_tagged() ==> asks_for_range(range, arg.range->0)
                &&& arg.is_tagged() ==> packuments.contains_key(arg.name) && (packuments[arg.name].wanted_version(
                    arg.name,
                    arg.tag(),
                    cutoff,
                ) matches Ok(version) && asks_for_range(
                    range,
                    if exact {
                        version
                    } else {
                        "^"@ + version
                    },
                ))
            }
        },
{
    reveal_strlit("npm:");
    if let Ok(spec) = arg.spec_text(packuments, exact, cutoff) {
        if arg.alias != arg.name {
            let range = if !arg.is_tagged() {
                arg.range->0
            } else {
                let version = packuments[arg.name].wanted_version(arg.name, arg.tag(), cutoff)->Ok_0;
                if exact {
                    version
                } else {
                    "^"@ + version
                }
            };
            versions_are_split(arg.name, range);
            let full = arg.name + "@"@ + range;
            assert(spec =~= "npm:"@ + full);
            assert(spec.subrange(0, 4) =~= "npm:"@);
            assert(spec.skip(4) =~= full);
        }
    }
}

/// `range` is `written`, but for space around it, or any range where nothing is written.
pub open spec fn asks_for_range(range: Text, written: Text) -> bool {
    if trimmed(written).len() == 0 {
        range == "*"@
    } else {
        range == trimmed(written)
    }
}

/// Where all arguments could be added, each was, with what is written for it, in the order in which they
/// stand. The dependency of each is then in the group, asking for that, unless a later argument has the
/// same alias, and every dependency that no argument names is as it was.
pub proof fn arguments_are_added(
    members: Members,
    args: Seq<PackageArgView>,
    packuments: Map<Text, FetchedView>,
    group: Group,
    exact: bool,
    cutoff: Option<Timestamp>,
)
    requires
        deps_unique(members),
    ensures
        ({
            let (after, added, problem) = with_args(members, args, packuments, group, exact, cutoff);
            &&& deps_unique(after)
            &&& problem is None ==> {
                &&& added.len() == args.len()
                &&& forall|i: int|
                    0 <= i < args.len() ==> args[i].spec_text(packuments, exact, cutoff) == Ok::<Text, Text>(
                        (#[trigger] added[i]).1,
                    ) && added[i].0 == args[i].alias
                &&& forall|i: int|
                    0 <= i < args.len() && is_last_of(args, i) ==> dependency_in(after, group, args[i].alias) == Some(
                        JsonView::String((#[trigger] added[i]).1),
                    )
                &&& forall|kept: Group, other: Text|
                    (forall|i: int| 0 <= i < args.len() ==> (#[trigger] args[i]).alias != other)
                        ==> #[trigger] dependency_in(after, kept, other) == dependency_in(members, kept, other)
            }
            &&& problem is Some ==> exists|i: int|
                0 <= i < args.len() && (#[trigger] args[i]).spec_text(packuments, exact, cutoff) is Err
        }),
    decreases args.len(),
{
    if args.len() > 0 {
        let shorter = args.drop_last();
        let arg = args.last();
        let n = shorter.len() as int;
        arguments_are_added(members, shorter, packuments, group, exact, cutoff);
        let (before, done, trouble) = with_args(members, shorter, packuments, group, exact, cutoff);
        let (after, added, problem) = with_args(members, args, packuments, group, exact, cutoff);
        assert(args[n] == arg);
        assert forall|i: int| 0 <= i < n implies #[trigger] args[i] == shorter[i] by {}
        if trouble is Some {
            let i = choose|i: int|
                0 <= i < shorter.len() && (#[trigger] shorter[i]).spec_text(packuments, exact, cutoff) is Err;
            assert(args[i] == shorter[i]);
        } else if let Ok(spec) = arg.spec_text(packuments, exact, cutoff) {
            set_keeps_unique(before, group, arg.alias, spec);
            set_is_read(before, group, arg.alias, spec);
            assert(added == done.push((arg.alias, spec)));
            assert forall|i: int| 0 <= i < args.len() implies args[i].spec_text(packuments, exact, cutoff) == Ok::<
                Text,
                Text,
            >((#[trigger] added[i]).1) && added[i].0 == args[i].alias by {
                if i < n {
                    assert(added[i] == done[i]);
                }
            }
            assert forall|i: int| 0 <= i < args.len() && is_last_of(args, i) implies dependency_in(
                after,
                group,
                args[i].alias,
            ) == Some(JsonView::String((#[trigger] added[i]).1)) by {
                if i < n {
                    assert(args[i].alias != args[n].alias);
                    assert(added[i] == done[i]);
                    assert(is_last_of(shorter, i)) by {
                        assert forall|j: int| i < j < shorter.len() implies (#[trigger] shorter[j]).alias
                            != shorter[i].alias by {
                            assert(args[j].alias != args[i].alias);
                        }
                    }
                    other_dependencies_stay(before, group, group, arg.alias, spec, args[i].alias);
                }
            }
            assert forall|kept: Group, other: Text|
                (forall|i: int| 0 <= i < args.len() ==> (#[trigger] args[i]).alias
                    != other) implies #[trigger] dependency_in(after, kept, other) == dependency_in(
                members,
                kept,
                other,
            ) by {
                assert(args[n].alias != other);
                assert forall|i: int| 0 <= i < shorter.len() implies (#[trigger] shorter[i]).alias != other by {
                    assert(args[i].alias != other);
                }
                other_dependencies_stay(before, group, kept, arg.alias, spec, other);
                assert(dependency_in(before, kept, other) == dependency_in(members, kept, other));
            }
        }
    }
}

/// No argument behind `i` has the same alias.
pub open spec fn is_last_of(args: Seq<PackageArgView>, i: int) -> bool {
    forall|j: int| i < j < args.len() ==> (#[trigger] args[j]).alias != args[i].alias
}

/// Where all aliases could be removed, none is a dependency any more, and every other dependency is as it
/// was. Only an alias that is no dependency stops the removal.
pub proof fn aliases_are_removed(members: Members, aliases: Seq<Text>)
    requires
        deps_unique(members),
    ensures
        ({
            let (after, problem) = without_args(members, aliases);
            &&& problem is None ==> {
                &&& forall|i: int| 0 <= i < aliases.len() ==> !is_dependency(after, #[trigger] aliases[i])
                &&& forall|group: Group, other: Text|
                    !aliases.contains(other) ==> #[trigger] dependency_in(after, group, other) == dependency_in(
                        members,
                        group,
                        other,
                    )
                &&& forall|i: int| 0 <= i < aliases.len() ==> is_dependency(members, #[trigger] aliases[i])
            }
            &&& forall|alias: Text| #[trigger] is_dependency(after, alias) ==> is_dependency(members, alias)
            &&& (forall|i: int| 0 <= i < aliases.len() ==> is_dependency(members, #[trigger] aliases[i]))
                && aliases.no_duplicates() ==> problem is None
        }),
    decreases aliases.len(),
{
    if aliases.len() > 0 {
        let alias = aliases[0];
        let rest = aliases.skip(1);
        let fewer = removed(members, alias);
        removed_is_gone(members, alias);
        assert forall|i: int| 0 <= i < rest.len() implies #[trigger] rest[i] == aliases[i + 1] by {}
        assert forall|other: Text| #[trigger] is_dependency(fewer, other) implies is_dependency(members, other) by {
            assert(other != alias);
            still_dependency(members, alias, other);
        }
        if is_dependency(members, alias) {
            aliases_are_removed(fewer, rest);
            let (after, problem) = without_args(members, aliases);
            if problem is None {
                assert forall|i: int| 0 <= i < aliases.len() implies !is_dependency(after, #[trigger] aliases[i])
                    && is_dependency(members, aliases[i]) by {
                    if i > 0 {
                        assert(!is_dependency(after, rest[i - 1]));
                        assert(is_dependency(fewer, rest[i - 1]));
                    } else if is_dependency(after, alias) {
                        assert(is_dependency(fewer, alias));
                    }
                }
                assert forall|group: Group, other: Text|
                    !aliases.contains(other) implies #[trigger] dependency_in(after, group, other) == dependency_in(
                    members,
                    group,
                    other,
                ) by {
                    assert(aliases.contains(alias));
                    if rest.contains(other) {
                        assert(aliases[rest.index_of(other) + 1] == other);
                    }
                    other_dependencies_stay(members, group, group, alias, Seq::empty(), other);
                }
            }
            if (forall|i: int| 0 <= i < aliases.len() ==> is_dependency(members, #[trigger] aliases[i]))
                && aliases.no_duplicates() {
                assert forall|i: int| 0 <= i < rest.len() implies is_dependency(fewer, #[trigger] rest[i]) by {
                    assert(is_dependency(members, aliases[i + 1]));
                    assert(aliases[i + 1] != aliases[0]);
                    still_dependency(members, alias, rest[i]);
                }
            }
        } else {
            assert(is_dependency(members, aliases[0]) || without_args(members, aliases).1 is Some);
        }
    }
}

proof fn still_dependency(members: Members, alias: Text, other: Text)
    requires
        deps_unique(members),
        alias != other,
    ensures
        is_dependency(removed(members, alias), other) == is_dependency(members, other),
{
    other_dependencies_stay(members, Group::Prod, Group::Prod, alias, Seq::empty(), other);
    other_dependencies_stay(members, Group::Dev, Group::Dev, alias, Seq::empty(), other);
    other_dependencies_stay(members, Group::Optional, Group::Optional, alias, Seq::empty(), other);
    in_group_is_dependency(members, other);
    in_group_is_dependency(removed(members, alias), other);
}

proof fn in_group_is_dependency(members: Members, alias: Text)
    ensures
        is_dependency(members, alias) == (dependency_in(members, Group::Prod, alias) is Some || dependency_in(
            members,
            Group::Dev,
            alias,
        ) is Some || dependency_in(members, Group::Optional, alias) is Some),
{
}

} // verus!
