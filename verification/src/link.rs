//! What `node_modules` links to.
use vstd::prelude::*;

use crate::dict::{sorted, sorted_properties, taken_one_more, Dict};
use crate::impure::text_member;
use crate::json::{member, Json, JsonView};
use crate::text::{cat, cut_at_last, cuts_give_parts, same, split_once_last, starts_with, strip_prefix, Text};
use crate::util::{join_path, joined_path};

verus! {

/// A package to link, with its manifest if it has one.
pub struct LinkedPackage {
    pub root: String,
    pub manifest: Option<Json>,
}

/// What a `LinkedPackage` means.
#[verifier::ext_equal]
pub struct LinkedPackageView {
    pub root: Text,
    pub manifest: Option<JsonView>,
}

impl DeepView for LinkedPackage {
    type V = LinkedPackageView;

    open spec fn deep_view(&self) -> LinkedPackageView {
        LinkedPackageView { root: self.root@, manifest: self.manifest.deep_view() }
    }
}

/// `s` without any `prefix` that it begins with.
pub open spec fn without_prefixes(s: Text, prefix: Text) -> Text
    decreases s.len(),
{
    if prefix.len() > 0 && prefix.is_prefix_of(s) {
        without_prefixes(s.skip(prefix.len() as int), prefix)
    } else {
        s
    }
}

/// What follows the last slash in `s`.
pub open spec fn last_part(s: Text) -> Text {
    match cut_at_last(s, '/') {
        Some((_, last)) => last,
        None => s,
    }
}

/// Where the binary `bin` is linked.
pub open spec fn bin_link(bin: Text) -> Text {
    ".bin/"@ + last_part(bin)
}

/// What the binary at `file` in the package at `root` is.
pub open spec fn bin_target(root: Text, file: Text) -> Text {
    joined_path(root, without_prefixes(file, "./"@))
}

/// `links` with the binaries that `files` name.
pub open spec fn with_files(links: Map<Text, Text>, root: Text, files: Seq<(Text, JsonView)>) -> Map<Text, Text>
    decreases files.len(),
{
    if files.len() == 0 {
        links
    } else {
        let before = with_files(links, root, files.drop_last());
        match files.last().1 {
            JsonView::String(file) => before.insert(bin_link(files.last().0), bin_target(root, file)),
            _ => before,
        }
    }
}

/// `links` with the binaries of a package that is linked as `alias`.
pub open spec fn with_bins(links: Map<Text, Text>, alias: Text, package: LinkedPackageView) -> Map<Text, Text> {
    match package.manifest {
        None => links,
        Some(manifest) => {
            let name = match text_member(manifest, "name"@) {
                Some(name) => name,
                None => alias,
            };
            match member(manifest, "bin"@) {
                Some(JsonView::String(file)) => links.insert(bin_link(name), bin_target(package.root, file)),
                Some(JsonView::Object(files)) => with_files(links, package.root, files),
                _ => links,
            }
        },
    }
}

/// The links to the binaries of the packages `aliases`. Of several of the same name, the last counts.
pub open spec fn bin_links(packages: Map<Text, LinkedPackageView>, aliases: Seq<Text>) -> Map<Text, Text>
    decreases aliases.len(),
{
    if aliases.len() == 0 {
        Map::empty()
    } else {
        with_bins(bin_links(packages, aliases.drop_last()), aliases.last(), packages[aliases.last()])
    }
}

/// All links in `node_modules`: to packages, to their binaries and to Node.js.
pub open spec fn wanted_links(packages: Map<Text, LinkedPackageView>, node: Option<Text>) -> Map<Text, Text> {
    let bins = bin_links(packages, sorted(packages.dom()));
    (match node {
        Some(node) => bins.insert(".bin/node"@, node),
        None => bins,
    }).union_prefer_right(packages.map_values(|package: LinkedPackageView| package.root))
}

fn trim_prefixes<'a>(s: &'a str, prefix: &str) -> (result: &'a str)
    requires
        prefix@.len() > 0,
    ensures
        result@ == without_prefixes(s@, prefix@),
{
    let mut rest: &str = s;
    loop
        invariant
            prefix@.len() > 0,
            without_prefixes(rest@, prefix@) == without_prefixes(s@, prefix@),
        decreases rest@.len(),
    {
        match strip_prefix(rest, prefix) {
            Some(shorter) => {
                rest = shorter;
            },
            None => {
                return rest;
            },
        }
    }
}

fn link_name(bin: &str) -> (result: String)
    ensures
        result@ == bin_link(bin@),
{
    cat(
        ".bin/",
        match split_once_last(bin, '/') {
            Some((_, last)) => last,
            None => bin,
        },
    )
}

fn link_target(root: &str, file: &str) -> (result: String)
    ensures
        result@ == bin_target(root@, file@),
{
    proof {
        reveal_strlit("./");
    }
    join_path(root, trim_prefixes(file, "./"))
}

fn add_bins(links: &mut Dict<String>, alias: &str, package: &LinkedPackage)
    ensures
        final(links)@ == with_bins(old(links)@, alias@, package.deep_view()),
{
    let manifest = match &package.manifest {
        Some(manifest) => manifest,
        None => {
            return;
        },
    };
    let root = package.root.as_str();
    let name = match manifest.get("name") {
        Some(Json::String(name)) => name.as_str(),
        _ => alias,
    };
    match manifest.get("bin") {
        Some(Json::String(file)) => {
            links.insert(link_name(name), link_target(root, file.as_str()));
        },
        Some(Json::Object(files)) => {
            let ghost first = links@;
            let ghost all = files.deep_view();
            proof {
                crate::json::object_meaning(*files);
            }
            let mut i: usize = 0;
            while i < files.len()
                invariant
                    i <= files.len(),
                    root@ == package.root@,
                    all == files.deep_view(),
                    links@ == with_files(first, root@, all.take(i as int)),
                decreases files.len() - i,
            {
                assert(all.take(i + 1).drop_last() =~= all.take(i as int));
                assert(all[i as int] == (files@[i as int].0@, files@[i as int].1@));
                if let Json::String(file) = &files[i].1 {
                    links.insert(link_name(files[i].0.as_str()), link_target(root, file.as_str()));
                }
                i += 1;
            }
            assert(all.take(i as int) =~= all);
        },
        _ => {},
    }
}

/// The links to the binaries of packages, by alias.
pub fn bins(packages: &Dict<LinkedPackage>) -> (result: Dict<String>)
    ensures
        result@ == bin_links(packages@, sorted(packages@.dom())),
{
    let mut links: Dict<String> = Dict::new();
    let n: usize = packages.len();
    let ghost aliases = sorted(packages@.dom());
    let mut i: usize = 0;
    while i < n
        invariant
            i <= n,
            n == aliases.len(),
            aliases == sorted(packages@.dom()),
            links@ == bin_links(packages@, aliases.take(i as int)),
        decreases n - i,
    {
        assert(aliases.take(i + 1).drop_last() =~= aliases.take(i as int));
        add_bins(&mut links, packages.key(i).as_str(), packages.value(i));
        i += 1;
    }
    assert(aliases.take(i as int) =~= aliases);
    links
}

/// All links in `node_modules`, by where they stand: to packages, to their binaries and to Node.js.
pub fn wanted(packages: &Dict<LinkedPackage>, node: Option<&str>) -> (result: Dict<String>)
    ensures
        result@ == wanted_links(packages@, node.deep_view()),
{
    let mut links = bins(packages);
    if let Some(node) = node {
        links.insert(".bin/node".to_owned(), node.to_owned());
    }
    let ghost base = links@;
    let ghost all = packages@.map_values(|package: LinkedPackageView| package.root);
    let n: usize = packages.len();
    let ghost keys = sorted(packages@.dom());
    proof {
        sorted_properties(packages@.dom());
        assert(links@ =~= base.union_prefer_right(all.restrict(keys.take(0).to_set())));
    }
    let mut i: usize = 0;
    while i < n
        invariant
            i <= n,
            n == keys.len(),
            keys == sorted(packages@.dom()),
            all == packages@.map_values(|package: LinkedPackageView| package.root),
            links@ == base.union_prefer_right(all.restrict(keys.take(i as int).to_set())),
        decreases n - i,
    {
        proof {
            taken_one_more(keys, i as int);
        }
        links.insert(packages.key(i).clone(), packages.value(i).root.clone());
        assert(links@ =~= base.union_prefer_right(all.restrict(keys.take(i + 1).to_set())));
        i += 1;
    }
    proof {
        assert(keys.take(i as int) =~= keys);
        assert forall|x: Text| all.contains_key(x) implies keys.to_set().contains(x) by {
            assert(keys.contains(x));
        }
        assert(all.restrict(keys.to_set()) =~= all);
    }
    links
}

/// A directory of links rather than a package: a scope, or the binaries.
pub open spec fn holds_links(name: Text) -> bool {
    "@"@.is_prefix_of(name) || name == ".bin"@
}

pub fn is_container(name: &str) -> (result: bool)
    ensures
        result == holds_links(name@),
{
    starts_with(name, "@") || same(name, ".bin")
}

/// What is found in `node_modules`.
pub enum Found {
    /// A link, with where it leads as far as that can be read.
    Link(Option<String>),
    /// A link to a path that is no text, so not one that is wanted.
    ForeignLink,
    Directory,
    File,
}

/// What is done with what is found.
#[derive(Debug, Clone, Copy, PartialEq, Eq, Structural)]
pub enum Pruning {
    Keep,
    Remove,
    /// Its entries are looked at, and then it is removed if it is empty.
    Descend,
}

/// What is done with `found`, which stands as `name` below `prefix`. Links that already point at the
/// right target are left in place, and dot-directories that are not links are kept.
pub open spec fn pruning_of(prefix: Text, name: Text, found: Found, wanted: Map<Text, Text>) -> Pruning {
    let key = prefix + name;
    let target = if wanted.contains_key(key) {
        Some(wanted[key])
    } else {
        None
    };
    match found {
        Found::Link(current) => if current.deep_view() == target {
            Pruning::Keep
        } else {
            Pruning::Remove
        },
        Found::ForeignLink => Pruning::Remove,
        _ => if found is Directory && prefix.len() == 0 && holds_links(name) {
            Pruning::Descend
        } else if target is Some || !"."@.is_prefix_of(name) {
            Pruning::Remove
        } else {
            Pruning::Keep
        },
    }
}

/// Decides what is done with `found`, which stands as `name` below `prefix`.
pub fn prune(prefix: &str, name: &str, found: &Found, wanted: &Dict<String>) -> (result: Pruning)
    ensures
        result == pruning_of(prefix@, name@, *found, wanted@),
{
    let key = cat(prefix, name);
    let target = wanted.get(key.as_str());
    match found {
        Found::Link(current) => {
            let right = match (current, target) {
                (Some(current), Some(target)) => same(current.as_str(), target.as_str()),
                (None, None) => true,
                _ => false,
            };
            if right {
                Pruning::Keep
            } else {
                Pruning::Remove
            }
        },
        Found::ForeignLink => Pruning::Remove,
        _ => {
            let directory = match found {
                Found::Directory => true,
                _ => false,
            };
            if directory && prefix.is_empty() && is_container(name) {
                Pruning::Descend
            } else if target.is_some() || !starts_with(name, ".") {
                Pruning::Remove
            } else {
                Pruning::Keep
            }
        },
    }
}

/// Links that already point at the right target are left in place and others are removed, and what is
/// neither a link nor wanted is kept where its name begins with a dot, as those of caches do.
pub proof fn right_links_and_caches_stay(prefix: Text, name: Text, found: Found, wanted: Map<Text, Text>)
    ensures
        found matches Found::Link(target) ==> (pruning_of(prefix, name, found, wanted) == Pruning::Keep <==> (
        if wanted.contains_key(prefix + name) {
            target.deep_view() == Some(wanted[prefix + name])
        } else {
            target is None
        })),
        found is ForeignLink ==> pruning_of(prefix, name, found, wanted) == Pruning::Remove,
        (found is Directory || found is File) && "."@.is_prefix_of(name) && !wanted.contains_key(prefix + name) && !(prefix.len() == 0
            && holds_links(name)) ==> pruning_of(prefix, name, found, wanted) == Pruning::Keep,
        (found is Directory || found is File) && !"."@.is_prefix_of(name) && !(found is Directory && prefix.len() == 0 && holds_links(name))
            ==> pruning_of(prefix, name, found, wanted) == Pruning::Remove,
{
}

/// The package that is linked as `alias` has a binary `bin`, which is its `file`: an entry of its bin
/// object, or a single one that bears the name of the package.
pub open spec fn has_bin(packages: Map<Text, LinkedPackageView>, alias: Text, bin: Text, file: Text) -> bool {
    &&& packages.contains_key(alias)
    &&& packages[alias].manifest matches Some(manifest) && match member(manifest, "bin"@) {
        Some(JsonView::Object(files)) => files.contains((bin, JsonView::String(file))),
        Some(JsonView::String(only)) => only == file && bin == (match member(manifest, "name"@) {
            Some(JsonView::String(name)) => name,
            _ => alias,
        }),
        _ => false,
    }
}

/// `last` is `bin`, or what follows the last slash in it.
pub open spec fn is_last_part(bin: Text, last: Text) -> bool {
    !last.contains('/') && (bin == last || exists|dir: Text| bin == #[trigger] (dir + "/"@ + last))
}

/// The binary `bin` of the package linked as `alias` is linked as `link`, which leads to its file.
pub open spec fn is_bin_link(packages: Map<Text, LinkedPackageView>, alias: Text, link: Text, target: Text) -> bool {
    exists|bin: Text, last: Text, file: Text|
        has_bin(packages, alias, bin, file) && #[trigger] is_last_part(bin, last) && link == ".bin/"@ + last && target
            == #[trigger] bin_target(packages[alias].root, file)
}

/// A binary leads into its package: to the file below its root, whether or not that is written with a
/// leading `./`. Only an absolute path leads where it says.
pub proof fn targets_lead_into_package(root: Text, file: Text)
    ensures
        bin_target(root, "./"@ + file) == bin_target(root, file),
        !"./"@.is_prefix_of(file) && !"/"@.is_prefix_of(file) && root.len() > 0 && root.last() != '/' ==> bin_target(
            root,
            file,
        ) == root + "/"@ + file,
        "/"@.is_prefix_of(file) ==> bin_target(root, file) == file,
{
    reveal_strlit("./");
    reveal_strlit("/");
    let dotted = "./"@ + file;
    assert(dotted.subrange(0, 2) =~= "./"@);
    assert(dotted.skip(2) =~= file);
    if "/"@.is_prefix_of(file) {
        assert(file.subrange(0, 1)[0] == file[0]);
        if "./"@.is_prefix_of(file) {
            assert(file.subrange(0, 2)[0] == file[0]);
        }
    }
}

proof fn last_part_is(bin: Text)
    ensures
        is_last_part(bin, last_part(bin)),
        forall|last: Text| #[trigger] is_last_part(bin, last) ==> last == last_part(bin),
{
    reveal_strlit("/");
    bin.index_of_last_ensures('/');
    let part = last_part(bin);
    match bin.index_of_last('/') {
        Some(i) => {
            assert(part =~= bin.skip(i + 1));
            assert(bin =~= bin.take(i) + "/"@ + part);
            assert(!part.contains('/')) by {
                if part.contains('/') {
                    let k = choose|k: int| 0 <= k < part.len() && part[k] == '/';
                    assert(bin[i + 1 + k] == '/');
                }
            }
        },
        None => {},
    }
    assert forall|last: Text| #[trigger] is_last_part(bin, last) implies last == part by {
        if bin == last {
            cuts_give_parts(bin, bin, '/');
        } else {
            let dir = choose|dir: Text| bin == #[trigger] (dir + "/"@ + last);
            cuts_give_parts(dir, last, '/');
            assert(bin =~= dir + seq!['/'] + last);
        }
    }
}

proof fn files_are_linked(links: Map<Text, Text>, root: Text, files: Seq<(Text, JsonView)>)
    ensures
        ({
            let all = with_files(links, root, files);
            &&& forall|key: Text| #[trigger] links.contains_key(key) ==> all.contains_key(key)
            &&& forall|bin: Text, file: Text| #[trigger]
                files.contains((bin, JsonView::String(file))) ==> all.contains_key(bin_link(bin))
            &&& forall|key: Text| #[trigger]
                all.contains_key(key) ==> (links.contains_key(key) && all[key] == links[key]) || exists|bin: Text, file: Text|
                    #[trigger] files.contains((bin, JsonView::String(file))) && key == bin_link(bin) && all[key]
                        == bin_target(root, file)
            &&& forall|key: Text| #[trigger]
                all.contains_key(key) && (exists|bin: Text, file: Text| #[trigger]
                    files.contains((bin, JsonView::String(file))) && key == bin_link(bin)) ==> exists|bin: Text, file: Text|
                    #[trigger] files.contains((bin, JsonView::String(file))) && key == bin_link(bin) && all[key]
                        == bin_target(root, file)
        }),
    decreases files.len(),
{
    if files.len() > 0 {
        let shorter = files.drop_last();
        files_are_linked(links, root, shorter);
        let before = with_files(links, root, shorter);
        let all = with_files(links, root, files);
        let last = files.last();
        assert(files.contains(last));
        assert forall|m: (Text, JsonView)| #[trigger] shorter.contains(m) implies files.contains(m) by {
            let k = shorter.index_of(m);
            assert(files[k] == m);
        }
        assert forall|m: (Text, JsonView)| #[trigger] files.contains(m) implies shorter.contains(m) || m == last by {
            let k = files.index_of(m);
            if k < files.len() - 1 {
                assert(shorter[k] == m);
            }
        }
        assert forall|bin: Text, file: Text| #[trigger]
            files.contains((bin, JsonView::String(file))) implies all.contains_key(bin_link(bin)) by {
            if shorter.contains((bin, JsonView::String(file))) {
                assert(before.contains_key(bin_link(bin)));
            }
        }
        assert forall|key: Text| #[trigger] all.contains_key(key) implies (links.contains_key(key) && all[key]
            == links[key]) || exists|bin: Text, file: Text| #[trigger]
            files.contains((bin, JsonView::String(file))) && key == bin_link(bin) && all[key] == bin_target(root, file) by {
            if all[key] == before[key] && before.contains_key(key) {
                if !(links.contains_key(key) && before[key] == links[key]) {
                    let (bin, file) = choose|bin: Text, file: Text| #[trigger]
                        shorter.contains((bin, JsonView::String(file))) && key == bin_link(bin) && before[key]
                            == bin_target(root, file);
                    assert(files.contains((bin, JsonView::String(file))));
                }
            } else {
                assert(files.contains((last.0, JsonView::String(last.1->String_0))));
            }
        }
        assert forall|key: Text| #[trigger]
            all.contains_key(key) && (exists|bin: Text, file: Text| #[trigger]
                files.contains((bin, JsonView::String(file))) && key == bin_link(
                    bin,
                )) implies exists|bin: Text, file: Text| #[trigger]
            files.contains((bin, JsonView::String(file))) && key == bin_link(bin) && all[key] == bin_target(root, file) by {
            if last.1 is String && key == bin_link(last.0) {
                assert(files.contains((last.0, JsonView::String(last.1->String_0))));
            } else {
                let (bin, file) = choose|bin: Text, file: Text| #[trigger]
                    files.contains((bin, JsonView::String(file))) && key == bin_link(bin);
                assert(shorter.contains((bin, JsonView::String(file))));
                assert(before.contains_key(key));
                let (other, path) = choose|bin: Text, file: Text| #[trigger]
                    shorter.contains((bin, JsonView::String(file))) && key == bin_link(bin) && before[key]
                        == bin_target(root, file);
                assert(files.contains((other, JsonView::String(path))));
            }
        }
    }
}

/// A binary of one of `aliases` is linked as `key`.
spec fn is_bin_of(packages: Map<Text, LinkedPackageView>, aliases: Seq<Text>, key: Text) -> bool {
    exists|alias: Text, bin: Text, file: Text|
        aliases.contains(alias) && #[trigger] has_bin(packages, alias, bin, file) && key == bin_link(bin)
}

/// A binary of one of `aliases` is linked as `key` to `target`.
spec fn is_bin_at(packages: Map<Text, LinkedPackageView>, aliases: Seq<Text>, key: Text, target: Text) -> bool {
    exists|alias: Text, bin: Text, file: Text|
        aliases.contains(alias) && #[trigger] has_bin(packages, alias, bin, file) && key == bin_link(bin) && target
            == bin_target(packages[alias].root, file)
}

proof fn bins_are_linked(packages: Map<Text, LinkedPackageView>, aliases: Seq<Text>)
    requires
        forall|i: int| 0 <= i < aliases.len() ==> packages.contains_key(#[trigger] aliases[i]),
    ensures
        forall|key: Text| #[trigger]
            bin_links(packages, aliases).contains_key(key) ==> is_bin_at(
                packages,
                aliases,
                key,
                bin_links(packages, aliases)[key],
            ),
        forall|key: Text|
            is_bin_of(packages, aliases, key) ==> #[trigger] bin_links(packages, aliases).contains_key(key),
    decreases aliases.len(),
{
    if aliases.len() > 0 {
        let shorter = aliases.drop_last();
        let last = aliases.last();
        assert forall|i: int| 0 <= i < shorter.len() implies packages.contains_key(#[trigger] shorter[i]) by {
            assert(shorter[i] == aliases[i]);
        }
        bins_are_linked(packages, shorter);
        let before = bin_links(packages, shorter);
        let all = bin_links(packages, aliases);
        let package = packages[last];
        assert(packages.contains_key(aliases[aliases.len() - 1]));
        assert(aliases.contains(last));
        assert forall|alias: Text| #[trigger] shorter.contains(alias) implies aliases.contains(alias) by {
            let k = shorter.index_of(alias);
            assert(aliases[k] == alias);
        }
        assert forall|alias: Text| #[trigger] aliases.contains(alias) implies shorter.contains(alias) || alias == last by {
            let k = aliases.index_of(alias);
            if k < aliases.len() - 1 {
                assert(shorter[k] == alias);
            }
        }
        assert forall|key: Text, target: Text| #[trigger] is_bin_at(packages, shorter, key, target) implies is_bin_at(
            packages,
            aliases,
            key,
            target,
        ) by {
            let (alias, bin, file) = choose|alias: Text, bin: Text, file: Text|
                shorter.contains(alias) && #[trigger] has_bin(packages, alias, bin, file) && key == bin_link(bin) && target
                    == bin_target(packages[alias].root, file);
            assert(aliases.contains(alias) && has_bin(packages, alias, bin, file));
        }
        if let Some(manifest) = package.manifest {
            if let Some(JsonView::Object(files)) = member(manifest, "bin"@) {
                files_are_linked(before, package.root, files);
            }
        }
        assert forall|key: Text| #[trigger] all.contains_key(key) implies is_bin_at(packages, aliases, key, all[key]) by {
            if before.contains_key(key) && all[key] == before[key] {
                assert(is_bin_at(packages, shorter, key, before[key]));
            } else {
                let manifest = package.manifest->0;
                match member(manifest, "bin"@) {
                    Some(JsonView::Object(files)) => {
                        let (bin, file) = choose|bin: Text, file: Text| #[trigger]
                            files.contains((bin, JsonView::String(file))) && key == bin_link(bin) && all[key]
                                == bin_target(package.root, file);
                        assert(has_bin(packages, last, bin, file));
                    },
                    Some(JsonView::String(file)) => {
                        let name = match text_member(manifest, "name"@) {
                            Some(name) => name,
                            None => last,
                        };
                        assert(has_bin(packages, last, name, file));
                    },
                    _ => {},
                }
            }
        }
        assert forall|key: Text| is_bin_of(packages, aliases, key) implies #[trigger] all.contains_key(key) by {
            let (alias, bin, file) = choose|alias: Text, bin: Text, file: Text|
                aliases.contains(alias) && #[trigger] has_bin(packages, alias, bin, file) && key == bin_link(bin);
            if alias == last {
                let manifest = package.manifest->0;
                if let Some(JsonView::Object(files)) = member(manifest, "bin"@) {
                    assert(files.contains((bin, JsonView::String(file))));
                }
            } else {
                assert(shorter.contains(alias) && has_bin(packages, alias, bin, file));
                assert(is_bin_of(packages, shorter, key));
                assert(before.contains_key(key));
            }
        }
    }
}

/// Every package is linked to where it is, Node.js is linked if there is one, and so is every binary of
/// every package, by the last part of its name, to its file. Nothing else is linked. Where several
/// things have the same link, packages count before Node.js and that before binaries, and it leads to
/// what one of them is.
pub proof fn everything_is_linked(packages: Map<Text, LinkedPackageView>, node: Option<Text>)
    requires
        packages.dom().finite(),
    ensures
        forall|alias: Text| #[trigger]
            packages.contains_key(alias) ==> wanted_links(packages, node).contains_key(alias) && wanted_links(
                packages,
                node,
            )[alias] == packages[alias].root,
        node is Some ==> wanted_links(packages, node).contains_key(".bin/node"@),
        node is Some && !packages.contains_key(".bin/node"@) ==> wanted_links(packages, node)[".bin/node"@] == node->0,
        forall|alias: Text, bin: Text, file: Text, last: Text|
            #[trigger] has_bin(packages, alias, bin, file) && #[trigger] is_last_part(bin, last) ==> wanted_links(
                packages,
                node,
            ).contains_key(".bin/"@ + last),
        forall|link: Text| #[trigger]
            wanted_links(packages, node).contains_key(link) && !packages.contains_key(link) && !(node is Some && link
                == ".bin/node"@) ==> exists|alias: Text| #[trigger]
                is_bin_link(packages, alias, link, wanted_links(packages, node)[link]),
{
    let aliases = sorted(packages.dom());
    sorted_properties(packages.dom());
    let bins = bin_links(packages, aliases);
    let all = wanted_links(packages, node);
    assert forall|i: int| 0 <= i < aliases.len() implies packages.contains_key(#[trigger] aliases[i]) by {
        assert(aliases.contains(aliases[i]));
    }
    bins_are_linked(packages, aliases);
    assert forall|alias: Text, bin: Text, file: Text, last: Text|
        #[trigger] has_bin(packages, alias, bin, file) && #[trigger] is_last_part(bin, last) implies all.contains_key(
        ".bin/"@ + last,
    ) by {
        last_part_is(bin);
        assert(aliases.contains(alias));
        assert(is_bin_of(packages, aliases, bin_link(bin)));
        assert(bins.contains_key(bin_link(bin)));
    }
    assert forall|link: Text| #[trigger]
        all.contains_key(link) && !packages.contains_key(link) && !(node is Some && link
            == ".bin/node"@) implies exists|alias: Text| #[trigger] is_bin_link(packages, alias, link, all[link]) by {
        assert(bins.contains_key(link) && all[link] == bins[link]);
        let (alias, bin, file) = choose|alias: Text, bin: Text, file: Text|
            aliases.contains(alias) && #[trigger] has_bin(packages, alias, bin, file) && link == bin_link(bin)
                && bins[link] == bin_target(packages[alias].root, file);
        last_part_is(bin);
        assert(is_last_part(bin, last_part(bin)));
        assert(is_bin_link(packages, alias, link, all[link]));
    }
}

} // verus!
