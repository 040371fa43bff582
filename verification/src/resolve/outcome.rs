//! A resolved lock holds what the projects and their packages asked for.
use vstd::prelude::*;

use crate::dict::{sorted, sorted_properties};
use crate::lock::{ImporterView, PackageView, SpecifiersView};
use crate::registry::{PackumentView, Registry, VersionManifestView};
use crate::resolve::choices::{
    are_finite, asks, choices_are_complete, choices_are_right, gets, given, given_for_any, given_is_known, gives_known,
    got_all_required, got_all_there_is, got_what_was_asked, is_answer, is_finite_packument, keys_are_names,
    may_be_left_out, node_asks, target,
};
use crate::resolve::chooser::{first_state, Answer, Edge, GroupsView, NodeView, OriginView};
use crate::resolve::overrides::{configured, EntryView};
use crate::resolve::peers::{built_packages, Stage};
use crate::resolve::references::ancestors::{
    found_at, have_one_name, keys_are_plain, peers_come_from_importer, share_peer,
};
use crate::resolve::references::{
    are_packages_of, built_packages_stand, groups_finite, has_packages_of, is_package_of, is_required_peer,
    keys_unbracketed,
};
use crate::resolve::{
    linked_path, locked_importers, named_projects, parted, parted_projects, parted_specifiers, projects_are_found,
    resolution, ProjectView,
};
use crate::text::{without_prefix, Text};
use crate::time::Timestamp;

verus! {

/// The package `id` is a version of what `spec` asks for under `alias`, once overrides have been
/// applied, by what is `known` of its tags.
pub open spec fn fits(
    packages: Map<Text, PackageView>,
    overrides: Seq<EntryView>,
    known: Set<(Text, PackumentView)>,
    alias: Text,
    spec: Text,
    id: Text,
) -> bool {
    &&& packages.contains_key(id)
    &&& target(overrides, alias, spec) matches Some((name, range)) && is_answer(
        known,
        name,
        range,
        packages[id].name + "@"@ + packages[id].version,
    )
}

/// Every dependency in `specs` is a package that fits, or a link to another project.
pub open spec fn required_fit(
    packages: Map<Text, PackageView>,
    overrides: Seq<EntryView>,
    known: Set<(Text, PackumentView)>,
    specs: Map<Text, Text>,
    ids: Map<Text, Text>,
    links: Map<Text, Text>,
) -> bool {
    forall|alias: Text| #[trigger]
        specs.contains_key(alias) ==> if "workspace:"@.is_prefix_of(specs[alias]) {
            links.contains_key(alias)
        } else {
            ids.contains_key(alias) && fits(packages, overrides, known, alias, specs[alias], ids[alias])
        }
}

/// Whatever is there of the dependencies in `specs` fits, and there is nothing else.
pub open spec fn present_fit(
    packages: Map<Text, PackageView>,
    overrides: Seq<EntryView>,
    known: Set<(Text, PackumentView)>,
    specs: Map<Text, Text>,
    ids: Map<Text, Text>,
) -> bool {
    forall|alias: Text| #[trigger]
        ids.contains_key(alias) ==> specs.contains_key(alias) && fits(
            packages,
            overrides,
            known,
            alias,
            specs[alias],
            ids[alias],
        )
}

/// Every optional dependency in `specs` is there, unless it may be left out, or is a link to another
/// project.
pub open spec fn optional_fit(
    overrides: Seq<EntryView>,
    known: Set<(Text, PackumentView)>,
    cutoff: Option<Timestamp>,
    specs: Map<Text, Text>,
    ids: Map<Text, Text>,
    links: Map<Text, Text>,
) -> bool {
    forall|alias: Text| #[trigger]
        specs.contains_key(alias) ==> ids.contains_key(alias) || if "workspace:"@.is_prefix_of(specs[alias]) {
            links.contains_key(alias)
        } else {
            may_be_left_out(overrides, known, cutoff, alias, specs[alias])
        }
}

/// Every optional dependency that `manifest` asks for is in `package`, unless it may be left out.
pub open spec fn has_optional(
    overrides: Seq<EntryView>,
    known: Set<(Text, PackumentView)>,
    cutoff: Option<Timestamp>,
    package: PackageView,
    manifest: VersionManifestView,
) -> bool {
    forall|alias: Text| #[trigger]
        manifest.optional_dependencies.contains_key(alias) ==> package.optional_deps.contains_key(alias)
            || may_be_left_out(overrides, known, cutoff, alias, manifest.optional_dependencies[alias])
}

/// `manifest` asks for the peer `name`, which is neither optional nor a dependency as well.
pub open spec fn asks_for_peer(manifest: VersionManifestView, name: Text) -> bool {
    &&& manifest.peer_dependencies.contains_key(name)
    &&& !manifest.dependencies.contains_key(name)
    &&& !manifest.optional_dependencies.contains_key(name)
    &&& !(manifest.peer_dependencies_meta.contains_key(name) && manifest.peer_dependencies_meta[name].optional)
}

/// Every peer that `manifest` requires is in `package`, unless it may be left out.
pub open spec fn has_peers(
    overrides: Seq<EntryView>,
    known: Set<(Text, PackumentView)>,
    cutoff: Option<Timestamp>,
    package: PackageView,
    manifest: VersionManifestView,
) -> bool {
    forall|name: Text| #[trigger]
        asks_for_peer(manifest, name) ==> package.deps.contains_key(name) || may_be_left_out(
            overrides,
            known,
            cutoff,
            name,
            manifest.peer_dependencies[name],
        )
}

/// `package` is a version that one of the packuments gives that are `known` of its name, and has
/// whatever that asks for, unless it is optional or a peer and may be left out.
pub open spec fn package_is_complete(
    packages: Map<Text, PackageView>,
    overrides: Seq<EntryView>,
    known: Set<(Text, PackumentView)>,
    cutoff: Option<Timestamp>,
    package: PackageView,
) -> bool {
    exists|p: PackumentView| #[trigger]
        known.contains((package.name, p)) && p.versions.contains_key(package.version) && (
        p.versions[package.version].manifest matches Some(manifest) && is_made_of(
            packages,
            overrides,
            known,
            package,
            manifest,
        ) && has_optional(overrides, known, cutoff, package, manifest) && has_peers(
            overrides,
            known,
            cutoff,
            package,
            manifest,
        ))
}

/// `importer` has what `specifiers` ask for.
pub open spec fn importer_fits(
    packages: Map<Text, PackageView>,
    overrides: Seq<EntryView>,
    known: Set<(Text, PackumentView)>,
    specifiers: SpecifiersView,
    importer: ImporterView,
) -> bool {
    let (a, b, c) = (importer.dependencies, importer.dev_dependencies, importer.optional_dependencies);
    &&& required_fit(packages, overrides, known, specifiers.dependencies, a, importer.links)
    &&& required_fit(packages, overrides, known, specifiers.dev_dependencies, b, importer.links)
    &&& present_fit(packages, overrides, known, specifiers.dependencies, a)
    &&& present_fit(packages, overrides, known, specifiers.dev_dependencies, b)
    &&& present_fit(packages, overrides, known, specifiers.optional_dependencies, c)
}

/// `package` is the version whose manifest is `manifest`, and has what that asks for. Its peers
/// depend on what stands around it.
pub open spec fn is_made_of(
    packages: Map<Text, PackageView>,
    overrides: Seq<EntryView>,
    known: Set<(Text, PackumentView)>,
    package: PackageView,
    manifest: VersionManifestView,
) -> bool {
    &&& package.url == manifest.dist.tarball
    &&& manifest.dist.integrity == Some(package.integrity)
    &&& package.os == manifest.os && package.cpu == manifest.cpu && package.libc == manifest.libc
    &&& package.has_bin == manifest.provides_bin()
    &&& package.install_script == manifest.has_install_script
    &&& forall|alias: Text| #[trigger]
        manifest.dependencies.contains_key(alias) && !manifest.optional_dependencies.contains_key(alias)
            ==> package.deps.contains_key(alias) && fits(
            packages,
            overrides,
            known,
            alias,
            manifest.dependencies[alias],
            package.deps[alias],
        )
    &&& present_fit(packages, overrides, known, manifest.optional_dependencies, package.optional_deps)
}

/// `package` is a version that one of the packuments gives that are `known` of its name, and has what
/// that asks for.
pub open spec fn package_fits(
    packages: Map<Text, PackageView>,
    overrides: Seq<EntryView>,
    known: Set<(Text, PackumentView)>,
    package: PackageView,
) -> bool {
    exists|p: PackumentView| #[trigger]
        known.contains((package.name, p)) && p.versions.contains_key(package.version) && (
        p.versions[package.version].manifest matches Some(manifest) && is_made_of(
            packages,
            overrides,
            known,
            package,
            manifest,
        ))
}

/// The versions that are chosen for the projects and what they lead to.
pub open spec fn chosen_nodes<R: Registry>(
    projects: Map<Text, ProjectView>,
    registry: R,
    preferred: Seq<(Text, Text)>,
    cutoff: Option<Timestamp>,
    overrides: Map<Text, Text>,
    answers: Seq<Answer>,
) -> Map<Text, NodeView> {
    let paths = sorted(projects.dom());
    match (named_projects(paths, projects, Map::empty()), configured(sorted(overrides.dom()), overrides)) {
        (Ok(names), Ok(entries)) => match parted_projects(names, projects, paths) {
            Ok((specifiers, _)) => match first_state(preferred, entries).chooses(registry, specifiers, answers, cutoff) {
                Some(Ok((state, _))) => state.nodes,
                _ => Map::empty(),
            },
            Err(_) => Map::empty(),
        },
        _ => Map::empty(),
    }
}

/// A project has finitely many dependencies.
pub open spec fn is_finite_project(project: ProjectView) -> bool {
    &&& project.specifiers.dependencies.dom().finite()
    &&& project.specifiers.dev_dependencies.dom().finite()
    &&& project.specifiers.optional_dependencies.dom().finite()
}

proof fn parted_all(
    names: Map<Text, Text>,
    projects: Map<Text, ProjectView>,
    from: Text,
    deps: Map<Text, Text>,
    aliases: Seq<Text>,
    registry: Map<Text, Text>,
    links: Map<Text, Text>,
)
    requires
        registry.dom().finite(),
        forall|alias: Text| #[trigger] registry.contains_key(alias) ==> registry[alias] == deps[alias],
    ensures
        parted(names, projects, from, deps, aliases, registry, links) matches Ok((kept, linked)) ==> {
            &&& kept.dom().finite()
            &&& forall|alias: Text| #[trigger]
                kept.contains_key(alias) ==> kept[alias] == deps[alias] && (registry.contains_key(alias)
                    || aliases.contains(alias))
            &&& forall|alias: Text| #[trigger] links.contains_key(alias) ==> linked.contains_key(alias)
            &&& forall|alias: Text| #[trigger] registry.contains_key(alias) ==> kept.contains_key(alias)
            &&& forall|alias: Text| #[trigger]
                aliases.contains(alias) ==> if "workspace:"@.is_prefix_of(deps[alias]) {
                    linked.contains_key(alias)
                } else {
                    kept.contains_key(alias)
                }
        },
    decreases aliases.len(),
{
    if aliases.len() > 0 {
        let alias = aliases[0];
        let rest = aliases.skip(1);
        assert(aliases.contains(alias));
        assert forall|a: Text| #[trigger] aliases.contains(a) implies rest.contains(a) || a == alias by {
            let i = aliases.index_of(a);
            if i > 0 {
                assert(rest[i - 1] == a);
            }
        }
        assert forall|a: Text| #[trigger] rest.contains(a) implies aliases.contains(a) by {
            let i = rest.index_of(a);
            assert(aliases[i + 1] == a);
        }
        match without_prefix(deps[alias], "workspace:"@) {
            Some(spec) => {
                if let Ok(path) = linked_path(names, projects, from, alias, spec) {
                    let more = links.insert(alias, path);
                    parted_all(names, projects, from, deps, rest, registry, more);
                    assert(more.contains_key(alias));
                    assert forall|a: Text| #[trigger] links.contains_key(a) implies more.contains_key(a) by {}
                }
            },
            None => {
                let more = registry.insert(alias, deps[alias]);
                parted_all(names, projects, from, deps, rest, more, links);
                assert(more.contains_key(alias));
                assert forall|a: Text| #[trigger] registry.contains_key(a) implies more.contains_key(a) by {}
            },
        }
    }
}

/// `kept` and `linked` are the dependencies in `specs`, parted.
spec fn are_parts(specs: Map<Text, Text>, kept: Map<Text, Text>, linked: Map<Text, Text>) -> bool {
    &&& kept.dom().finite()
    &&& forall|alias: Text| #[trigger]
        kept.contains_key(alias) ==> specs.contains_key(alias) && kept[alias] == specs[alias]
    &&& forall|alias: Text| #[trigger]
        specs.contains_key(alias) ==> if "workspace:"@.is_prefix_of(specs[alias]) {
            linked.contains_key(alias)
        } else {
            kept.contains_key(alias)
        }
}

proof fn group_parts(
    names: Map<Text, Text>,
    projects: Map<Text, ProjectView>,
    from: Text,
    deps: Map<Text, Text>,
    links: Map<Text, Text>,
)
    requires
        deps.dom().finite(),
    ensures
        parted(names, projects, from, deps, sorted(deps.dom()), Map::empty(), links) matches Ok((kept, linked)) ==> {
            &&& are_parts(deps, kept, linked)
            &&& forall|alias: Text| #[trigger] links.contains_key(alias) ==> linked.contains_key(alias)
        },
{
    let aliases = sorted(deps.dom());
    sorted_properties(deps.dom());
    parted_all(names, projects, from, deps, aliases, Map::empty(), links);
    if let Ok((kept, linked)) = parted(names, projects, from, deps, aliases, Map::empty(), links) {
        assert forall|alias: Text| #[trigger] kept.contains_key(alias) implies deps.contains_key(alias) by {
            assert(aliases.contains(alias));
        }
        assert forall|alias: Text| #[trigger] deps.contains_key(alias) implies if "workspace:"@.is_prefix_of(
            deps[alias],
        ) {
            linked.contains_key(alias)
        } else {
            kept.contains_key(alias)
        } by {
            assert(aliases.contains(alias));
        }
    }
}

spec fn project_parts(specifiers: SpecifiersView, kept: SpecifiersView, linked: Map<Text, Text>) -> bool {
    &&& are_parts(specifiers.dependencies, kept.dependencies, linked)
    &&& are_parts(specifiers.dev_dependencies, kept.dev_dependencies, linked)
    &&& are_parts(specifiers.optional_dependencies, kept.optional_dependencies, linked)
}

proof fn specifiers_parts(
    names: Map<Text, Text>,
    projects: Map<Text, ProjectView>,
    from: Text,
    specifiers: SpecifiersView,
)
    requires
        specifiers.dependencies.dom().finite(),
        specifiers.dev_dependencies.dom().finite(),
        specifiers.optional_dependencies.dom().finite(),
    ensures
        parted_specifiers(names, projects, from, specifiers) matches Ok((kept, linked)) ==> project_parts(
            specifiers,
            kept,
            linked,
        ),
{
    let (a, b, c) = (specifiers.dependencies, specifiers.dev_dependencies, specifiers.optional_dependencies);
    group_parts(names, projects, from, a, Map::empty());
    if let Ok((_, links)) = parted(names, projects, from, a, sorted(a.dom()), Map::empty(), Map::empty()) {
        group_parts(names, projects, from, b, links);
        if let Ok((_, links)) = parted(names, projects, from, b, sorted(b.dom()), Map::empty(), links) {
            group_parts(names, projects, from, c, links);
        }
    }
}

proof fn projects_parts(names: Map<Text, Text>, projects: Map<Text, ProjectView>, paths: Seq<Text>)
    requires
        forall|i: int| 0 <= i < paths.len() ==> is_finite_project(projects[#[trigger] paths[i]]),
    ensures
        parted_projects(names, projects, paths) matches Ok((specifiers, links)) ==> {
            &&& specifiers.len() == paths.len()
            &&& links.len() == paths.len()
            &&& forall|i: int|
                0 <= i < paths.len() ==> project_parts(
                    projects[#[trigger] paths[i]].specifiers,
                    specifiers[i],
                    links[i],
                )
        },
    decreases paths.len(),
{
    if paths.len() > 0 {
        let n = paths.len() - 1;
        let shorter = paths.drop_last();
        assert forall|i: int| 0 <= i < shorter.len() implies is_finite_project(projects[#[trigger] shorter[i]]) by {
            assert(shorter[i] == paths[i]);
        }
        projects_parts(names, projects, shorter);
        assert(is_finite_project(projects[paths[n]]));
        specifiers_parts(names, projects, paths[n], projects[paths[n]].specifiers);
        if let Ok((specifiers, links)) = parted_projects(names, projects, paths) {
            assert forall|i: int| 0 <= i < paths.len() implies project_parts(
                projects[#[trigger] paths[i]].specifiers,
                specifiers[i],
                links[i],
            ) by {
                if i < n {
                    assert(shorter[i] == paths[i]);
                }
            }
        }
    }
}

proof fn importer_at(
    projects: Map<Text, ProjectView>,
    paths: Seq<Text>,
    links: Seq<Map<Text, Text>>,
    ids: Seq<GroupsView>,
    i: int,
)
    requires
        paths.no_duplicates(),
        0 <= i < paths.len(),
    ensures
        locked_importers(projects, paths, links, ids).contains_key(paths[i]),
        locked_importers(projects, paths, links, ids)[paths[i]] == (ImporterView {
            dependencies: ids[i].dependencies,
            dev_dependencies: ids[i].dev_dependencies,
            optional_dependencies: ids[i].optional_dependencies,
            links: links[i],
            specifiers: projects[paths[i]].specifiers,
        }),
    decreases paths.len(),
{
    let n = paths.len() - 1;
    if i < n {
        assert(paths.drop_last()[i] == paths[i]);
        assert(paths[i] != paths[n]);
        importer_at(projects, paths.drop_last(), links, ids, i);
    }
}

/// What is chosen for the dependencies `kept` by way of `edge` is packaged as `ids`.
proof fn group_fits(
    importers: Seq<SpecifiersView>,
    nodes: Map<Text, NodeView>,
    groups: Seq<GroupsView>,
    overrides: Seq<EntryView>,
    known: Set<(Text, PackumentView)>,
    packages: Map<Text, PackageView>,
    ids: Map<Text, Text>,
    from: OriginView,
    edge: Edge,
    specs: Map<Text, Text>,
    linked: Map<Text, Text>,
    cutoff: Option<Timestamp>,
)
    requires
        got_what_was_asked(importers, nodes, groups, overrides, known),
        keys_are_names(nodes),
        are_packages_of(packages, ids, nodes, gets(groups, nodes, from, edge)),
        are_parts(specs, asks(importers, nodes, from, edge), linked),
        got_all_required(importers, nodes, groups),
        got_all_there_is(importers, nodes, groups, overrides, known, cutoff),
    ensures
        present_fit(packages, overrides, known, specs, ids),
        edge == Edge::Optional ==> optional_fit(overrides, known, cutoff, specs, ids, linked),
        edge == Edge::Dependency ==> required_fit(packages, overrides, known, specs, ids, linked),
{
    let kept = asks(importers, nodes, from, edge);
    let got = gets(groups, nodes, from, edge);
    assert forall|alias: Text| #[trigger] ids.contains_key(alias) implies specs.contains_key(alias) && fits(
        packages,
        overrides,
        known,
        alias,
        specs[alias],
        ids[alias],
    ) by {
        assert(gets(groups, nodes, from, edge).contains_key(alias));
        assert(kept.contains_key(alias));
        assert(is_package_of(packages, ids[alias], nodes[got[alias]]));
    }
    if edge == Edge::Optional {
        assert forall|alias: Text| #[trigger] specs.contains_key(alias) implies ids.contains_key(alias)
            || if "workspace:"@.is_prefix_of(specs[alias]) {
            linked.contains_key(alias)
        } else {
            may_be_left_out(overrides, known, cutoff, alias, specs[alias])
        } by {
            if !"workspace:"@.is_prefix_of(specs[alias]) {
                assert(asks(importers, nodes, from, edge).contains_key(alias));
                if got.contains_key(alias) {
                    assert(got.dom().contains(alias));
                    assert(ids.contains_key(alias));
                }
            }
        }
    }
    if edge == Edge::Dependency {
        assert forall|alias: Text| #[trigger] specs.contains_key(alias) implies if "workspace:"@.is_prefix_of(
            specs[alias],
        ) {
            linked.contains_key(alias)
        } else {
            ids.contains_key(alias) && fits(packages, overrides, known, alias, specs[alias], ids[alias])
        } by {
            if !"workspace:"@.is_prefix_of(specs[alias]) {
                assert(asks(importers, nodes, from, Edge::Dependency).contains_key(alias));
                assert(got.dom().contains(alias));
                assert(ids.contains_key(alias));
            }
        }
    }
}

proof fn package_fits_its_node(
    importers: Seq<SpecifiersView>,
    nodes: Map<Text, NodeView>,
    groups: Seq<GroupsView>,
    overrides: Seq<EntryView>,
    known: Set<(Text, PackumentView)>,
    packages: Map<Text, PackageView>,
    id: Text,
    key: Text,
    cutoff: Option<Timestamp>,
)
    requires
        got_what_was_asked(importers, nodes, groups, overrides, known),
        got_all_required(importers, nodes, groups),
        got_all_there_is(importers, nodes, groups, overrides, known, cutoff),
        keys_are_names(nodes),
        is_package_of(packages, id, nodes[key]),
        nodes.contains_key(key),
        has_packages_of(packages, packages[id], nodes, nodes[key]),
    ensures
        is_made_of(packages, overrides, known, packages[id], nodes[key].manifest),
        has_optional(overrides, known, cutoff, packages[id], nodes[key].manifest),
        has_peers(overrides, known, cutoff, packages[id], nodes[key].manifest),
{
    let node = nodes[key];
    let manifest = node.manifest;
    let package = packages[id];
    let from = OriginView::Node(key);
    assert forall|alias: Text| node.optional_deps.contains_key(alias) implies #[trigger] manifest.optional_dependencies.contains_key(
        alias,
    ) by {
        assert(gets(groups, nodes, from, Edge::Optional).contains_key(alias));
    }
    assert forall|alias: Text| #[trigger]
        manifest.dependencies.contains_key(alias) && !manifest.optional_dependencies.contains_key(
            alias,
        ) implies package.deps.contains_key(alias) && fits(
        packages,
        overrides,
        known,
        alias,
        manifest.dependencies[alias],
        package.deps[alias],
    ) by {
        assert(node_asks(node, Edge::Dependency).contains_key(alias));
        assert(asks(importers, nodes, from, Edge::Dependency).contains_key(alias));
        assert(gets(groups, nodes, from, Edge::Dependency).contains_key(alias));
        assert(node.deps.contains_key(alias));
        assert(!node.optional_deps.contains_key(alias));
        assert(!node.peers.contains_key(alias));
        assert(is_package_of(packages, package.deps[alias], nodes[node.deps[alias]]));
    }
    assert forall|alias: Text| #[trigger] manifest.optional_dependencies.contains_key(
        alias,
    ) implies package.optional_deps.contains_key(alias) || may_be_left_out(
        overrides,
        known,
        cutoff,
        alias,
        manifest.optional_dependencies[alias],
    ) by {
        assert(asks(importers, nodes, from, Edge::Optional).contains_key(alias));
        if gets(groups, nodes, from, Edge::Optional).contains_key(alias) {
            assert(node.optional_deps.contains_key(alias));
            assert(!node.peers.contains_key(alias));
        }
    }
    assert forall|name: Text| #[trigger] asks_for_peer(manifest, name) implies package.deps.contains_key(name)
        || may_be_left_out(overrides, known, cutoff, name, manifest.peer_dependencies[name]) by {
        assert(node.peers.contains_key(name) && !node.peers[name]);
        assert(node_asks(node, Edge::Peer).contains_key(name));
        assert(asks(importers, nodes, from, Edge::Peer).contains_key(name));
        if gets(groups, nodes, from, Edge::Peer).contains_key(name) {
            assert(is_required_peer(node, name));
            assert(!node.optional_deps.contains_key(name)) by {
                if node.optional_deps.contains_key(name) {
                    assert(gets(groups, nodes, from, Edge::Optional).contains_key(name));
                }
            }
        }
    }
    assert forall|alias: Text| #[trigger]
        package.optional_deps.contains_key(alias) implies manifest.optional_dependencies.contains_key(alias) && fits(
        packages,
        overrides,
        known,
        alias,
        manifest.optional_dependencies[alias],
        package.optional_deps[alias],
    ) by {
        assert(package.optional_deps.dom().contains(alias));
        assert(node.optional_deps.contains_key(alias));
        assert(gets(groups, nodes, from, Edge::Optional).contains_key(alias));
        assert(!node.peers.contains_key(alias));
        assert(is_package_of(packages, package.optional_deps[alias], nodes[node.optional_deps[alias]]));
    }
}

proof fn groups_are_finite(nodes: Map<Text, NodeView>, importers: Seq<SpecifiersView>, groups: Seq<GroupsView>)
    requires
        are_finite(importers),
        groups.len() == importers.len(),
        forall|from: OriginView, edge: Edge, alias: Text| #[trigger]
            gets(groups, nodes, from, edge).contains_key(alias) ==> asks(importers, nodes, from, edge).contains_key(
                alias,
            ),
    ensures
        forall|i: int| 0 <= i < groups.len() ==> groups_finite(#[trigger] groups[i]),
{
    assert forall|i: int| 0 <= i < groups.len() implies groups_finite(#[trigger] groups[i]) by {
        let (a, b, c) = (
            OriginView::Importer { index: i, group: 0 },
            OriginView::Importer { index: i, group: 1 },
            OriginView::Importer { index: i, group: 2 },
        );
        let importer = importers[i];
        assert forall|alias: Text| #[trigger] groups[i].dependencies.contains_key(
            alias,
        ) implies importer.dependencies.contains_key(alias) by {
            assert(gets(groups, nodes, a, Edge::Dependency).contains_key(alias));
        }
        assert forall|alias: Text| #[trigger] groups[i].dev_dependencies.contains_key(
            alias,
        ) implies importer.dev_dependencies.contains_key(alias) by {
            assert(gets(groups, nodes, b, Edge::Dependency).contains_key(alias));
        }
        assert forall|alias: Text| #[trigger] groups[i].optional_dependencies.contains_key(
            alias,
        ) implies importer.optional_dependencies.contains_key(alias) by {
            assert(gets(groups, nodes, c, Edge::Optional).contains_key(alias));
        }
        assert(groups[i].dependencies.dom().subset_of(importer.dependencies.dom()));
        assert(groups[i].dev_dependencies.dom().subset_of(importer.dev_dependencies.dom()));
        assert(groups[i].optional_dependencies.dom().subset_of(importer.optional_dependencies.dom()));
        vstd::set_lib::lemma_len_subset(groups[i].dependencies.dom(), importer.dependencies.dom());
        vstd::set_lib::lemma_len_subset(groups[i].dev_dependencies.dom(), importer.dev_dependencies.dom());
        vstd::set_lib::lemma_len_subset(groups[i].optional_dependencies.dom(), importer.optional_dependencies.dom());
    }
}

/// In a resolved lock, every project and every package has what it asks for: a package of a version that
/// fits, or for a project a link to another one. Only an optional dependency or a peer may be left out, and
/// only where its specifier cannot be understood, or where a packument that the registry gave for that
/// package has no released version that fits. Only where the name or the version of a package held an
/// opening bracket could two packages share an id, and one of them stand for the other.
pub proof fn resolution_is_complete<R: Registry>(
    projects: Map<Text, ProjectView>,
    registry: R,
    preferred: Seq<(Text, Text)>,
    cutoff: Option<Timestamp>,
    overrides: Map<Text, Text>,
    answers: Seq<Answer>,
    fuel: nat,
    known: Set<(Text, PackumentView)>,
)
    requires
        projects.dom().finite(),
        forall|path: Text| #[trigger] projects.contains_key(path) ==> is_finite_project(projects[path]),
        gives_known(registry, answers, known),
        forall|given: (Text, PackumentView)| #[trigger] known.contains(given) ==> is_finite_packument(given.1),
        keys_unbracketed(chosen_nodes(projects, registry, preferred, cutoff, overrides, answers)),
    ensures
        resolution(projects, registry, preferred, cutoff, overrides, answers, fuel) matches Some(Ok((lock, _))) ==> (
        configured(sorted(overrides.dom()), overrides) matches Ok(entries) && {
            &&& forall|path: Text| #[trigger]
                projects.contains_key(path) ==> lock.importers.contains_key(path) && importer_fits(
                    lock.packages,
                    entries,
                    known,
                    projects[path].specifiers,
                    lock.importers[path],
                ) && optional_fit(
                    entries,
                    known,
                    cutoff,
                    projects[path].specifiers.optional_dependencies,
                    lock.importers[path].optional_dependencies,
                    lock.importers[path].links,
                )
            &&& forall|id: Text| #[trigger]
                lock.packages.contains_key(id) ==> package_is_complete(
                    lock.packages,
                    entries,
                    known,
                    cutoff,
                    lock.packages[id],
                )
        }),
{
    let paths = sorted(projects.dom());
    sorted_properties(projects.dom());
    if let Some(Ok((lock, _))) = resolution(projects, registry, preferred, cutoff, overrides, answers, fuel) {
        let names = named_projects(paths, projects, Map::empty())->Ok_0;
        let (importers, links) = parted_projects(names, projects, paths)->Ok_0;
        let entries = configured(sorted(overrides.dom()), overrides)->Ok_0;
        let chosen = first_state(preferred, entries).chooses(registry, importers, answers, cutoff);
        let (state, groups) = chosen->0->Ok_0;
        let nodes = state.nodes;
        let (packages, ids) = built_packages(nodes, groups, fuel)->0->Ok_0;
        assert forall|i: int| 0 <= i < paths.len() implies is_finite_project(projects[#[trigger] paths[i]]) by {
            assert(paths.contains(paths[i]));
        }
        projects_parts(names, projects, paths);
        assert(are_finite(importers)) by {
            assert forall|i: int| 0 <= i < importers.len() implies (#[trigger] importers[i]).dependencies.dom().finite()
                && importers[i].dev_dependencies.dom().finite() && importers[i].optional_dependencies.dom().finite() by {
                assert(project_parts(projects[paths[i]].specifiers, importers[i], links[i]));
            }
        }
        choices_are_complete(registry, importers, preferred, entries, answers, cutoff, known);
        groups_are_finite(nodes, importers, groups);
        built_packages_stand(nodes, groups, fuel);
        assert forall|path: Text| #[trigger] projects.contains_key(path) implies lock.importers.contains_key(path)
            && importer_fits(packages, entries, known, projects[path].specifiers, lock.importers[path]) && optional_fit(
            entries,
            known,
            cutoff,
            projects[path].specifiers.optional_dependencies,
            lock.importers[path].optional_dependencies,
            lock.importers[path].links,
        ) by {
            assert(paths.contains(path));
            let i = paths.index_of(path);
            importer_at(projects, paths, links, ids, i);
            let specifiers = projects[path].specifiers;
            assert(project_parts(projects[paths[i]].specifiers, importers[i], links[i]));
            let (a, b, c) = (
                OriginView::Importer { index: i, group: 0 },
                OriginView::Importer { index: i, group: 1 },
                OriginView::Importer { index: i, group: 2 },
            );
            assert(are_packages_of(packages, ids[i].dependencies, nodes, groups[i].dependencies));
            group_fits(
                importers,
                nodes,
                groups,
                entries,
                known,
                packages,
                ids[i].dependencies,
                a,
                Edge::Dependency,
                specifiers.dependencies,
                links[i],
                cutoff,
            );
            group_fits(
                importers,
                nodes,
                groups,
                entries,
                known,
                packages,
                ids[i].dev_dependencies,
                b,
                Edge::Dependency,
                specifiers.dev_dependencies,
                links[i],
                cutoff,
            );
            group_fits(
                importers,
                nodes,
                groups,
                entries,
                known,
                packages,
                ids[i].optional_dependencies,
                c,
                Edge::Optional,
                specifiers.optional_dependencies,
                links[i],
                cutoff,
            );
        }
        assert forall|id: Text| #[trigger] packages.contains_key(id) implies package_is_complete(
            packages,
            entries,
            known,
            cutoff,
            packages[id],
        ) by {
            let key = choose|key: Text| #[trigger]
                nodes.contains_key(key) && is_package_of(packages, id, nodes[key]) && has_packages_of(
                    packages,
                    packages[id],
                    nodes,
                    nodes[key],
                );
            package_fits_its_node(importers, nodes, groups, entries, known, packages, id, key, cutoff);
            let p = choose|p: PackumentView| #[trigger]
                known.contains((nodes[key].name, p)) && p.versions.contains_key(nodes[key].version)
                    && p.versions[nodes[key].version].manifest == Some(nodes[key].manifest);
            assert(known.contains((packages[id].name, p)));
        }
    }
}

/// In a resolved lock, every project has what it requires: a package of a version that it asks for, or
/// a link to another project. Every package has what its manifest requires, and whatever is there of
/// optional dependencies is what was asked for. Only where the name or the version of a package held
/// an opening bracket could two packages share an id, and one of them stand for the other.
pub proof fn resolution_is_right<R: Registry>(
    projects: Map<Text, ProjectView>,
    registry: R,
    preferred: Seq<(Text, Text)>,
    cutoff: Option<Timestamp>,
    overrides: Map<Text, Text>,
    answers: Seq<Answer>,
    fuel: nat,
)
    requires
        projects.dom().finite(),
        forall|path: Text| #[trigger] projects.contains_key(path) ==> is_finite_project(projects[path]),
        forall|p: PackumentView| #[trigger] given(answers).contains(p) ==> is_finite_packument(p),
        keys_unbracketed(chosen_nodes(projects, registry, preferred, cutoff, overrides, answers)),
    ensures
        resolution(projects, registry, preferred, cutoff, overrides, answers, fuel) matches Some(Ok((lock, _))) ==> (
        configured(sorted(overrides.dom()), overrides) matches Ok(entries) && {
            &&& forall|path: Text| #[trigger]
                projects.contains_key(path) ==> lock.importers.contains_key(path) && importer_fits(
                    lock.packages,
                    entries,
                    given_for_any(answers),
                    projects[path].specifiers,
                    lock.importers[path],
                )
            &&& forall|id: Text| #[trigger]
                lock.packages.contains_key(id) ==> package_fits(
                    lock.packages,
                    entries,
                    given_for_any(answers),
                    lock.packages[id],
                )
        }),
{
    given_is_known(registry, answers);
    let known = given_for_any(answers);
    assert forall|pair: (Text, PackumentView)| #[trigger] known.contains(pair) implies is_finite_packument(pair.1) by {
        assert(given(answers).contains(pair.1));
    }
    resolution_is_complete(projects, registry, preferred, cutoff, overrides, answers, fuel, known);
    if let Some(Ok((lock, _))) = resolution(projects, registry, preferred, cutoff, overrides, answers, fuel) {
        let entries = configured(sorted(overrides.dom()), overrides)->Ok_0;
        assert forall|id: Text| #[trigger] lock.packages.contains_key(id) implies package_fits(
            lock.packages,
            entries,
            known,
            lock.packages[id],
        ) by {
            assert(package_is_complete(lock.packages, entries, known, cutoff, lock.packages[id]));
        }
    }
}

/// What is chosen for the projects, in the order of their paths.
pub open spec fn chosen_groups<R: Registry>(
    projects: Map<Text, ProjectView>,
    registry: R,
    preferred: Seq<(Text, Text)>,
    cutoff: Option<Timestamp>,
    overrides: Map<Text, Text>,
    answers: Seq<Answer>,
) -> Seq<GroupsView> {
    let paths = sorted(projects.dom());
    match (named_projects(paths, projects, Map::empty()), configured(sorted(overrides.dom()), overrides)) {
        (Ok(names), Ok(entries)) => match parted_projects(names, projects, paths) {
            Ok((specifiers, _)) => match first_state(preferred, entries).chooses(registry, specifiers, answers, cutoff) {
                Some(Ok((_, groups))) => groups,
                _ => Seq::empty(),
            },
            Err(_) => Seq::empty(),
        },
        _ => Seq::empty(),
    }
}

/// The dependencies of an importer, by their groups.
pub open spec fn groups_of(importer: ImporterView) -> GroupsView {
    GroupsView {
        dependencies: importer.dependencies,
        dev_dependencies: importer.dev_dependencies,
        optional_dependencies: importer.optional_dependencies,
    }
}

/// In a resolved lock, a package that a project depends on, in whichever group, and that has a peer gets
/// the same version of it as the project, if the project has it under that name in any group. As far as
/// peers are concerned, every package must go by one name, and no key may hold a bracket: only then does
/// an id tell which peer is which.
pub proof fn projects_share_peers<R: Registry>(
    projects: Map<Text, ProjectView>,
    registry: R,
    preferred: Seq<(Text, Text)>,
    cutoff: Option<Timestamp>,
    overrides: Map<Text, Text>,
    answers: Seq<Answer>,
    fuel: nat,
    called: Map<Text, Text>,
    at: int,
    peer: Text,
)
    requires
        projects.dom().finite(),
        forall|path: Text| #[trigger] projects.contains_key(path) ==> is_finite_project(projects[path]),
        forall|p: PackumentView| #[trigger] given(answers).contains(p) ==> is_finite_packument(p),
        ({
            let nodes = chosen_nodes(projects, registry, preferred, cutoff, overrides, answers);
            let groups = chosen_groups(projects, registry, preferred, cutoff, overrides, answers);
            &&& nodes.dom().finite()
            &&& forall|key: Text| #[trigger] nodes.contains_key(key) ==> nodes[key].peers.dom().finite()
            &&& keys_are_plain(nodes)
            &&& have_one_name(nodes, groups, called)
            &&& Stage::first().instantiate_roots(nodes, groups, fuel) matches Some((stage, _)) ==> stage.frames.len()
                <= usize::MAX
        }),
        0 <= at < sorted(projects.dom()).len(),
    ensures
        resolution(projects, registry, preferred, cutoff, overrides, answers, fuel) matches Some(Ok((lock, _))) ==> {
            let nodes = chosen_nodes(projects, registry, preferred, cutoff, overrides, answers);
            let chosen = chosen_groups(projects, registry, preferred, cutoff, overrides, answers)[at];
            let path = sorted(projects.dom())[at];
            let importer = lock.importers[path];
            &&& lock.importers.contains_key(path)
            &&& found_at(chosen, peer) is Some <==> found_at(groups_of(importer), peer) is Some
            &&& found_at(groups_of(importer), peer) matches Some(own) ==> {
                let version = found_at(chosen, peer)->0;
                let packages = lock.packages;
                &&& share_peer(nodes, packages, chosen.dependencies, importer.dependencies, peer, version, own)
                &&& share_peer(nodes, packages, chosen.dev_dependencies, importer.dev_dependencies, peer, version, own)
                &&& share_peer(
                    nodes,
                    packages,
                    chosen.optional_dependencies,
                    importer.optional_dependencies,
                    peer,
                    version,
                    own,
                )
            }
        },
{
    let paths = sorted(projects.dom());
    sorted_properties(projects.dom());
    if let Some(Ok((lock, _))) = resolution(projects, registry, preferred, cutoff, overrides, answers, fuel) {
        let names = named_projects(paths, projects, Map::empty())->Ok_0;
        let (importers, links) = parted_projects(names, projects, paths)->Ok_0;
        let entries = configured(sorted(overrides.dom()), overrides)->Ok_0;
        let (state, groups) = first_state(preferred, entries).chooses(registry, importers, answers, cutoff)->0->Ok_0;
        let nodes = state.nodes;
        let (packages, ids) = built_packages(nodes, groups, fuel)->0->Ok_0;
        assert forall|i: int| 0 <= i < paths.len() implies is_finite_project(projects[#[trigger] paths[i]]) by {
            assert(paths.contains(paths[i]));
        }
        projects_parts(names, projects, paths);
        assert(are_finite(importers)) by {
            assert forall|i: int| 0 <= i < importers.len() implies (#[trigger] importers[i]).dependencies.dom().finite()
                && importers[i].dev_dependencies.dom().finite() && importers[i].optional_dependencies.dom().finite() by {
                assert(project_parts(projects[paths[i]].specifiers, importers[i], links[i]));
            }
        }
        choices_are_right(registry, importers, preferred, entries, answers, cutoff);
        groups_are_finite(nodes, importers, groups);
        assert(keys_unbracketed(nodes));
        built_packages_stand(nodes, groups, fuel);
        importer_at(projects, paths, links, ids, at);
        let chosen = groups[at];
        assert(are_packages_of(packages, ids[at].dependencies, nodes, chosen.dependencies));
        assert(ids[at].dependencies.dom().contains(peer) == chosen.dependencies.dom().contains(peer));
        assert(ids[at].dev_dependencies.dom().contains(peer) == chosen.dev_dependencies.dom().contains(peer));
        assert(ids[at].optional_dependencies.dom().contains(peer) == chosen.optional_dependencies.dom().contains(peer));
        assert(found_at(groups_of(lock.importers[paths[at]]), peer) == found_at(ids[at], peer));
        if found_at(chosen, peer) is Some {
            peers_come_from_importer(nodes, groups, fuel, called, at, peer);
        }
    }
}

/// `deps` of the project at `from` ask for a project of the workspace under `alias`, which is at `target`.
pub open spec fn asks_for_link(
    names: Map<Text, Text>,
    projects: Map<Text, ProjectView>,
    from: Text,
    deps: Map<Text, Text>,
    alias: Text,
    target: Text,
) -> bool {
    deps.contains_key(alias) && (without_prefix(deps[alias], "workspace:"@) matches Some(spec) && linked_path(
        names,
        projects,
        from,
        alias,
        spec,
    ) == Ok::<Text, Text>(target))
}

proof fn parted_links(
    names: Map<Text, Text>,
    projects: Map<Text, ProjectView>,
    from: Text,
    deps: Map<Text, Text>,
    aliases: Seq<Text>,
    registry: Map<Text, Text>,
    links: Map<Text, Text>,
)
    requires
        forall|i: int| 0 <= i < aliases.len() ==> deps.contains_key(#[trigger] aliases[i]),
    ensures
        parted(names, projects, from, deps, aliases, registry, links) matches Ok((_, linked)) ==> forall|alias: Text|
            #[trigger] linked.contains_key(alias) ==> (links.contains_key(alias) && linked[alias] == links[alias])
                || asks_for_link(names, projects, from, deps, alias, linked[alias]),
    decreases aliases.len(),
{
    if aliases.len() > 0 {
        let alias = aliases[0];
        let rest = aliases.skip(1);
        assert(deps.contains_key(aliases[0]));
        assert forall|i: int| 0 <= i < rest.len() implies deps.contains_key(#[trigger] rest[i]) by {
            assert(rest[i] == aliases[i + 1]);
        }
        match without_prefix(deps[alias], "workspace:"@) {
            Some(spec) => {
                if let Ok(path) = linked_path(names, projects, from, alias, spec) {
                    parted_links(names, projects, from, deps, rest, registry, links.insert(alias, path));
                }
            },
            None => {
                parted_links(names, projects, from, deps, rest, registry.insert(alias, deps[alias]), links);
            },
        }
    }
}

proof fn group_links(
    names: Map<Text, Text>,
    projects: Map<Text, ProjectView>,
    from: Text,
    deps: Map<Text, Text>,
    links: Map<Text, Text>,
)
    requires
        deps.dom().finite(),
    ensures
        parted(names, projects, from, deps, sorted(deps.dom()), Map::empty(), links) matches Ok((_, linked)) ==> forall|
            alias: Text,
        |
            #[trigger] linked.contains_key(alias) ==> (links.contains_key(alias) && linked[alias] == links[alias])
                || asks_for_link(names, projects, from, deps, alias, linked[alias]),
{
    let aliases = sorted(deps.dom());
    sorted_properties(deps.dom());
    assert forall|i: int| 0 <= i < aliases.len() implies deps.contains_key(#[trigger] aliases[i]) by {
        assert(aliases.contains(aliases[i]));
    }
    parted_links(names, projects, from, deps, aliases, Map::empty(), links);
}

/// Every one of `links` is what some group of `specifiers` asks for.
pub open spec fn are_asked_for(
    names: Map<Text, Text>,
    projects: Map<Text, ProjectView>,
    from: Text,
    specifiers: SpecifiersView,
    links: Map<Text, Text>,
) -> bool {
    forall|alias: Text| #[trigger]
        links.contains_key(alias) ==> asks_for_link(
            names,
            projects,
            from,
            specifiers.dependencies,
            alias,
            links[alias],
        ) || asks_for_link(names, projects, from, specifiers.dev_dependencies, alias, links[alias]) || asks_for_link(
            names,
            projects,
            from,
            specifiers.optional_dependencies,
            alias,
            links[alias],
        )
}

proof fn project_links(names: Map<Text, Text>, projects: Map<Text, ProjectView>, paths: Seq<Text>)
    requires
        forall|i: int| 0 <= i < paths.len() ==> is_finite_project(projects[#[trigger] paths[i]]),
    ensures
        parted_projects(names, projects, paths) matches Ok((_, links)) ==> links.len() == paths.len() && forall|i: int|
            0 <= i < paths.len() ==> are_asked_for(
                names,
                projects,
                #[trigger] paths[i],
                projects[paths[i]].specifiers,
                links[i],
            ),
    decreases paths.len(),
{
    if paths.len() > 0 {
        let n = paths.len() - 1;
        let shorter = paths.drop_last();
        assert forall|i: int| 0 <= i < shorter.len() implies is_finite_project(projects[#[trigger] shorter[i]]) by {
            assert(shorter[i] == paths[i]);
        }
        project_links(names, projects, shorter);
        assert(is_finite_project(projects[paths[n]]));
        let from = paths[n];
        let specifiers = projects[from].specifiers;
        let (a, b, c) = (specifiers.dependencies, specifiers.dev_dependencies, specifiers.optional_dependencies);
        group_links(names, projects, from, a, Map::empty());
        if let Ok((_, one)) = parted(names, projects, from, a, sorted(a.dom()), Map::empty(), Map::empty()) {
            group_links(names, projects, from, b, one);
            if let Ok((_, two)) = parted(names, projects, from, b, sorted(b.dom()), Map::empty(), one) {
                group_links(names, projects, from, c, two);
            }
        }
        if let Ok((_, links)) = parted_projects(names, projects, paths) {
            assert forall|i: int| 0 <= i < paths.len() implies are_asked_for(
                names,
                projects,
                #[trigger] paths[i],
                projects[paths[i]].specifiers,
                links[i],
            ) by {
                if i < n {
                    assert(shorter[i] == paths[i]);
                }
            }
        }
    }
}

/// In a resolved lock, every link of a project leads to where a project of the workspace is that it asks
/// for. Projects are found by their names.
pub proof fn links_are_asked_for<R: Registry>(
    projects: Map<Text, ProjectView>,
    registry: R,
    preferred: Seq<(Text, Text)>,
    cutoff: Option<Timestamp>,
    overrides: Map<Text, Text>,
    answers: Seq<Answer>,
    fuel: nat,
)
    requires
        projects.dom().finite(),
        forall|path: Text| #[trigger] projects.contains_key(path) ==> is_finite_project(projects[path]),
    ensures
        resolution(projects, registry, preferred, cutoff, overrides, answers, fuel) matches Some(Ok((lock, _))) ==> exists|
            names: Map<Text, Text>,
        | #[trigger] are_named(projects, names) && forall|path: Text| #[trigger]
            projects.contains_key(path) ==> are_asked_for(
                names,
                projects,
                path,
                projects[path].specifiers,
                lock.importers[path].links,
            ),
{
    let paths = sorted(projects.dom());
    sorted_properties(projects.dom());
    if let Some(Ok((lock, _))) = resolution(projects, registry, preferred, cutoff, overrides, answers, fuel) {
        let names = named_projects(paths, projects, Map::empty())->Ok_0;
        let (importers, links) = parted_projects(names, projects, paths)->Ok_0;
        let entries = configured(sorted(overrides.dom()), overrides)->Ok_0;
        let (state, groups) = first_state(preferred, entries).chooses(registry, importers, answers, cutoff)->0->Ok_0;
        let (packages, ids) = built_packages(state.nodes, groups, fuel)->0->Ok_0;
        assert forall|i: int| 0 <= i < paths.len() implies is_finite_project(projects[#[trigger] paths[i]]) by {
            assert(paths.contains(paths[i]));
        }
        project_links(names, projects, paths);
        projects_are_found(paths, projects, Map::empty());
        assert(are_named(projects, names)) by {
            assert forall|path: Text| #[trigger] projects.contains_key(path) && projects[path].name is Some implies names.contains_key(
                projects[path].name->0,
            ) && names[projects[path].name->0] == path by {
                assert(paths.contains(path));
                assert(projects[paths[paths.index_of(path)]].name is Some);
            }
            assert forall|name: Text| #[trigger] names.contains_key(name) implies projects.contains_key(names[name])
                && projects[names[name]].name == Some(name) by {
                assert(!Map::<Text, Text>::empty().contains_key(name));
                assert(paths.contains(names[name]));
            }
        }
        assert forall|path: Text| #[trigger] projects.contains_key(path) implies are_asked_for(
            names,
            projects,
            path,
            projects[path].specifiers,
            lock.importers[path].links,
        ) by {
            assert(paths.contains(path));
            let i = paths.index_of(path);
            importer_at(projects, paths, links, ids, i);
            assert(are_asked_for(names, projects, paths[i], projects[paths[i]].specifiers, links[i]));
        }
    }
}

/// `names` are the names of the projects that have one, each with where it is.
pub open spec fn are_named(projects: Map<Text, ProjectView>, names: Map<Text, Text>) -> bool {
    &&& forall|path: Text| #[trigger]
        projects.contains_key(path) && projects[path].name is Some ==> names.contains_key(projects[path].name->0)
            && names[projects[path].name->0] == path
    &&& forall|name: Text| #[trigger]
        names.contains_key(name) ==> projects.contains_key(names[name]) && projects[names[name]].name == Some(name)
}

} // verus!
