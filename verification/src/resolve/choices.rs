//! Whatever is chosen is what was asked for, and whatever is required is chosen.
use vstd::prelude::*;

use crate::dict::{sorted, sorted_properties};
use crate::lock::SpecifiersView;
use crate::registry::{PackumentView, Registry, VersionManifestView};
use crate::resolve::chooser::{
    all_importer_wants, all_node_wants, first_state, is_sound, leads_into, new_node, request_for, requests_for, required_peers,
    wants_of, with_cached, with_fetched, Answer, Edge, GroupsView, NodeView, OriginView, Progress,
    RequestView, StateView, WantView,
};
use crate::resolve::overrides::{override_for, same_overrides, use_changes_nothing, EntryView};
use crate::resolve::parsed_spec;
use crate::resolve::pick::{
    is_release, may_be_chosen, nothing_fits, picked_is_release, picked_may_be_chosen, picked_suits, release_rule, something_is_picked, suits,
    FetchedView,
};
use crate::resolve::references::is_finite;
use crate::text::Text;
use crate::time::Timestamp;
use crate::version::{bare, parsed_version, VersionView};

verus! {

/// What a package asks for by way of `edge`.
pub open spec fn node_asks(node: NodeView, edge: Edge) -> Map<Text, Text> {
    match edge {
        Edge::Dependency => node.manifest.dependencies.remove_keys(node.manifest.optional_dependencies.dom()),
        Edge::Optional => node.manifest.optional_dependencies,
        Edge::Peer => required_peers(node),
    }
}

/// What a package got by way of `edge`.
pub open spec fn node_gets(node: NodeView, edge: Edge) -> Map<Text, Text> {
    match edge {
        Edge::Dependency => node.deps,
        Edge::Optional => node.optional_deps,
        Edge::Peer => node.auto_peers,
    }
}

/// What `from` asks for by way of `edge`.
pub open spec fn asks(
    importers: Seq<SpecifiersView>,
    nodes: Map<Text, NodeView>,
    from: OriginView,
    edge: Edge,
) -> Map<Text, Text> {
    match from {
        OriginView::Importer { index, group } => if !(0 <= index < importers.len()) {
            Map::empty()
        } else if group == 0 && edge == Edge::Dependency {
            importers[index].dependencies
        } else if group == 1 && edge == Edge::Dependency {
            importers[index].dev_dependencies
        } else if group == 2 && edge == Edge::Optional {
            importers[index].optional_dependencies
        } else {
            Map::empty()
        },
        OriginView::Node(key) => if nodes.contains_key(key) {
            node_asks(nodes[key], edge)
        } else {
            Map::empty()
        },
    }
}

/// What `from` got by way of `edge`.
pub open spec fn gets(
    groups: Seq<GroupsView>,
    nodes: Map<Text, NodeView>,
    from: OriginView,
    edge: Edge,
) -> Map<Text, Text> {
    match from {
        OriginView::Importer { index, group } => if !(0 <= index < groups.len()) {
            Map::empty()
        } else if group == 0 && edge == Edge::Dependency {
            groups[index].dependencies
        } else if group == 1 && edge == Edge::Dependency {
            groups[index].dev_dependencies
        } else if group == 2 && edge == Edge::Optional {
            groups[index].optional_dependencies
        } else {
            Map::empty()
        },
        OriginView::Node(key) => if nodes.contains_key(key) {
            node_gets(nodes[key], edge)
        } else {
            Map::empty()
        },
    }
}

/// The package and the range that `spec` asks for under `alias`, once overrides have been applied.
pub open spec fn target(overrides: Seq<EntryView>, alias: Text, spec: Text) -> Option<(Text, Text)> {
    match parsed_spec(alias, spec) {
        Ok((name, range)) => match override_for(overrides, name, range) {
            Some(i) => Some(overrides[i].to),
            None => Some((name, range)),
        },
        Err(_) => None,
    }
}

/// The registry gave `p` in one of `answers`.
pub open spec fn gave(answers: Seq<Answer>, p: PackumentView) -> bool {
    exists|i: int|
        0 <= i < answers.len() && ((#[trigger] answers[i]).cached.contains(Some(p)) || (
        answers[i].fetched matches Ok(packuments) && packuments.contains(p)))
}

/// All that the registry gave in `answers`.
pub open spec fn given(answers: Seq<Answer>) -> Set<PackumentView> {
    Set::new(|p: PackumentView| gave(answers, p))
}

/// All that the registry gave in `answers`, for whatever name.
pub open spec fn given_for_any(answers: Seq<Answer>) -> Set<(Text, PackumentView)> {
    Set::new(|given: (Text, PackumentView)| gave(answers, given.1))
}

/// Whatever `registry` gives in `answers` for a name is `known` of it.
pub open spec fn gives_known<R: Registry>(registry: R, answers: Seq<Answer>, known: Set<(Text, PackumentView)>) -> bool {
    forall|i: int|
        0 <= i < answers.len() ==> {
            &&& forall|names: Seq<Text>, j: int|
                registry.may_cache(names, (#[trigger] answers[i]).cached) && 0 <= j < names.len() && j
                    < answers[i].cached.len() && (#[trigger] answers[i].cached[j]) is Some ==> known.contains(
                    (#[trigger] names[j], answers[i].cached[j]->0),
                )
            &&& forall|names: Seq<Text>, j: int|
                registry.may_fetch(names, answers[i].fetched) && answers[i].fetched is Ok && 0 <= j < names.len() && j
                    < answers[i].fetched->Ok_0.len() ==> known.contains(
                    (#[trigger] names[j], #[trigger] answers[i].fetched->Ok_0[j]),
                )
        }
}

/// The version written `raw` of `name` is what `range` asks for, by what is `known` of its tags.
pub open spec fn is_version_for(known: Set<(Text, PackumentView)>, name: Text, range: Text, raw: Text) -> bool {
    exists|p: PackumentView| #[trigger]
        known.contains((name, p)) && p.versions.contains_key(raw) && parsed_version(raw) is Some && suits(
            p,
            range,
            bare(parsed_version(raw)->0),
        )
}

/// The node `key` is a version of `name` that `range` asks for.
pub open spec fn is_answer(known: Set<(Text, PackumentView)>, name: Text, range: Text, key: Text) -> bool {
    exists|raw: Text| key == #[trigger] (name + "@"@ + raw) && is_version_for(known, name, range, raw)
}

/// Whatever anything got is what it asked for.
pub open spec fn got_what_was_asked(
    importers: Seq<SpecifiersView>,
    nodes: Map<Text, NodeView>,
    groups: Seq<GroupsView>,
    overrides: Seq<EntryView>,
    known: Set<(Text, PackumentView)>,
) -> bool {
    forall|from: OriginView, edge: Edge, alias: Text| #[trigger]
        gets(groups, nodes, from, edge).contains_key(alias) ==> {
            let key = gets(groups, nodes, from, edge)[alias];
            &&& asks(importers, nodes, from, edge).contains_key(alias)
            &&& nodes.contains_key(key)
            &&& target(overrides, alias, asks(importers, nodes, from, edge)[alias]) matches Some((name, range))
                && is_answer(known, name, range, key)
        }
}

/// What `spec` asks for under `alias` may be left out if it is not required: it cannot be understood, or
/// a packument that is known of the package has no released version that fits.
pub open spec fn may_be_left_out(
    overrides: Seq<EntryView>,
    known: Set<(Text, PackumentView)>,
    cutoff: Option<Timestamp>,
    alias: Text,
    spec: Text,
) -> bool {
    match target(overrides, alias, spec) {
        Some((name, range)) => exists|p: PackumentView| #[trigger]
            known.contains((name, p)) && (p.versions.dom().finite() ==> nothing_fits(p, range, cutoff)),
        None => true,
    }
}

/// `from` got `alias` by way of `edge`, or does not require it and it may be left out.
pub open spec fn is_settled(
    importers: Seq<SpecifiersView>,
    nodes: Map<Text, NodeView>,
    groups: Seq<GroupsView>,
    overrides: Seq<EntryView>,
    known: Set<(Text, PackumentView)>,
    cutoff: Option<Timestamp>,
    from: OriginView,
    edge: Edge,
    alias: Text,
) -> bool {
    gets(groups, nodes, from, edge).contains_key(alias) || (edge != Edge::Dependency && may_be_left_out(
        overrides,
        known,
        cutoff,
        alias,
        asks(importers, nodes, from, edge)[alias],
    ))
}

/// Whatever anything asks for, it got, unless that may be left out.
pub open spec fn got_all_there_is(
    importers: Seq<SpecifiersView>,
    nodes: Map<Text, NodeView>,
    groups: Seq<GroupsView>,
    overrides: Seq<EntryView>,
    known: Set<(Text, PackumentView)>,
    cutoff: Option<Timestamp>,
) -> bool {
    forall|from: OriginView, edge: Edge, alias: Text| #[trigger]
        asks(importers, nodes, from, edge).contains_key(alias) ==> is_settled(
            importers,
            nodes,
            groups,
            overrides,
            known,
            cutoff,
            from,
            edge,
            alias,
        )
}

/// Whatever anything requires, it got.
pub open spec fn got_all_required(
    importers: Seq<SpecifiersView>,
    nodes: Map<Text, NodeView>,
    groups: Seq<GroupsView>,
) -> bool {
    forall|from: OriginView, alias: Text| #[trigger]
        asks(importers, nodes, from, Edge::Dependency).contains_key(alias) ==> gets(
            groups,
            nodes,
            from,
            Edge::Dependency,
        ).contains_key(alias)
}

/// A node is under its name and its version.
pub open spec fn keys_are_names(nodes: Map<Text, NodeView>) -> bool {
    forall|key: Text| #[trigger]
        nodes.contains_key(key) ==> key == nodes[key].name + "@"@ + nodes[key].version && nodes[key].peers
            == crate::resolve::chooser::peers_of(nodes[key].manifest)
}

/// The manifest of a node is what a packument that is `known` of its name gives for its version.
pub open spec fn are_given(nodes: Map<Text, NodeView>, known: Set<(Text, PackumentView)>) -> bool {
    forall|key: Text| #[trigger]
        nodes.contains_key(key) ==> exists|p: PackumentView| #[trigger]
            known.contains((nodes[key].name, p)) && p.versions.contains_key(nodes[key].version)
                && p.versions[nodes[key].version].manifest == Some(nodes[key].manifest)
}

pub open spec fn is_finite_manifest(manifest: VersionManifestView) -> bool {
    &&& manifest.dependencies.dom().finite()
    &&& manifest.optional_dependencies.dom().finite()
    &&& manifest.peer_dependencies.dom().finite()
}

pub open spec fn is_finite_packument(p: PackumentView) -> bool {
    forall|raw: Text| #[trigger]
        p.versions.contains_key(raw) && p.versions[raw].manifest is Some ==> is_finite_manifest(
            p.versions[raw].manifest->0,
        )
}

pub open spec fn are_finite(importers: Seq<SpecifiersView>) -> bool {
    forall|i: int|
        0 <= i < importers.len() ==> (#[trigger] importers[i]).dependencies.dom().finite()
            && importers[i].dev_dependencies.dom().finite() && importers[i].optional_dependencies.dom().finite()
}

spec fn finite_nodes(nodes: Map<Text, NodeView>) -> bool {
    forall|key: Text| #[trigger] nodes.contains_key(key) ==> is_finite_manifest(nodes[key].manifest)
}

proof fn asks_are_finite(importers: Seq<SpecifiersView>, nodes: Map<Text, NodeView>, from: OriginView, edge: Edge)
    requires
        are_finite(importers),
        finite_nodes(nodes),
    ensures
        asks(importers, nodes, from, edge).dom().finite(),
{
    if let OriginView::Node(key) = from {
        if nodes.contains_key(key) {
            node_asks_are_finite(nodes[key], edge);
        }
    }
}

proof fn node_asks_are_finite(node: NodeView, edge: Edge)
    requires
        is_finite_manifest(node.manifest),
    ensures
        node_asks(node, edge).dom().finite(),
{
    let manifest = node.manifest;
    let asked = node_asks(node, edge).dom();
    match edge {
        Edge::Dependency => {
            assert(asked.subset_of(manifest.dependencies.dom()));
            vstd::set_lib::lemma_len_subset(asked, manifest.dependencies.dom());
        },
        Edge::Optional => {},
        Edge::Peer => {
            assert(asked.subset_of(manifest.peer_dependencies.dom()));
            vstd::set_lib::lemma_len_subset(asked, manifest.peer_dependencies.dom());
        },
    }
}

/// Every one of `wants` is asked for.
spec fn wants_are_asked(importers: Seq<SpecifiersView>, nodes: Map<Text, NodeView>, wants: Seq<WantView>) -> bool {
    forall|i: int|
        0 <= i < wants.len() ==> {
            let asked = asks(importers, nodes, (#[trigger] wants[i]).from, wants[i].edge);
            asked.contains_key(wants[i].alias) && asked[wants[i].alias] == wants[i].spec
        }
}

spec fn is_wanted(wants: Seq<WantView>, from: OriginView, edge: Edge, alias: Text) -> bool {
    exists|i: int| 0 <= i < wants.len() && (#[trigger] wants[i]).from == from && wants[i].edge == edge && wants[i].alias
        == alias
}

proof fn wanted_in_part(a: Seq<WantView>, b: Seq<WantView>, from: OriginView, edge: Edge, alias: Text)
    requires
        is_wanted(a, from, edge, alias) || is_wanted(b, from, edge, alias),
    ensures
        is_wanted(a + b, from, edge, alias),
{
    if is_wanted(a, from, edge, alias) {
        let i = choose|i: int|
            0 <= i < a.len() && (#[trigger] a[i]).from == from && a[i].edge == edge && a[i].alias == alias;
        assert((a + b)[i] == a[i]);
    } else {
        let i = choose|i: int|
            0 <= i < b.len() && (#[trigger] b[i]).from == from && b[i].edge == edge && b[i].alias == alias;
        assert((a + b)[a.len() + i] == b[i]);
    }
}

proof fn wants_of_all(from: OriginView, edge: Edge, deps: Map<Text, Text>)
    requires
        deps.dom().finite(),
    ensures
        forall|i: int|
            0 <= i < wants_of(from, edge, deps).len() ==> {
                let want = #[trigger] wants_of(from, edge, deps)[i];
                want.from == from && want.edge == edge && deps.contains_key(want.alias) && deps[want.alias] == want.spec
            },
        forall|alias: Text| #[trigger]
            deps.contains_key(alias) ==> is_wanted(wants_of(from, edge, deps), from, edge, alias),
{
    let wants = wants_of(from, edge, deps);
    let aliases = sorted(deps.dom());
    sorted_properties(deps.dom());
    assert forall|i: int| 0 <= i < wants.len() implies {
        let want = #[trigger] wants[i];
        want.from == from && want.edge == edge && deps.contains_key(want.alias) && deps[want.alias] == want.spec
    } by {
        assert(aliases.contains(aliases[i]));
    }
    assert forall|alias: Text| #[trigger] deps.contains_key(alias) implies is_wanted(wants, from, edge, alias) by {
        assert(aliases.contains(alias));
        let i = aliases.index_of(alias);
        assert(wants[i].alias == alias);
    }
}

proof fn importer_wants_all(importers: Seq<SpecifiersView>, nodes: Map<Text, NodeView>)
    requires
        are_finite(importers),
    ensures
        wants_are_asked(importers, nodes, all_importer_wants(importers)),
        forall|index: int, group: int, edge: Edge, alias: Text| #[trigger]
            asks(importers, nodes, OriginView::Importer { index, group }, edge).contains_key(alias) ==> is_wanted(
                all_importer_wants(importers),
                OriginView::Importer { index, group },
                edge,
                alias,
            ),
    decreases importers.len(),
{
    if importers.len() > 0 {
        let n = importers.len() - 1;
        let shorter = importers.drop_last();
        let importer = importers.last();
        importer_wants_all(shorter, nodes);
        let before = all_importer_wants(shorter);
        let wants = all_importer_wants(importers);
        let (o0, o1, o2) = (
            OriginView::Importer { index: n, group: 0 },
            OriginView::Importer { index: n, group: 1 },
            OriginView::Importer { index: n, group: 2 },
        );
        let a = wants_of(o0, Edge::Dependency, importer.dependencies);
        let b = wants_of(o1, Edge::Dependency, importer.dev_dependencies);
        let c = wants_of(o2, Edge::Optional, importer.optional_dependencies);
        assert(importers[n] == importer);
        wants_of_all(o0, Edge::Dependency, importer.dependencies);
        wants_of_all(o1, Edge::Dependency, importer.dev_dependencies);
        wants_of_all(o2, Edge::Optional, importer.optional_dependencies);
        assert(wants == before + (a + b + c));
        assert forall|i: int| 0 <= i < wants.len() implies {
            let asked = asks(importers, nodes, (#[trigger] wants[i]).from, wants[i].edge);
            asked.contains_key(wants[i].alias) && asked[wants[i].alias] == wants[i].spec
        } by {
            if i < before.len() {
                assert(wants[i] == before[i]);
                asks_of_fewer(importers, nodes, before[i].from, before[i].edge, before[i].alias);
            } else if i < before.len() + a.len() {
                assert(wants[i] == a[i - before.len()]);
            } else if i < before.len() + a.len() + b.len() {
                assert(wants[i] == b[i - before.len() - a.len()]);
            } else {
                assert(wants[i] == c[i - before.len() - a.len() - b.len()]);
            }
        }
        assert forall|index: int, group: int, edge: Edge, alias: Text| #[trigger]
            asks(importers, nodes, OriginView::Importer { index, group }, edge).contains_key(alias) implies is_wanted(
            wants,
            OriginView::Importer { index, group },
            edge,
            alias,
        ) by {
            let from = OriginView::Importer { index, group };
            if index < n {
                assert(importers[index] == shorter[index]);
                assert(asks(shorter, nodes, from, edge).contains_key(alias));
                wanted_in_part(before, a + b + c, from, edge, alias);
            } else {
                if group == 0 {
                    wanted_in_part(a, b, from, edge, alias);
                    wanted_in_part(a + b, c, from, edge, alias);
                } else if group == 1 {
                    wanted_in_part(a, b, from, edge, alias);
                    wanted_in_part(a + b, c, from, edge, alias);
                } else {
                    wanted_in_part(a + b, c, from, edge, alias);
                }
                wanted_in_part(before, a + b + c, from, edge, alias);
            }
        }
    }
}

proof fn asks_of_fewer(
    importers: Seq<SpecifiersView>,
    nodes: Map<Text, NodeView>,
    from: OriginView,
    edge: Edge,
    alias: Text,
)
    requires
        importers.len() > 0,
        asks(importers.drop_last(), nodes, from, edge).contains_key(alias),
    ensures
        asks(importers, nodes, from, edge) == asks(importers.drop_last(), nodes, from, edge),
{
    if let OriginView::Importer { index, group } = from {
        assert(importers[index] == importers.drop_last()[index]);
    }
}

proof fn node_wants_all(importers: Seq<SpecifiersView>, nodes: Map<Text, NodeView>, keys: Seq<Text>)
    requires
        finite_nodes(nodes),
        forall|i: int| 0 <= i < keys.len() ==> nodes.contains_key(#[trigger] keys[i]),
    ensures
        wants_are_asked(importers, nodes, all_node_wants(nodes, keys)),
        forall|key: Text, edge: Edge, alias: Text| #[trigger]
            asks(importers, nodes, OriginView::Node(key), edge).contains_key(alias) && keys.contains(key) ==> is_wanted(
                all_node_wants(nodes, keys),
                OriginView::Node(key),
                edge,
                alias,
            ),
    decreases keys.len(),
{
    if keys.len() > 0 {
        let shorter = keys.drop_last();
        let last = keys.last();
        let node = nodes[last];
        assert(nodes.contains_key(keys[keys.len() - 1]));
        node_wants_all(importers, nodes, shorter);
        let before = all_node_wants(nodes, shorter);
        let wants = all_node_wants(nodes, keys);
        let from = OriginView::Node(last);
        let a = wants_of(from, Edge::Dependency, node_asks(node, Edge::Dependency));
        let b = wants_of(from, Edge::Optional, node_asks(node, Edge::Optional));
        let c = wants_of(from, Edge::Peer, node_asks(node, Edge::Peer));
        node_asks_are_finite(node, Edge::Dependency);
        node_asks_are_finite(node, Edge::Peer);
        wants_of_all(from, Edge::Dependency, node_asks(node, Edge::Dependency));
        wants_of_all(from, Edge::Optional, node_asks(node, Edge::Optional));
        wants_of_all(from, Edge::Peer, node_asks(node, Edge::Peer));
        assert(wants == before + (a + b + c));
        assert forall|i: int| 0 <= i < wants.len() implies {
            let asked = asks(importers, nodes, (#[trigger] wants[i]).from, wants[i].edge);
            asked.contains_key(wants[i].alias) && asked[wants[i].alias] == wants[i].spec
        } by {
            if i < before.len() {
                assert(wants[i] == before[i]);
            } else if i < before.len() + a.len() {
                assert(wants[i] == a[i - before.len()]);
            } else if i < before.len() + a.len() + b.len() {
                assert(wants[i] == b[i - before.len() - a.len()]);
            } else {
                assert(wants[i] == c[i - before.len() - a.len() - b.len()]);
            }
        }
        assert forall|key: Text, edge: Edge, alias: Text| #[trigger]
            asks(importers, nodes, OriginView::Node(key), edge).contains_key(alias) && keys.contains(
                key,
            ) implies is_wanted(wants, OriginView::Node(key), edge, alias) by {
            if key == last {
                match edge {
                    Edge::Dependency => {
                        wanted_in_part(a, b, from, edge, alias);
                        wanted_in_part(a + b, c, from, edge, alias);
                    },
                    Edge::Optional => {
                        wanted_in_part(a, b, from, edge, alias);
                        wanted_in_part(a + b, c, from, edge, alias);
                    },
                    Edge::Peer => {
                        wanted_in_part(a + b, c, from, edge, alias);
                    },
                }
                wanted_in_part(before, a + b + c, from, edge, alias);
            } else {
                let i = keys.index_of(key);
                assert(shorter[i] == key);
                wanted_in_part(before, a + b + c, OriginView::Node(key), edge, alias);
            }
        }
    }
}

/// Every one of `requests` is for something that is asked for.
spec fn requests_are_asked(
    importers: Seq<SpecifiersView>,
    nodes: Map<Text, NodeView>,
    overrides: Seq<EntryView>,
    requests: Seq<RequestView>,
) -> bool {
    forall|i: int| 0 <= i < requests.len() ==> request_is_asked(importers, nodes, overrides, #[trigger] requests[i])
}

spec fn request_is_asked(
    importers: Seq<SpecifiersView>,
    nodes: Map<Text, NodeView>,
    overrides: Seq<EntryView>,
    request: RequestView,
) -> bool {
    let asked = asks(importers, nodes, request.from, request.edge);
    asked.contains_key(request.alias) && target(overrides, request.alias, asked[request.alias]) == Some(
        (request.name, request.range),
    )
}

spec fn is_requested(requests: Seq<RequestView>, from: OriginView, edge: Edge, alias: Text) -> bool {
    exists|i: int| 0 <= i < requests.len() && (#[trigger] requests[i]).from == from && requests[i].edge == edge
        && requests[i].alias == alias
}

proof fn requests_for_all(
    importers: Seq<SpecifiersView>,
    nodes: Map<Text, NodeView>,
    overrides: Seq<EntryView>,
    now: Seq<EntryView>,
    wants: Seq<WantView>,
)
    requires
        same_overrides(overrides, now),
        wants_are_asked(importers, nodes, wants),
    ensures
        requests_for(now, wants) matches Ok((then, requests)) ==> {
            &&& same_overrides(overrides, then)
            &&& requests_are_asked(importers, nodes, overrides, requests)
            &&& forall|from: OriginView, edge: Edge, alias: Text|
                is_wanted(wants, from, edge, alias) ==> #[trigger] is_requested(requests, from, edge, alias) || (edge
                    != Edge::Dependency && target(overrides, alias, asks(importers, nodes, from, edge)[alias]) is None)
        },
    decreases wants.len(),
{
    if wants.len() > 0 {
        let want = wants[0];
        if let Ok((name, range)) = parsed_spec(want.alias, want.spec) {
            use_changes_nothing(overrides, now, name, range);
        }
        if let Ok((next, first)) = request_for(now, want) {
            let rest = wants.skip(1);
            assert(wants_are_asked(importers, nodes, rest)) by {
                assert forall|i: int| 0 <= i < rest.len() implies {
                    let asked = asks(importers, nodes, (#[trigger] rest[i]).from, rest[i].edge);
                    asked.contains_key(rest[i].alias) && asked[rest[i].alias] == rest[i].spec
                } by {
                    assert(rest[i] == wants[i + 1]);
                }
            }
            requests_for_all(importers, nodes, overrides, next, rest);
            if let Ok((then, requests)) = requests_for(next, rest) {
                let all = match first {
                    Some(request) => seq![request] + requests,
                    None => requests,
                };
                let skipped: int = if first is Some {
                    1
                } else {
                    0
                };
                assert(requests_are_asked(importers, nodes, overrides, all)) by {
                    assert forall|i: int| 0 <= i < all.len() implies request_is_asked(
                        importers,
                        nodes,
                        overrides,
                        #[trigger] all[i],
                    ) by {
                        if i >= skipped {
                            assert(all[i] == requests[i - skipped]);
                        } else {
                            assert(wants[0] == want);
                        }
                    }
                }
                assert forall|from: OriginView, edge: Edge, alias: Text|
                    is_wanted(wants, from, edge, alias) implies #[trigger] is_requested(all, from, edge, alias) || (edge
                    != Edge::Dependency && target(overrides, alias, asks(importers, nodes, from, edge)[alias]) is None) by {
                    let i = choose|i: int|
                        0 <= i < wants.len() && (#[trigger] wants[i]).from == from && wants[i].edge == edge
                            && wants[i].alias == alias;
                    assert(asks(importers, nodes, wants[i].from, wants[i].edge)[alias] == wants[i].spec);
                    if i == 0 {
                        if first is Some {
                            assert(all[0].from == from);
                        }
                    } else {
                        assert(rest[i - 1] == wants[i]);
                        assert(is_wanted(rest, from, edge, alias));
                        if is_requested(requests, from, edge, alias) {
                            let j = choose|j: int|
                                0 <= j < requests.len() && (#[trigger] requests[j]).from == from && requests[j].edge
                                    == edge && requests[j].alias == alias;
                            assert(all[j + skipped] == requests[j]);
                        }
                    }
                }
            }
        }
    }
}

/// Every node of `before` is in `after`, with the same manifest.
spec fn grew(before: Map<Text, NodeView>, after: Map<Text, NodeView>) -> bool {
    forall|key: Text| #[trigger]
        before.contains_key(key) ==> after.contains_key(key) && after[key].manifest == before[key].manifest
            && after[key].peers == before[key].peers
}

proof fn grown_asks(
    importers: Seq<SpecifiersView>,
    before: Map<Text, NodeView>,
    after: Map<Text, NodeView>,
    from: OriginView,
    edge: Edge,
    alias: Text,
)
    requires
        grew(before, after),
        asks(importers, before, from, edge).contains_key(alias),
    ensures
        asks(importers, after, from, edge) == asks(importers, before, from, edge),
{
    if let OriginView::Node(key) = from {
        assert(before.contains_key(key));
    }
}

/// Every packument is one of `known`.
spec fn are_known(packuments: Map<Text, FetchedView>, known: Set<(Text, PackumentView)>) -> bool {
    forall|name: Text| #[trigger] packuments.contains_key(name) ==> known.contains((name, packuments[name].packument))
}

spec fn finite_packuments(known: Set<(Text, PackumentView)>) -> bool {
    forall|given: (Text, PackumentView)| #[trigger] known.contains(given) ==> is_finite_packument(given.1)
}

impl Progress {
    spec fn is_right(
        self,
        importers: Seq<SpecifiersView>,
        overrides: Seq<EntryView>,
        known: Set<(Text, PackumentView)>,
    ) -> bool {
        &&& got_what_was_asked(importers, self.state.nodes, self.groups, overrides, known)
        &&& self.groups.len() == importers.len()
        &&& finite_nodes(self.state.nodes)
        &&& keys_are_names(self.state.nodes)
        &&& are_given(self.state.nodes, known)
        &&& are_known(self.state.packuments, known)
        &&& same_overrides(overrides, self.state.overrides)
        &&& forall|i: int| 0 <= i < self.added.len() ==> self.state.nodes.contains_key(#[trigger] self.added[i])
    }

    /// `next` has whatever this has, and what it has beyond that was added.
    spec fn goes_on(self, next: Progress) -> bool {
        &&& grew(self.state.nodes, next.state.nodes)
        &&& forall|from: OriginView, edge: Edge, alias: Text|
            gets(self.groups, self.state.nodes, from, edge).contains_key(alias) ==> #[trigger] gets(
                next.groups,
                next.state.nodes,
                from,
                edge,
            ).contains_key(alias)
        &&& forall|key: Text|
            self.added.contains(key) || (#[trigger] next.state.nodes.contains_key(key)
                && !self.state.nodes.contains_key(key)) ==> next.added.contains(key)
    }

    proof fn linked_is_right(
        self,
        importers: Seq<SpecifiersView>,
        overrides: Seq<EntryView>,
        known: Set<(Text, PackumentView)>,
        request: RequestView,
        key: Text,
    )
        requires
            self.is_right(importers, overrides, known),
            request_is_asked(importers, self.state.nodes, overrides, request),
            self.state.nodes.contains_key(key),
            is_answer(known, request.name, request.range, key),
        ensures
            self.linked(request, key).is_right(importers, overrides, known),
            self.goes_on(self.linked(request, key)),
            gets(
                self.linked(request, key).groups,
                self.linked(request, key).state.nodes,
                request.from,
                request.edge,
            ).contains_key(request.alias),
    {
        let next = self.linked(request, key);
        let (before, after) = (self.state.nodes, next.state.nodes);
        if let OriginView::Node(from) = request.from {
            assert(before.contains_key(from));
        }
        assert(grew(before, after));
        assert(after.dom() =~= before.dom());
        let got = gets(self.groups, before, request.from, request.edge);
        assert(gets(next.groups, after, request.from, request.edge) =~= got.insert(request.alias, key));
        assert forall|from: OriginView, edge: Edge| from != request.from || edge != request.edge implies #[trigger] gets(
            next.groups,
            after,
            from,
            edge,
        ) == gets(self.groups, before, from, edge) by {
            if let OriginView::Importer { index, group } = from {
                if let OriginView::Importer { index: at, group: in_group } = request.from {
                    if index == at && 0 <= at < self.groups.len() {
                        assert(next.groups[index] == self.groups[index].with(in_group, request.alias, key));
                    }
                }
            }
        }
        assert forall|from: OriginView, edge: Edge, alias: Text| #[trigger]
            gets(next.groups, after, from, edge).contains_key(alias) implies {
            let found = gets(next.groups, after, from, edge)[alias];
            &&& asks(importers, after, from, edge).contains_key(alias)
            &&& after.contains_key(found)
            &&& target(overrides, alias, asks(importers, after, from, edge)[alias]) matches Some((name, range))
                && is_answer(known, name, range, found)
        } by {
            if from == request.from && edge == request.edge && alias == request.alias {
                grown_asks(importers, before, after, from, edge, alias);
            } else {
                assert(gets(self.groups, before, from, edge).contains_key(alias));
                grown_asks(importers, before, after, from, edge, alias);
            }
        }
        assert forall|k: Text| #[trigger] after.contains_key(k) implies is_finite_manifest(after[k].manifest) && k
            == after[k].name + "@"@ + after[k].version && after[k].peers == crate::resolve::chooser::peers_of(
            after[k].manifest,
        ) by {
            assert(before.contains_key(k));
        }
        assert forall|k: Text| #[trigger] after.contains_key(k) implies exists|p: PackumentView| #[trigger]
            known.contains((after[k].name, p)) && p.versions.contains_key(after[k].version)
                && p.versions[after[k].version].manifest == Some(after[k].manifest) by {
            assert(before.contains_key(k));
        }
    }

    proof fn step_is_right(
        self,
        importers: Seq<SpecifiersView>,
        overrides: Seq<EntryView>,
        known: Set<(Text, PackumentView)>,
        request: RequestView,
        cutoff: Option<Timestamp>,
    )
        requires
            finite_packuments(known),
            self.is_right(importers, overrides, known),
            request_is_asked(importers, self.state.nodes, overrides, request),
        ensures
            self.step(request, cutoff) matches Ok(next) ==> {
                &&& next.is_right(importers, overrides, known)
                &&& self.goes_on(next)
                &&& is_settled(
                    importers,
                    next.state.nodes,
                    next.groups,
                    overrides,
                    known,
                    cutoff,
                    request.from,
                    request.edge,
                    request.alias,
                )
            },
    {
        let chosen = self.state.chosen_of(request.name);
        let p = self.state.packuments[request.name].packument;
        if let Ok((state, None)) = self.state.choose_for(request, cutoff) {
            assert(known.contains((request.name, p)));
            if p.versions.dom().finite() {
                assert forall|v: VersionView, raw: Text| #[trigger]
                    is_release(p.raws(), v, raw) && p.is_released(raw, cutoff) implies !may_be_chosen(
                    p,
                    request.range,
                    v,
                ) by {
                    if may_be_chosen(p, request.range, v) {
                        something_is_picked(p, request.range, chosen, cutoff, v, raw);
                    }
                }
                assert(nothing_fits(p, request.range, cutoff));
            }
        }
        if let Ok((state, Some(raw))) = self.state.choose_for(request, cutoff) {
            picked_is_release(p, request.range, chosen, release_rule(p, cutoff));
            picked_suits(p, request.range, chosen, release_rule(p, cutoff));
            assert(known.contains((request.name, p)));
            assert(is_version_for(known, request.name, request.range, raw));
            let key = request.name + "@"@ + raw;
            assert(is_answer(known, request.name, request.range, key));
            if state.nodes.contains_key(key) {
                (Progress { state, ..self }).linked_is_right(importers, overrides, known, request, key);
            } else if let Ok(grown) = state.add_version(request.name, raw) {
                let next = Progress { state: grown, added: self.added.push(key), ..self };
                self.added_is_right(importers, overrides, known, next, key, request.name, raw, p);
                grown_asks(importers, self.state.nodes, grown.nodes, request.from, request.edge, request.alias);
                next.linked_is_right(importers, overrides, known, request, key);
                let last = next.linked(request, key);
                assert(self.goes_on(last)) by {
                    assert forall|from: OriginView, edge: Edge, alias: Text|
                        gets(self.groups, self.state.nodes, from, edge).contains_key(alias) implies #[trigger] gets(
                        last.groups,
                        last.state.nodes,
                        from,
                        edge,
                    ).contains_key(alias) by {
                        assert(gets(next.groups, next.state.nodes, from, edge).contains_key(alias));
                    }
                    assert forall|k: Text|
                        self.added.contains(k) || (#[trigger] last.state.nodes.contains_key(k)
                            && !self.state.nodes.contains_key(k)) implies last.added.contains(k) by {
                        if self.added.contains(k) {
                            let i = self.added.index_of(k);
                            assert(next.added[i] == k);
                        } else {
                            assert(next.added[self.added.len() as int] == key);
                        }
                    }
                }
            }
        }
    }

    proof fn added_is_right(
        self,
        importers: Seq<SpecifiersView>,
        overrides: Seq<EntryView>,
        known: Set<(Text, PackumentView)>,
        next: Progress,
        key: Text,
        name: Text,
        raw: Text,
        p: PackumentView,
    )
        requires
            finite_packuments(known),
            self.is_right(importers, overrides, known),
            !self.state.nodes.contains_key(key),
            key == name + "@"@ + raw,
            known.contains((name, p)),
            p.versions.contains_key(raw),
            p.versions[raw].manifest is Some,
            next.state.nodes == self.state.nodes.insert(key, new_node(name, raw, p.versions[raw].manifest->0)),
            next.state.packuments == self.state.packuments,
            next.state.overrides == self.state.overrides,
            next.groups == self.groups,
            next.added == self.added.push(key),
        ensures
            next.is_right(importers, overrides, known),
            self.goes_on(next),
    {
        let (before, after) = (self.state.nodes, next.state.nodes);
        assert(grew(before, after));
        assert(is_finite_packument((name, p).1));
        assert forall|from: OriginView, edge: Edge| #[trigger] gets(next.groups, after, from, edge) == gets(
            self.groups,
            before,
            from,
            edge,
        ) by {
            if from == OriginView::Node(key) {
                assert(gets(next.groups, after, from, edge) =~= Map::empty());
            }
        }
        assert forall|from: OriginView, edge: Edge, alias: Text| #[trigger]
            gets(next.groups, after, from, edge).contains_key(alias) implies {
            let found = gets(next.groups, after, from, edge)[alias];
            &&& asks(importers, after, from, edge).contains_key(alias)
            &&& after.contains_key(found)
            &&& target(overrides, alias, asks(importers, after, from, edge)[alias]) matches Some((name, range))
                && is_answer(known, name, range, found)
        } by {
            assert(gets(self.groups, before, from, edge).contains_key(alias));
            grown_asks(importers, before, after, from, edge, alias);
        }
        assert forall|k: Text| #[trigger] after.contains_key(k) implies exists|given: PackumentView| #[trigger]
            known.contains((after[k].name, given)) && given.versions.contains_key(after[k].version)
                && given.versions[after[k].version].manifest == Some(after[k].manifest) by {
            if k == key {
                assert(known.contains((after[k].name, p)));
            } else {
                assert(before.contains_key(k));
            }
        }
        assert forall|k: Text|
            self.added.contains(k) || (#[trigger] after.contains_key(k) && !before.contains_key(
                k,
            )) implies next.added.contains(k) by {
            if self.added.contains(k) {
                let i = self.added.index_of(k);
                assert(next.added[i] == k);
            } else {
                assert(next.added[self.added.len() as int] == key);
            }
        }
        assert forall|i: int| 0 <= i < next.added.len() implies after.contains_key(#[trigger] next.added[i]) by {
            if i < self.added.len() {
                assert(before.contains_key(self.added[i]));
            }
        }
    }

    proof fn steps_are_right(
        self,
        importers: Seq<SpecifiersView>,
        overrides: Seq<EntryView>,
        known: Set<(Text, PackumentView)>,
        requests: Seq<RequestView>,
        cutoff: Option<Timestamp>,
    )
        requires
            finite_packuments(known),
            self.is_right(importers, overrides, known),
            requests_are_asked(importers, self.state.nodes, overrides, requests),
        ensures
            self.steps(requests, cutoff) matches Ok(done) ==> {
                &&& done.is_right(importers, overrides, known)
                &&& self.goes_on(done)
                &&& forall|from: OriginView, edge: Edge, alias: Text| #[trigger]
                    is_requested(requests, from, edge, alias) ==> is_settled(
                        importers,
                        done.state.nodes,
                        done.groups,
                        overrides,
                        known,
                        cutoff,
                        from,
                        edge,
                        alias,
                    )
            },
        decreases requests.len(),
    {
        if requests.len() > 0 {
            let request = requests[0];
            let rest = requests.skip(1);
            assert(request_is_asked(importers, self.state.nodes, overrides, requests[0]));
            self.step_is_right(importers, overrides, known, request, cutoff);
            if let Ok(next) = self.step(request, cutoff) {
                assert forall|i: int| 0 <= i < rest.len() implies request_is_asked(
                    importers,
                    next.state.nodes,
                    overrides,
                    #[trigger] rest[i],
                ) by {
                    assert(rest[i] == requests[i + 1]);
                    assert(request_is_asked(importers, self.state.nodes, overrides, requests[i + 1]));
                    grown_asks(
                        importers,
                        self.state.nodes,
                        next.state.nodes,
                        rest[i].from,
                        rest[i].edge,
                        rest[i].alias,
                    );
                }
                next.steps_are_right(importers, overrides, known, rest, cutoff);
                if let Ok(done) = next.steps(rest, cutoff) {
                    assert(grew(self.state.nodes, done.state.nodes)) by {
                        assert forall|key: Text| #[trigger] self.state.nodes.contains_key(
                            key,
                        ) implies done.state.nodes.contains_key(key) && done.state.nodes[key].manifest
                            == self.state.nodes[key].manifest && done.state.nodes[key].peers
                            == self.state.nodes[key].peers by {
                            assert(next.state.nodes.contains_key(key));
                        }
                    }
                    assert forall|from: OriginView, edge: Edge, alias: Text|
                        gets(self.groups, self.state.nodes, from, edge).contains_key(alias) implies #[trigger] gets(
                        done.groups,
                        done.state.nodes,
                        from,
                        edge,
                    ).contains_key(alias) by {
                        assert(gets(next.groups, next.state.nodes, from, edge).contains_key(alias));
                    }
                    assert forall|key: Text|
                        self.added.contains(key) || (#[trigger] done.state.nodes.contains_key(key)
                            && !self.state.nodes.contains_key(key)) implies done.added.contains(key) by {
                        if self.added.contains(key) {
                            let i = self.added.index_of(key);
                            assert(self.state.nodes.contains_key(self.added[i]));
                            assert(next.state.nodes.contains_key(key));
                            assert(next.added.contains(key));
                            assert(done.state.nodes.contains_key(key));
                        } else if next.state.nodes.contains_key(key) {
                            assert(next.added.contains(key));
                        }
                    }
                    assert forall|from: OriginView, edge: Edge, alias: Text| #[trigger]
                        is_requested(requests, from, edge, alias) implies is_settled(
                        importers,
                        done.state.nodes,
                        done.groups,
                        overrides,
                        known,
                        cutoff,
                        from,
                        edge,
                        alias,
                    ) by {
                        let i = choose|i: int|
                            0 <= i < requests.len() && (#[trigger] requests[i]).from == from && requests[i].edge == edge
                                && requests[i].alias == alias;
                        if i == 0 {
                            assert(gets(next.groups, next.state.nodes, from, edge).contains_key(alias) ==> gets(
                                done.groups,
                                done.state.nodes,
                                from,
                                edge,
                            ).contains_key(alias));
                            assert(request_is_asked(importers, self.state.nodes, overrides, request));
                            grown_asks(importers, self.state.nodes, done.state.nodes, from, edge, alias);
                            grown_asks(importers, self.state.nodes, next.state.nodes, from, edge, alias);
                        } else {
                            assert(rest[i - 1] == requests[i]);
                            assert(is_requested(rest, from, edge, alias));
                        }
                    }
                }
            }
        }
    }
}

proof fn cached_are_known(
    packuments: Map<Text, FetchedView>,
    names: Seq<Text>,
    cached: Seq<Option<PackumentView>>,
    known: Set<(Text, PackumentView)>,
)
    requires
        are_known(packuments, known),
        forall|j: int|
            0 <= j < names.len() && j < cached.len() && (#[trigger] cached[j]) is Some ==> known.contains(
                (names[j], cached[j]->0),
            ),
    ensures
        are_known(with_cached(packuments, names, cached), known),
    decreases names.len(),
{
    if names.len() > 0 && cached.len() > 0 {
        let rest = cached.skip(1);
        let others = names.skip(1);
        assert forall|j: int| 0 <= j < others.len() && j < rest.len() && (#[trigger] rest[j]) is Some implies known.contains(
            (others[j], rest[j]->0),
        ) by {
            assert(rest[j] == cached[j + 1] && others[j] == names[j + 1]);
        }
        let more = match cached[0] {
            Some(packument) => packuments.insert(names[0], FetchedView { packument, verified: false }),
            None => packuments,
        };
        cached_are_known(more, others, rest, known);
    }
}

proof fn fetched_are_known(
    packuments: Map<Text, FetchedView>,
    names: Seq<Text>,
    fetched: Seq<PackumentView>,
    known: Set<(Text, PackumentView)>,
)
    requires
        are_known(packuments, known),
        forall|j: int|
            0 <= j < names.len() && j < fetched.len() ==> known.contains((names[j], #[trigger] fetched[j])),
    ensures
        are_known(with_fetched(packuments, names, fetched), known),
    decreases names.len(),
{
    if names.len() > 0 && fetched.len() > 0 {
        let rest = fetched.skip(1);
        let others = names.skip(1);
        assert forall|j: int| 0 <= j < others.len() && j < rest.len() implies known.contains(
            (others[j], #[trigger] rest[j]),
        ) by {
            assert(rest[j] == fetched[j + 1] && others[j] == names[j + 1]);
        }
        let more = packuments.insert(names[0], FetchedView { packument: fetched[0], verified: true });
        fetched_are_known(more, others, rest, known);
    }
}

/// Whatever is asked for was got, or has been requested, unless it may be left out.
spec fn got_or_requested(
    importers: Seq<SpecifiersView>,
    nodes: Map<Text, NodeView>,
    groups: Seq<GroupsView>,
    overrides: Seq<EntryView>,
    known: Set<(Text, PackumentView)>,
    cutoff: Option<Timestamp>,
    requests: Seq<RequestView>,
) -> bool {
    forall|from: OriginView, edge: Edge, alias: Text| #[trigger]
        asks(importers, nodes, from, edge).contains_key(alias) ==> is_settled(
            importers,
            nodes,
            groups,
            overrides,
            known,
            cutoff,
            from,
            edge,
            alias,
        ) || is_requested(requests, from, edge, alias)
}

impl StateView {
    proof fn fetch_is_known<R: Registry>(
        self,
        registry: R,
        requests: Seq<RequestView>,
        answers: Seq<Answer>,
        known: Set<(Text, PackumentView)>,
    )
        requires
            are_known(self.packuments, known),
            answers.len() > 0,
            gives_known(registry, answers, known),
            self.may_get(registry, requests, answers[0]),
        ensures
            self.after_fetch(requests, answers[0]) matches Ok(state) ==> are_known(state.packuments, known)
                && state.nodes == self.nodes && state.overrides == self.overrides,
    {
        let answer = answers[0];
        let names = sorted(self.cacheable(requests));
        assert forall|j: int|
            0 <= j < names.len() && j < answer.cached.len() && (#[trigger] answer.cached[j]) is Some implies known.contains(
            (names[j], answer.cached[j]->0),
        ) by {
            assert(answers[0].cached[j] is Some);
        }
        cached_are_known(self.packuments, names, answer.cached, known);
        let state = self.after_cache(requests, answer);
        let needed = sorted(state.needed(requests));
        if needed.len() > 0 {
            if let Ok(packuments) = answer.fetched {
                assert forall|j: int| 0 <= j < needed.len() && j < packuments.len() implies known.contains(
                    (needed[j], #[trigger] packuments[j]),
                ) by {
                    assert(answers[0].fetched->Ok_0[j] == packuments[j]);
                }
                fetched_are_known(state.packuments, needed, packuments, known);
            }
        }
    }

    proof fn rounds_are_right<R: Registry>(
        self,
        registry: R,
        importers: Seq<SpecifiersView>,
        overrides: Seq<EntryView>,
        known: Set<(Text, PackumentView)>,
        groups: Seq<GroupsView>,
        requests: Seq<RequestView>,
        answers: Seq<Answer>,
        cutoff: Option<Timestamp>,
    )
        requires
            finite_packuments(known),
            gives_known(registry, answers, known),
            (Progress { state: self, groups, added: Seq::empty() }).is_right(importers, overrides, known),
            requests_are_asked(importers, self.nodes, overrides, requests),
            got_or_requested(importers, self.nodes, groups, overrides, known, cutoff, requests),
        ensures
            self.rounds(registry, groups, requests, answers, cutoff) matches Some(Ok((state, groups))) ==> {
                &&& (Progress { state, groups, added: Seq::empty() }).is_right(importers, overrides, known)
                &&& got_all_there_is(importers, state.nodes, groups, overrides, known, cutoff)
            },
        decreases answers.len(),
    {
        if requests.len() == 0 {
            assert forall|from: OriginView, edge: Edge, alias: Text| #[trigger]
                asks(importers, self.nodes, from, edge).contains_key(alias) implies is_settled(
                importers,
                self.nodes,
                groups,
                overrides,
                known,
                cutoff,
                from,
                edge,
                alias,
            ) by {
                assert(!is_requested(requests, from, edge, alias));
            }
        } else if answers.len() > 0 && self.may_get(registry, requests, answers[0]) {
            self.fetch_is_known(registry, requests, answers, known);
            if let Ok(state) = self.after_fetch(requests, answers[0]) {
                let start = Progress { state, groups, added: Seq::empty() };
                start.steps_are_right(importers, overrides, known, requests, cutoff);
                if let Ok(done) = start.steps(requests, cutoff) {
                    node_wants_all(importers, done.state.nodes, done.added);
                    let wants = all_node_wants(done.state.nodes, done.added);
                    requests_for_all(importers, done.state.nodes, overrides, done.state.overrides, wants);
                    if let Ok((used, next)) = requests_for(done.state.overrides, wants) {
                        let after = StateView { overrides: used, ..done.state };
                        assert(after.nodes == done.state.nodes);
                        assert forall|from: OriginView, edge: Edge, alias: Text| #[trigger]
                            asks(importers, after.nodes, from, edge).contains_key(alias) implies is_settled(
                            importers,
                            after.nodes,
                            done.groups,
                            overrides,
                            known,
                            cutoff,
                            from,
                            edge,
                            alias,
                        ) || is_requested(next, from, edge, alias) by {
                            self.required_goes_on(
                                importers,
                                groups,
                                overrides,
                                known,
                                cutoff,
                                requests,
                                start,
                                done,
                                next,
                                from,
                                edge,
                                alias,
                            );
                        }
                        let rest = answers.skip(1);
                        assert(gives_known(registry, rest, known)) by {
                            assert forall|i: int| 0 <= i < rest.len() implies #[trigger] rest[i] == answers[i + 1] by {}
                        }
                        after.rounds_are_right(
                            registry,
                            importers,
                            overrides,
                            known,
                            done.groups,
                            next,
                            rest,
                            cutoff,
                        );
                    }
                }
            }
        }
    }

    proof fn required_goes_on(
        self,
        importers: Seq<SpecifiersView>,
        groups: Seq<GroupsView>,
        overrides: Seq<EntryView>,
        known: Set<(Text, PackumentView)>,
        cutoff: Option<Timestamp>,
        requests: Seq<RequestView>,
        start: Progress,
        done: Progress,
        next: Seq<RequestView>,
        from: OriginView,
        edge: Edge,
        alias: Text,
    )
        requires
            start.state.nodes == self.nodes,
            start.groups == groups,
            start.goes_on(done),
            got_or_requested(importers, self.nodes, groups, overrides, known, cutoff, requests),
            is_requested(requests, from, edge, alias) ==> is_settled(
                importers,
                done.state.nodes,
                done.groups,
                overrides,
                known,
                cutoff,
                from,
                edge,
                alias,
            ),
            forall|key: Text, edge: Edge, alias: Text| #[trigger]
                asks(importers, done.state.nodes, OriginView::Node(key), edge).contains_key(alias)
                    && done.added.contains(key) ==> is_wanted(
                    all_node_wants(done.state.nodes, done.added),
                    OriginView::Node(key),
                    edge,
                    alias,
                ),
            forall|from: OriginView, edge: Edge, alias: Text|
                is_wanted(all_node_wants(done.state.nodes, done.added), from, edge, alias) ==> #[trigger] is_requested(
                    next,
                    from,
                    edge,
                    alias,
                ) || (edge != Edge::Dependency && target(
                    overrides,
                    alias,
                    asks(importers, done.state.nodes, from, edge)[alias],
                ) is None),
            asks(importers, done.state.nodes, from, edge).contains_key(alias),
        ensures
            is_settled(
                importers,
                done.state.nodes,
                done.groups,
                overrides,
                known,
                cutoff,
                from,
                edge,
                alias,
            ) || is_requested(next, from, edge, alias),
    {
        let is_new = match from {
            OriginView::Node(key) => !self.nodes.contains_key(key),
            _ => false,
        };
        if is_new {
            assert(done.added.contains(from->Node_0));
            assert(is_wanted(all_node_wants(done.state.nodes, done.added), from, edge, alias));
            assert(is_requested(next, from, edge, alias) || target(
                overrides,
                alias,
                asks(importers, done.state.nodes, from, edge)[alias],
            ) is None);
        } else {
            if let OriginView::Node(key) = from {
                assert(self.nodes.contains_key(key));
            }
            assert(asks(importers, self.nodes, from, edge).contains_key(alias));
            grown_asks(importers, self.nodes, done.state.nodes, from, edge, alias);
            if gets(groups, self.nodes, from, edge).contains_key(alias) {
                assert(gets(done.groups, done.state.nodes, from, edge).contains_key(alias));
            }
        }
    }
}

/// Whatever the importers and the packages that they lead to got is a version of what they asked for,
/// and whatever they asked for they got. Only what is not required may be left out, and only where it
/// cannot be understood or nothing that the registry gave for that package fits. Overrides count before
/// anything else.
pub proof fn choices_are_complete<R: Registry>(
    registry: R,
    importers: Seq<SpecifiersView>,
    preferred: Seq<(Text, Text)>,
    overrides: Seq<EntryView>,
    answers: Seq<Answer>,
    cutoff: Option<Timestamp>,
    known: Set<(Text, PackumentView)>,
)
    requires
        are_finite(importers),
        gives_known(registry, answers, known),
        forall|given: (Text, PackumentView)| #[trigger] known.contains(given) ==> is_finite_packument(given.1),
    ensures
        first_state(preferred, overrides).chooses(registry, importers, answers, cutoff) matches Some(Ok((state, groups)))
            ==> {
            &&& groups.len() == importers.len()
            &&& got_what_was_asked(importers, state.nodes, groups, overrides, known)
            &&& got_all_there_is(importers, state.nodes, groups, overrides, known, cutoff)
            &&& got_all_required(importers, state.nodes, groups)
            &&& keys_are_names(state.nodes)
            &&& are_given(state.nodes, known)
            &&& is_sound(state.nodes, groups)
            &&& is_finite(state.nodes)
        },
{
    let first = first_state(preferred, overrides);
    let wants = all_importer_wants(importers);
    let groups = Seq::new(importers.len(), |i: int| GroupsView::none());
    importer_wants_all(importers, first.nodes);
    requests_for_all(importers, first.nodes, overrides, overrides, wants);
    if let Ok((used, requests)) = requests_for(overrides, wants) {
        let state = StateView { overrides: used, ..first };
        assert forall|from: OriginView, edge: Edge| #[trigger] gets(groups, state.nodes, from, edge) == Map::<
            Text,
            Text,
        >::empty() by {}
        assert(got_or_requested(importers, state.nodes, groups, overrides, known, cutoff, requests)) by {
            assert forall|from: OriginView, edge: Edge, alias: Text| #[trigger]
                asks(importers, state.nodes, from, edge).contains_key(alias) implies is_settled(
                importers,
                state.nodes,
                groups,
                overrides,
                known,
                cutoff,
                from,
                edge,
                alias,
            ) || is_requested(requests, from, edge, alias) by {
                if let OriginView::Importer { index, group } = from {
                    assert(is_wanted(wants, from, edge, alias));
                    assert(is_requested(requests, from, edge, alias) || target(
                        overrides,
                        alias,
                        asks(importers, state.nodes, from, edge)[alias],
                    ) is None);
                }
            }
        }
        state.rounds_are_right(registry, importers, overrides, known, groups, requests, answers, cutoff);
        if let Some(Ok((last, links))) = state.rounds(registry, groups, requests, answers, cutoff) {
            right_is_sound(importers, last.nodes, links, overrides, known);
        }
    }
}

/// What the registry gave is known of any name.
pub proof fn given_is_known<R: Registry>(registry: R, answers: Seq<Answer>)
    ensures
        gives_known(registry, answers, given_for_any(answers)),
{
    let known = given_for_any(answers);
    assert forall|i: int| 0 <= i < answers.len() implies {
        &&& forall|names: Seq<Text>, j: int|
            registry.may_cache(names, (#[trigger] answers[i]).cached) && 0 <= j < names.len() && j
                < answers[i].cached.len() && (#[trigger] answers[i].cached[j]) is Some ==> known.contains(
                (#[trigger] names[j], answers[i].cached[j]->0),
            )
        &&& forall|names: Seq<Text>, j: int|
            registry.may_fetch(names, answers[i].fetched) && answers[i].fetched is Ok && 0 <= j < names.len() && j
                < answers[i].fetched->Ok_0.len() ==> known.contains(
                (#[trigger] names[j], #[trigger] answers[i].fetched->Ok_0[j]),
            )
    } by {
        let answer = answers[i];
        assert forall|j: int| 0 <= j < answer.cached.len() && (#[trigger] answer.cached[j]) is Some implies gave(
            answers,
            answer.cached[j]->0,
        ) by {
            assert(answers[i].cached.contains(Some(answer.cached[j]->0)));
        }
        if let Ok(packuments) = answer.fetched {
            assert forall|j: int| 0 <= j < packuments.len() implies gave(answers, #[trigger] packuments[j]) by {
                assert(packuments.contains(packuments[j]));
                assert(answers[i].fetched is Ok);
            }
        }
    }
}

/// Whatever the importers and the packages that they lead to got is a version of what they asked for,
/// and whatever they require they got. Overrides count before anything else.
pub proof fn choices_are_right<R: Registry>(
    registry: R,
    importers: Seq<SpecifiersView>,
    preferred: Seq<(Text, Text)>,
    overrides: Seq<EntryView>,
    answers: Seq<Answer>,
    cutoff: Option<Timestamp>,
)
    requires
        are_finite(importers),
        forall|p: PackumentView| #[trigger] given(answers).contains(p) ==> is_finite_packument(p),
    ensures
        first_state(preferred, overrides).chooses(registry, importers, answers, cutoff) matches Some(Ok((state, groups)))
            ==> {
            &&& groups.len() == importers.len()
            &&& got_what_was_asked(importers, state.nodes, groups, overrides, given_for_any(answers))
            &&& got_all_required(importers, state.nodes, groups)
            &&& keys_are_names(state.nodes)
            &&& are_given(state.nodes, given_for_any(answers))
            &&& is_sound(state.nodes, groups)
            &&& is_finite(state.nodes)
        },
{
    given_is_known(registry, answers);
    assert forall|pair: (Text, PackumentView)| #[trigger] given_for_any(answers).contains(
        pair,
    ) implies is_finite_packument(pair.1) by {
        assert(given(answers).contains(pair.1));
    }
    choices_are_complete(registry, importers, preferred, overrides, answers, cutoff, given_for_any(answers));
}

proof fn right_is_sound(
    importers: Seq<SpecifiersView>,
    nodes: Map<Text, NodeView>,
    groups: Seq<GroupsView>,
    overrides: Seq<EntryView>,
    known: Set<(Text, PackumentView)>,
)
    requires
        are_finite(importers),
        finite_nodes(nodes),
        got_what_was_asked(importers, nodes, groups, overrides, known),
    ensures
        is_sound(nodes, groups),
        is_finite(nodes),
{
    assert forall|key: Text| #[trigger] nodes.contains_key(key) implies nodes[key].leads_into(nodes)
        && nodes[key].deps.dom().finite() && nodes[key].optional_deps.dom().finite()
        && nodes[key].auto_peers.dom().finite() by {
        let from = OriginView::Node(key);
        gets_lead_into(importers, nodes, groups, overrides, known, from, Edge::Dependency);
        gets_lead_into(importers, nodes, groups, overrides, known, from, Edge::Optional);
        gets_lead_into(importers, nodes, groups, overrides, known, from, Edge::Peer);
    }
    assert forall|i: int| 0 <= i < groups.len() implies (#[trigger] groups[i]).leads_into(nodes) by {
        let (a, b, c) = (
            OriginView::Importer { index: i, group: 0 },
            OriginView::Importer { index: i, group: 1 },
            OriginView::Importer { index: i, group: 2 },
        );
        gets_lead_into(importers, nodes, groups, overrides, known, a, Edge::Dependency);
        gets_lead_into(importers, nodes, groups, overrides, known, b, Edge::Dependency);
        gets_lead_into(importers, nodes, groups, overrides, known, c, Edge::Optional);
    }
}

proof fn gets_lead_into(
    importers: Seq<SpecifiersView>,
    nodes: Map<Text, NodeView>,
    groups: Seq<GroupsView>,
    overrides: Seq<EntryView>,
    known: Set<(Text, PackumentView)>,
    from: OriginView,
    edge: Edge,
)
    requires
        are_finite(importers),
        finite_nodes(nodes),
        got_what_was_asked(importers, nodes, groups, overrides, known),
    ensures
        leads_into(gets(groups, nodes, from, edge), nodes),
        gets(groups, nodes, from, edge).dom().finite(),
{
    let got = gets(groups, nodes, from, edge);
    let asked = asks(importers, nodes, from, edge);
    assert forall|alias: Text| #[trigger] got.contains_key(alias) implies nodes.contains_key(got[alias])
        && asked.contains_key(alias) by {
        assert(gets(groups, nodes, from, edge).contains_key(alias));
    }
    asks_are_finite(importers, nodes, from, edge);
    assert(got.dom().subset_of(asked.dom()));
    vstd::set_lib::lemma_len_subset(got.dom(), asked.dom());
}

/// A version that is preferred counts as chosen from the start, and nothing else does.
pub proof fn preferred_are_chosen(preferred: Seq<(Text, Text)>, overrides: Seq<EntryView>, name: Text, v: VersionView)
    ensures
        first_state(preferred, overrides).chosen_of(name).contains(v) <==> exists|i: int|
            0 <= i < preferred.len() && (#[trigger] preferred[i]).0 == name && (parsed_version(
                preferred[i].1,
            ) matches Some(version) && bare(version) == v),
    decreases preferred.len(),
{
    if preferred.len() > 0 {
        let shorter = preferred.drop_last();
        preferred_are_chosen(shorter, overrides, name, v);
        assert(preferred[preferred.len() - 1] == preferred.last());
        if first_state(shorter, overrides).chosen_of(name).contains(v) {
            let i = choose|i: int|
                0 <= i < shorter.len() && (#[trigger] shorter[i]).0 == name && (parsed_version(
                    shorter[i].1,
                ) matches Some(version) && bare(version) == v);
            assert(preferred[i] == shorter[i]);
        }
        if exists|i: int|
            0 <= i < preferred.len() && (#[trigger] preferred[i]).0 == name && (parsed_version(
                preferred[i].1,
            ) matches Some(version) && bare(version) == v) {
            let i = choose|i: int|
                0 <= i < preferred.len() && (#[trigger] preferred[i]).0 == name && (parsed_version(
                    preferred[i].1,
                ) matches Some(version) && bare(version) == v);
            if i < shorter.len() {
                assert(shorter[i] == preferred[i]);
            }
        }
    }
}

/// Where a released version fits, a request gets one. Whatever it gets is a version of that package which
/// is what it asks for, and counts as chosen from then on. Where nothing fits and nothing that was chosen
/// before does, what is not required is passed over, and what is required fails.
pub proof fn fitting_version_is_chosen(state: StateView, request: RequestView, cutoff: Option<Timestamp>)
    requires
        state.packuments.contains_key(request.name),
        state.packuments[request.name].packument.versions.dom().finite(),
    ensures
        ({
            let p = state.packuments[request.name].packument;
            let outcome = state.choose_for(request, cutoff);
            &&& !nothing_fits(p, request.range, cutoff) ==> (outcome matches Ok((_, Some(_))))
            &&& outcome matches Ok((next, Some(raw))) ==> {
                &&& p.versions.contains_key(raw)
                &&& parsed_version(raw) matches Some(v) && suits(p, request.range, bare(v)) && next.chosen_of(
                    request.name,
                ).contains(bare(v))
                &&& forall|w: VersionView| #[trigger]
                    state.chosen_of(request.name).contains(w) ==> next.chosen_of(request.name).contains(w)
                &&& forall|other: Text|
                    other != request.name ==> #[trigger] next.chosen_of(other) == state.chosen_of(other)
                &&& next.nodes == state.nodes && next.packuments == state.packuments
            }
            &&& nothing_fits(p, request.range, cutoff) && (forall|w: VersionView| #[trigger]
                state.chosen_of(request.name).contains(w) ==> !suits(p, request.range, w)) ==> if request.edge
                == Edge::Dependency {
                outcome is Err
            } else {
                outcome == Ok::<(StateView, Option<Text>), Seq<Text>>((state, None))
            }
        }),
{
    let p = state.packuments[request.name].packument;
    let chosen = state.chosen_of(request.name);
    let released = release_rule(p, cutoff);
    picked_is_release(p, request.range, chosen, released);
    picked_suits(p, request.range, chosen, released);
    picked_may_be_chosen(p, request.range, chosen, cutoff);
    if !nothing_fits(p, request.range, cutoff) {
        let (v, raw) = choose|v: VersionView, raw: Text| #[trigger]
            is_release(p.raws(), v, raw) && p.is_released(raw, cutoff) && may_be_chosen(p, request.range, v);
        something_is_picked(p, request.range, chosen, cutoff, v, raw);
    }
    if let Ok((next, Some(raw))) = state.choose_for(request, cutoff) {
        assert forall|other: Text| other != request.name implies #[trigger] next.chosen_of(other) == state.chosen_of(
            other,
        ) by {}
    }
}

} // verus!
