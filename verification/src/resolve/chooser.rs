//! Versions are chosen breadth-first, reusing an already chosen version wherever it satisfies a
//! range.
use vstd::prelude::*;

use crate::dict::{sorted, sorted_properties, taken_one_more, Dict, Duplicate, Names};
use crate::error::Error;
use crate::lock::{Specifiers, SpecifiersView};
use crate::registry::{fetched_view, PackumentView, Registry, VersionManifest, VersionManifestView};
use crate::resolve::overrides::{override_for, with_used, EntryView, Overrides};
use crate::resolve::pick::{
    picked, picked_is_release, pick_version, pinned, pinned_version, release_rule, Fetched, FetchedView, Versions,
};
use crate::resolve::{parse_spec, parsed_spec};
use crate::text::{cat, cat3, cat4, cat5, Text};
use crate::time::Timestamp;
use crate::version::{bare, parsed_version, Version, VersionView};

verus! {

/// What kind of dependency leads from one package to another.
#[derive(Debug, Clone, Copy, PartialEq, Eq, Structural)]
pub enum Edge {
    Dependency,
    Optional,
    Peer,
}

impl DeepView for Edge {
    type V = Edge;

    open spec fn deep_view(&self) -> Edge {
        *self
    }
}

/// Who asks for a package: a group of dependencies of an importer, or another package.
#[derive(Debug, PartialEq, Eq)]
pub enum Origin {
    Importer { index: usize, group: usize },
    Node(String),
}

/// What an `Origin` means.
pub enum OriginView {
    Importer { index: int, group: int },
    Node(Text),
}

impl DeepView for Origin {
    type V = OriginView;

    open spec fn deep_view(&self) -> OriginView {
        match self {
            Origin::Importer { index, group } => OriginView::Importer { index: *index as int, group: *group as int },
            Origin::Node(key) => OriginView::Node(key@),
        }
    }
}

/// What is asked for, as it is written.
#[derive(Debug, PartialEq, Eq)]
pub struct Want {
    pub from: Origin,
    pub edge: Edge,
    pub alias: String,
    pub spec: String,
}

/// What a `Want` means.
#[verifier::ext_equal]
pub struct WantView {
    pub from: OriginView,
    pub edge: Edge,
    pub alias: Text,
    pub spec: Text,
}

impl View for Want {
    type V = WantView;

    open spec fn view(&self) -> WantView {
        WantView {
            from: self.from.deep_view(),
            edge: self.edge.deep_view(),
            alias: self.alias.deep_view(),
            spec: self.spec.deep_view(),
        }
    }
}

impl DeepView for Want {
    type V = WantView;

    open spec fn deep_view(&self) -> WantView {
        self@
    }
}

/// What is asked for, overrides applied.
#[derive(Debug, PartialEq, Eq)]
pub struct Request {
    pub from: Origin,
    pub edge: Edge,
    pub alias: String,
    pub name: String,
    pub range: String,
}

/// What a `Request` means.
#[verifier::ext_equal]
pub struct RequestView {
    pub from: OriginView,
    pub edge: Edge,
    pub alias: Text,
    pub name: Text,
    pub range: Text,
}

impl View for Request {
    type V = RequestView;

    open spec fn view(&self) -> RequestView {
        RequestView {
            from: self.from.deep_view(),
            edge: self.edge.deep_view(),
            alias: self.alias.deep_view(),
            name: self.name.deep_view(),
            range: self.range.deep_view(),
        }
    }
}

impl DeepView for Request {
    type V = RequestView;

    open spec fn deep_view(&self) -> RequestView {
        self@
    }
}

/// What the dependencies of an importer lead to, group by group.
#[derive(Debug, PartialEq, Eq)]
pub struct Groups {
    pub dependencies: Dict<String>,
    pub dev_dependencies: Dict<String>,
    pub optional_dependencies: Dict<String>,
}

/// What a `Groups` means.
#[verifier::ext_equal]
pub struct GroupsView {
    pub dependencies: Map<Text, Text>,
    pub dev_dependencies: Map<Text, Text>,
    pub optional_dependencies: Map<Text, Text>,
}

impl View for Groups {
    type V = GroupsView;

    open spec fn view(&self) -> GroupsView {
        GroupsView {
            dependencies: self.dependencies.deep_view(),
            dev_dependencies: self.dev_dependencies.deep_view(),
            optional_dependencies: self.optional_dependencies.deep_view(),
        }
    }
}

impl DeepView for Groups {
    type V = GroupsView;

    open spec fn deep_view(&self) -> GroupsView {
        self@
    }
}

impl Duplicate for Groups {
    fn duplicate(&self) -> (result: Self) {
        Groups {
            dependencies: self.dependencies.duplicate(),
            dev_dependencies: self.dev_dependencies.duplicate(),
            optional_dependencies: self.optional_dependencies.duplicate(),
        }
    }
}

/// A chosen version, and what its dependencies lead to.
#[derive(Debug, PartialEq, Eq)]
pub struct Node {
    pub name: String,
    pub version: String,
    pub manifest: VersionManifest,
    pub deps: Dict<String>,
    pub optional_deps: Dict<String>,
    /// Peer name to whether it is optional.
    pub peers: Dict<bool>,
    pub auto_peers: Dict<String>,
}

/// What a `Node` means.
#[verifier::ext_equal]
pub struct NodeView {
    pub name: Text,
    pub version: Text,
    pub manifest: VersionManifestView,
    pub deps: Map<Text, Text>,
    pub optional_deps: Map<Text, Text>,
    pub peers: Map<Text, bool>,
    pub auto_peers: Map<Text, Text>,
}

impl View for Node {
    type V = NodeView;

    open spec fn view(&self) -> NodeView {
        NodeView {
            name: self.name.deep_view(),
            version: self.version.deep_view(),
            manifest: self.manifest.deep_view(),
            deps: self.deps.deep_view(),
            optional_deps: self.optional_deps.deep_view(),
            peers: self.peers.deep_view(),
            auto_peers: self.auto_peers.deep_view(),
        }
    }
}

impl DeepView for Node {
    type V = NodeView;

    open spec fn deep_view(&self) -> NodeView {
        self@
    }
}

/// The dependencies in `deps`, in order.
pub open spec fn wants_of(from: OriginView, edge: Edge, deps: Map<Text, Text>) -> Seq<WantView> {
    sorted(deps.dom()).map_values(|alias: Text| WantView { from, edge, alias, spec: deps[alias] })
}

/// What an importer depends on.
pub open spec fn importer_wants(index: int, importer: SpecifiersView) -> Seq<WantView> {
    wants_of(OriginView::Importer { index, group: 0 }, Edge::Dependency, importer.dependencies) + wants_of(
        OriginView::Importer { index, group: 1 },
        Edge::Dependency,
        importer.dev_dependencies,
    ) + wants_of(OriginView::Importer { index, group: 2 }, Edge::Optional, importer.optional_dependencies)
}

/// What the importers depend on.
pub open spec fn all_importer_wants(importers: Seq<SpecifiersView>) -> Seq<WantView>
    decreases importers.len(),
{
    if importers.len() == 0 {
        Seq::empty()
    } else {
        all_importer_wants(importers.drop_last()) + importer_wants(importers.len() - 1, importers.last())
    }
}

/// The peers of a package: those that it does not depend on itself, and whether they are optional.
pub open spec fn peers_of(manifest: VersionManifestView) -> Map<Text, bool> {
    Map::new(
        |peer: Text|
            manifest.peer_dependencies.contains_key(peer) && !manifest.dependencies.contains_key(peer)
                && !manifest.optional_dependencies.contains_key(peer),
        |peer: Text|
            manifest.peer_dependencies_meta.contains_key(peer) && manifest.peer_dependencies_meta[peer].optional,
    )
}

/// A version that was just chosen.
pub open spec fn new_node(name: Text, version: Text, manifest: VersionManifestView) -> NodeView {
    NodeView {
        name,
        version,
        manifest,
        deps: Map::empty(),
        optional_deps: Map::empty(),
        peers: peers_of(manifest),
        auto_peers: Map::empty(),
    }
}

/// The peers that must be there, and what is asked of them.
pub open spec fn required_peers(node: NodeView) -> Map<Text, Text> {
    node.manifest.peer_dependencies.restrict(
        Set::new(|peer: Text| node.peers.contains_key(peer) && !node.peers[peer]),
    )
}

/// What a package depends on. An optional dependency is no other dependency as well.
pub open spec fn node_wants(key: Text, node: NodeView) -> Seq<WantView> {
    let from = OriginView::Node(key);
    let manifest = node.manifest;
    wants_of(from, Edge::Dependency, manifest.dependencies.remove_keys(manifest.optional_dependencies.dom()))
        + wants_of(from, Edge::Optional, manifest.optional_dependencies) + wants_of(
        from,
        Edge::Peer,
        required_peers(node),
    )
}

/// What the packages `keys` depend on.
pub open spec fn all_node_wants(nodes: Map<Text, NodeView>, keys: Seq<Text>) -> Seq<WantView>
    decreases keys.len(),
{
    if keys.len() == 0 {
        Seq::empty()
    } else {
        all_node_wants(nodes, keys.drop_last()) + node_wants(keys.last(), nodes[keys.last()])
    }
}

/// A problem with what `from` asks for.
pub open spec fn blamed(from: OriginView, problem: Text) -> Seq<Text> {
    match from {
        OriginView::Importer { .. } => seq![problem],
        OriginView::Node(key) => seq!["in "@ + key, problem],
    }
}

/// What `want` asks for, and which overrides have been of use by then. What is not required is
/// skipped where it cannot be understood.
pub open spec fn request_for(overrides: Seq<EntryView>, want: WantView) -> Result<
    (Seq<EntryView>, Option<RequestView>),
    Seq<Text>,
> {
    match parsed_spec(want.alias, want.spec) {
        Ok((name, range)) => match override_for(overrides, name, range) {
            Some(i) => Ok(
                (
                    with_used(overrides, i),
                    Some(
                        RequestView {
                            from: want.from,
                            edge: want.edge,
                            alias: want.alias,
                            name: overrides[i].to.0,
                            range: overrides[i].to.1,
                        },
                    ),
                ),
            ),
            None => Ok(
                (overrides, Some(RequestView { from: want.from, edge: want.edge, alias: want.alias, name, range })),
            ),
        },
        Err(problem) => if want.edge == Edge::Dependency {
            Err(blamed(want.from, problem))
        } else {
            Ok((overrides, None))
        },
    }
}

/// What `wants` ask for, one after another.
pub open spec fn requests_for(overrides: Seq<EntryView>, wants: Seq<WantView>) -> Result<
    (Seq<EntryView>, Seq<RequestView>),
    Seq<Text>,
>
    decreases wants.len(),
{
    if wants.len() == 0 {
        Ok((overrides, Seq::empty()))
    } else {
        match request_for(overrides, wants[0]) {
            Err(problem) => Err(problem),
            Ok((overrides, first)) => match requests_for(overrides, wants.skip(1)) {
                Err(problem) => Err(problem),
                Ok((overrides, rest)) => Ok(
                    (
                        overrides,
                        match first {
                            Some(request) => seq![request] + rest,
                            None => rest,
                        },
                    ),
                ),
            },
        }
    }
}

/// What is known in the course of choosing.
#[verifier::ext_equal]
pub struct StateView {
    pub packuments: Map<Text, FetchedView>,
    pub chosen: Map<Text, Set<VersionView>>,
    pub nodes: Map<Text, NodeView>,
    pub overrides: Seq<EntryView>,
}

impl StateView {
    /// The versions of `name` that have been chosen.
    pub open spec fn chosen_of(self, name: Text) -> Set<VersionView> {
        if self.chosen.contains_key(name) {
            self.chosen[name]
        } else {
            Set::empty()
        }
    }

    /// A cached packument may do for this request.
    pub open spec fn is_cacheable(self, request: RequestView) -> bool {
        !self.packuments.contains_key(request.name) && pinned(request.range, self.chosen_of(request.name)) is Some
    }

    /// A packument must be fetched for this request.
    pub open spec fn is_needed(self, request: RequestView) -> bool {
        !self.packuments.contains_key(request.name) || (!self.packuments[request.name].verified
            && !self.packuments[request.name].has_pinned(request.range, self.chosen_of(request.name)))
    }

    /// The names for which the cache is asked.
    pub open spec fn cacheable(self, requests: Seq<RequestView>) -> Set<Text> {
        requests.filter(|request: RequestView| self.is_cacheable(request)).map_values(
            |request: RequestView| request.name,
        ).to_set()
    }

    /// The names for which the registry is asked.
    pub open spec fn needed(self, requests: Seq<RequestView>) -> Set<Text> {
        requests.filter(|request: RequestView| self.is_needed(request)).map_values(
            |request: RequestView| request.name,
        ).to_set()
    }
}

/// `packuments` with what the cache holds of `names`.
pub open spec fn with_cached(
    packuments: Map<Text, FetchedView>,
    names: Seq<Text>,
    cached: Seq<Option<PackumentView>>,
) -> Map<Text, FetchedView>
    decreases names.len(),
{
    if names.len() == 0 || cached.len() == 0 {
        packuments
    } else {
        let more = match cached[0] {
            Some(packument) => packuments.insert(names[0], FetchedView { packument, verified: false }),
            None => packuments,
        };
        with_cached(more, names.skip(1), cached.skip(1))
    }
}

/// `packuments` with what the registry gave for `names`.
pub open spec fn with_fetched(
    packuments: Map<Text, FetchedView>,
    names: Seq<Text>,
    fetched: Seq<PackumentView>,
) -> Map<Text, FetchedView>
    decreases names.len(),
{
    if names.len() == 0 || fetched.len() == 0 {
        packuments
    } else {
        with_fetched(
            packuments.insert(names[0], FetchedView { packument: fetched[0], verified: true }),
            names.skip(1),
            fetched.skip(1),
        )
    }
}

/// What the registry answers in one round.
pub struct Answer {
    pub cached: Seq<Option<PackumentView>>,
    pub fetched: Result<Seq<PackumentView>, Seq<Text>>,
}

impl StateView {
    /// This state once the cache has answered.
    pub open spec fn after_cache(self, requests: Seq<RequestView>, answer: Answer) -> StateView {
        StateView {
            packuments: with_cached(self.packuments, sorted(self.cacheable(requests)), answer.cached),
            ..self
        }
    }

    /// `answer` is what `registry` may give for the names that it is asked for. It is asked for none
    /// that are not needed.
    pub open spec fn may_get<R: Registry>(self, registry: R, requests: Seq<RequestView>, answer: Answer) -> bool {
        let needed = sorted(self.after_cache(requests, answer).needed(requests));
        &&& registry.may_cache(sorted(self.cacheable(requests)), answer.cached)
        &&& needed.len() > 0 ==> registry.may_fetch(needed, answer.fetched)
    }

    /// This state once the registry has answered.
    pub open spec fn after_fetch(self, requests: Seq<RequestView>, answer: Answer) -> Result<StateView, Seq<Text>> {
        let state = self.after_cache(requests, answer);
        let needed = sorted(state.needed(requests));
        if needed.len() == 0 {
            Ok(state)
        } else {
            match answer.fetched {
                Ok(packuments) => Ok(
                    StateView { packuments: with_fetched(state.packuments, needed, packuments), ..state },
                ),
                Err(problem) => Err(problem),
            }
        }
    }
}

/// What no version could be chosen for.
pub open spec fn choice_problem(p: PackumentView, request: RequestView, chosen: Set<VersionView>) -> Text {
    if picked(p, request.range, chosen, release_rule(p, None)) is Some {
        "every version of "@ + request.name + " matching "@ + request.range
            + " was published too recently for hinata.minimumReleaseAge"@
    } else {
        "no version of "@ + request.name + " matches "@ + request.range
    }
}

impl StateView {
    /// The version for `request`, as it is written, and the state in which it has been chosen. What
    /// is not required is skipped where no version fits.
    pub open spec fn choose_for(self, request: RequestView, cutoff: Option<Timestamp>) -> Result<
        (StateView, Option<Text>),
        Seq<Text>,
    > {
        let chosen = self.chosen_of(request.name);
        let p = self.packuments[request.name].packument;
        if !self.packuments.contains_key(request.name) {
            Err(seq!["the registry gave no answer for "@ + request.name])
        } else {
            match picked(p, request.range, chosen, release_rule(p, cutoff)) {
                Some((v, raw)) => Ok(
                    (StateView { chosen: self.chosen.insert(request.name, chosen.insert(v)), ..self }, Some(raw)),
                ),
                None => if request.edge == Edge::Dependency {
                    Err(seq![choice_problem(p, request, chosen)])
                } else {
                    Ok((self, None))
                },
            }
        }
    }

    /// The state in which version `raw` of `name` is a node.
    pub open spec fn add_version(self, name: Text, raw: Text) -> Result<StateView, Seq<Text>> {
        let key = name + "@"@ + raw;
        let release = self.packuments[name].packument.versions[raw];
        match release.manifest {
            Some(manifest) => Ok(
                StateView { nodes: self.nodes.insert(key, new_node(name, raw, manifest)), ..self },
            ),
            None => Err(seq!["reading the registry metadata of "@ + key, release.problem]),
        }
    }
}

impl NodeView {
    /// This node with a dependency that leads to `key`.
    pub open spec fn with_edge(self, edge: Edge, alias: Text, key: Text) -> NodeView {
        match edge {
            Edge::Dependency => NodeView { deps: self.deps.insert(alias, key), ..self },
            Edge::Optional => NodeView { optional_deps: self.optional_deps.insert(alias, key), ..self },
            Edge::Peer => NodeView { auto_peers: self.auto_peers.insert(alias, key), ..self },
        }
    }
}

impl GroupsView {
    /// The dependencies of no importer yet.
    pub open spec fn none() -> GroupsView {
        GroupsView {
            dependencies: Map::empty(),
            dev_dependencies: Map::empty(),
            optional_dependencies: Map::empty(),
        }
    }

    /// These groups with a dependency that leads to `key`.
    pub open spec fn with(self, group: int, alias: Text, key: Text) -> GroupsView {
        if group == 0 {
            GroupsView { dependencies: self.dependencies.insert(alias, key), ..self }
        } else if group == 1 {
            GroupsView { dev_dependencies: self.dev_dependencies.insert(alias, key), ..self }
        } else {
            GroupsView { optional_dependencies: self.optional_dependencies.insert(alias, key), ..self }
        }
    }
}

/// How far a round of choices has come.
#[verifier::ext_equal]
pub struct Progress {
    pub state: StateView,
    pub groups: Seq<GroupsView>,
    pub added: Seq<Text>,
}

impl Progress {
    /// This progress once `key` stands where `request` comes from.
    pub open spec fn linked(self, request: RequestView, key: Text) -> Progress {
        match request.from {
            OriginView::Importer { index, group } => Progress {
                groups: self.groups.update(index, self.groups[index].with(group, request.alias, key)),
                ..self
            },
            OriginView::Node(from) => Progress {
                state: StateView {
                    nodes: self.state.nodes.insert(
                        from,
                        self.state.nodes[from].with_edge(request.edge, request.alias, key),
                    ),
                    ..self.state
                },
                ..self
            },
        }
    }

    /// This progress once a version has been chosen for `request`.
    pub open spec fn step(self, request: RequestView, cutoff: Option<Timestamp>) -> Result<Progress, Seq<Text>> {
        match self.state.choose_for(request, cutoff) {
            Err(problem) => Err(problem),
            Ok((state, None)) => Ok(Progress { state, ..self }),
            Ok((state, Some(raw))) => {
                let key = request.name + "@"@ + raw;
                if state.nodes.contains_key(key) {
                    Ok(Progress { state, ..self }.linked(request, key))
                } else {
                    match state.add_version(request.name, raw) {
                        Err(problem) => Err(problem),
                        Ok(state) => Ok(
                            Progress { state, added: self.added.push(key), ..self }.linked(request, key),
                        ),
                    }
                }
            },
        }
    }

    /// This progress once versions have been chosen for all of `requests`.
    pub open spec fn steps(self, requests: Seq<RequestView>, cutoff: Option<Timestamp>) -> Result<Progress, Seq<Text>>
        decreases requests.len(),
    {
        if requests.len() == 0 {
            Ok(self)
        } else {
            match self.step(requests[0], cutoff) {
                Err(problem) => Err(problem),
                Ok(next) => next.steps(requests.skip(1), cutoff),
            }
        }
    }
}

impl StateView {
    /// The next round: what is asked for by what was added in this one.
    pub open spec fn round(
        self,
        groups: Seq<GroupsView>,
        requests: Seq<RequestView>,
        answer: Answer,
        cutoff: Option<Timestamp>,
    ) -> Result<(StateView, Seq<GroupsView>, Seq<RequestView>), Seq<Text>> {
        match self.after_fetch(requests, answer) {
            Err(problem) => Err(problem),
            Ok(state) => match (Progress { state, groups, added: Seq::empty() }).steps(requests, cutoff) {
                Err(problem) => Err(problem),
                Ok(done) => match requests_for(done.state.overrides, all_node_wants(done.state.nodes, done.added)) {
                    Err(problem) => Err(problem),
                    Ok((overrides, next)) => Ok((StateView { overrides, ..done.state }, done.groups, next)),
                },
            },
        }
    }

    /// What comes of `requests` if `registry` gives these `answers`, one in each round. Nothing comes
    /// of too few answers, nor of ones that it does not give.
    pub open spec fn rounds<R: Registry>(
        self,
        registry: R,
        groups: Seq<GroupsView>,
        requests: Seq<RequestView>,
        answers: Seq<Answer>,
        cutoff: Option<Timestamp>,
    ) -> Option<Result<(StateView, Seq<GroupsView>), Seq<Text>>>
        decreases answers.len(),
    {
        if requests.len() == 0 {
            Some(Ok((self, groups)))
        } else if answers.len() == 0 || !self.may_get(registry, requests, answers[0]) {
            None
        } else {
            match self.round(groups, requests, answers[0], cutoff) {
                Err(problem) => Some(Err(problem)),
                Ok((state, groups, next)) => state.rounds(registry, groups, next, answers.skip(1), cutoff),
            }
        }
    }

    /// What comes of the dependencies of `importers` if `registry` gives these `answers`.
    pub open spec fn chooses<R: Registry>(
        self,
        registry: R,
        importers: Seq<SpecifiersView>,
        answers: Seq<Answer>,
        cutoff: Option<Timestamp>,
    ) -> Option<Result<(StateView, Seq<GroupsView>), Seq<Text>>> {
        match requests_for(self.overrides, all_importer_wants(importers)) {
            Err(problem) => Some(Err(problem)),
            Ok((overrides, requests)) => StateView { overrides, ..self }.rounds(
                registry,
                Seq::new(importers.len(), |i: int| GroupsView::none()),
                requests,
                answers,
                cutoff,
            ),
        }
    }
}

impl Duplicate for Origin {
    fn duplicate(&self) -> (result: Self) {
        match self {
            Origin::Importer { index, group } => Origin::Importer { index: *index, group: *group },
            Origin::Node(key) => Origin::Node(key.clone()),
        }
    }
}

fn push_wants(wants: &mut Vec<Want>, from: Origin, edge: Edge, deps: &Dict<String>)
    ensures
        final(wants).deep_view() == old(wants).deep_view() + wants_of(from.deep_view(), edge, deps@),
{
    let ghost before = wants.deep_view();
    let ghost all = wants_of(from.deep_view(), edge, deps@);
    let n: usize = deps.len();
    let mut i: usize = 0;
    assert(wants.deep_view() =~= before + all.take(0));
    while i < n
        invariant
            i <= n,
            n == sorted(deps@.dom()).len(),
            all == wants_of(from.deep_view(), edge, deps@),
            wants.deep_view() == before + all.take(i as int),
        decreases n - i,
    {
        let ghost so_far = wants.deep_view();
        wants.push(
            Want { from: from.duplicate(), edge, alias: deps.key(i).clone(), spec: deps.value(i).clone() },
        );
        assert(wants.deep_view() =~= so_far.push(all[i as int]));
        i += 1;
        assert(wants.deep_view() =~= before + all.take(i as int));
    }
    assert(all.take(i as int) =~= all);
}

fn wants_of_importers(importers: &Vec<Specifiers>) -> (result: Vec<Want>)
    ensures
        result.deep_view() == all_importer_wants(importers.deep_view()),
{
    let mut wants: Vec<Want> = Vec::new();
    let ghost all = importers.deep_view();
    assert(wants.deep_view() =~= Seq::<WantView>::empty());
    let mut i: usize = 0;
    while i < importers.len()
        invariant
            i <= importers.len(),
            all == importers.deep_view(),
            wants.deep_view() == all_importer_wants(all.take(i as int)),
        decreases importers.len() - i,
    {
        let importer = &importers[i];
        let ghost before = wants.deep_view();
        push_wants(&mut wants, Origin::Importer { index: i, group: 0 }, Edge::Dependency, &importer.dependencies);
        push_wants(&mut wants, Origin::Importer { index: i, group: 1 }, Edge::Dependency, &importer.dev_dependencies);
        push_wants(&mut wants, Origin::Importer { index: i, group: 2 }, Edge::Optional, &importer.optional_dependencies);
        proof {
            assert(all.take(i + 1).drop_last() =~= all.take(i as int));
            assert(all.take(i + 1).last() == importer@);
            assert(wants.deep_view() =~= before + importer_wants(i as int, importer@));
        }
        i += 1;
    }
    assert(all.take(i as int) =~= all);
    wants
}

impl Node {
    fn new(name: String, version: String, manifest: VersionManifest) -> (result: Self)
        ensures
            result@ == new_node(name@, version@, manifest@),
    {
        let candidates = manifest.peer_dependencies.without(&manifest.dependencies).without(
            &manifest.optional_dependencies,
        );
        let mut peers: Dict<bool> = Dict::new();
        let n: usize = candidates.len();
        let ghost keys = sorted(candidates@.dom());
        proof {
            sorted_properties(candidates@.dom());
            assert(keys.take(0).to_set() =~= Set::<Text>::empty());
            assert(peers@ =~= peers_of(manifest@).restrict(keys.take(0).to_set()));
        }
        let mut i: usize = 0;
        while i < n
            invariant
                i <= n,
                n == keys.len(),
                keys == sorted(candidates@.dom()),
                forall|x: Text| #[trigger] keys.contains(x) == candidates@.dom().contains(x),
                candidates@ == manifest@.peer_dependencies.remove_keys(manifest@.dependencies.dom()).remove_keys(
                    manifest@.optional_dependencies.dom(),
                ),
                peers@ == peers_of(manifest@).restrict(keys.take(i as int).to_set()),
            decreases n - i,
        {
            let peer = candidates.key(i);
            let optional = match manifest.peer_dependencies_meta.get(peer.as_str()) {
                Some(meta) => meta.optional,
                None => false,
            };
            peers.insert(peer.clone(), optional);
            proof {
                taken_one_more(keys, i as int);
                assert(peers@ =~= peers_of(manifest@).restrict(keys.take(i + 1).to_set()));
            }
            i += 1;
        }
        proof {
            assert(keys.take(i as int) =~= keys);
            assert forall|x: Text| peers_of(manifest@).contains_key(x) implies keys.to_set().contains(x) by {
                assert(keys.contains(x));
            }
            assert(peers@ =~= peers_of(manifest@));
        }
        let result = Node {
            name,
            version,
            manifest,
            deps: Dict::new(),
            optional_deps: Dict::new(),
            peers,
            auto_peers: Dict::new(),
        };
        assert(result@ =~= new_node(name@, version@, manifest@));
        result
    }

    fn required_peers(&self) -> (result: Dict<String>)
        ensures
            result@ == required_peers(self@),
    {
        let mut result: Dict<String> = Dict::new();
        let n: usize = self.peers.len();
        let ghost keys = sorted(self@.peers.dom());
        let ghost all = required_peers(self@);
        proof {
            sorted_properties(self@.peers.dom());
            assert(keys.take(0).to_set() =~= Set::<Text>::empty());
            assert(result@ =~= all.restrict(keys.take(0).to_set()));
        }
        let mut i: usize = 0;
        while i < n
            invariant
                i <= n,
                n == keys.len(),
                keys == sorted(self@.peers.dom()),
                all == required_peers(self@),
                forall|x: Text| #[trigger] keys.contains(x) == self@.peers.dom().contains(x),
                result@ == all.restrict(keys.take(i as int).to_set()),
            decreases n - i,
        {
            let peer = self.peers.key(i);
            proof {
                taken_one_more(keys, i as int);
            }
            if !*self.peers.value(i) {
                if let Some(spec) = self.manifest.peer_dependencies.get(peer.as_str()) {
                    result.insert(peer.clone(), spec.clone());
                }
            }
            assert(result@ =~= all.restrict(keys.take(i + 1).to_set()));
            i += 1;
        }
        proof {
            assert(keys.take(i as int) =~= keys);
            assert forall|x: Text| all.contains_key(x) implies keys.to_set().contains(x) by {
                assert(keys.contains(x));
            }
            assert(result@ =~= all);
        }
        result
    }

    /// Adds to `wants` what the package `key` depends on.
    fn push_wants(&self, key: &str, wants: &mut Vec<Want>)
        ensures
            final(wants).deep_view() == old(wants).deep_view() + node_wants(key@, self@),
    {
        let ghost before = wants.deep_view();
        let manifest = &self.manifest;
        let own = manifest.dependencies.without(&manifest.optional_dependencies);
        push_wants(wants, Origin::Node(key.to_owned()), Edge::Dependency, &own);
        push_wants(wants, Origin::Node(key.to_owned()), Edge::Optional, &manifest.optional_dependencies);
        push_wants(wants, Origin::Node(key.to_owned()), Edge::Peer, &self.required_peers());
        assert(wants.deep_view() =~= before + node_wants(key@, self@));
    }
}

impl Request {
    /// What `want` asks for, once `overrides` have been applied.
    fn new(want: Want, overrides: &mut Overrides) -> (result: Result<Option<Request>, Error>)
        ensures
            match result {
                Ok(request) => request_for(old(overrides)@, want@) == Ok::<
                    (Seq<EntryView>, Option<RequestView>),
                    Seq<Text>,
                >((final(overrides)@, request.deep_view())),
                Err(error) => request_for(old(overrides)@, want@) == Err::<
                    (Seq<EntryView>, Option<RequestView>),
                    Seq<Text>,
                >(error@),
            },
    {
        let ghost before = overrides@;
        match parse_spec(want.alias.as_str(), want.spec.as_str()) {
            Ok((name, range)) => {
                let (name, range) = match overrides.applies(name.as_str(), range.as_str()) {
                    Some(to) => to,
                    None => (name, range),
                };
                Ok(Some(Request { from: want.from, edge: want.edge, alias: want.alias, name, range }))
            },
            Err(error) => {
                if want.edge == Edge::Dependency {
                    match &want.from {
                        Origin::Importer { .. } => {
                            assert(error@ =~= seq![error@[0]]);
                            Err(error)
                        },
                        Origin::Node(key) => {
                            let ghost problem = error@;
                            let result = error.within(cat("in ", key.as_str()));
                            assert(result@ =~= seq!["in "@ + key@, problem[0]]);
                            Err(result)
                        },
                    }
                } else {
                    Ok(None)
                }
            },
        }
    }
}

fn request_all(wants: Vec<Want>, overrides: &mut Overrides) -> (result: Result<Vec<Request>, Error>)
    ensures
        match result {
            Ok(requests) => requests_for(old(overrides)@, wants.deep_view()) == Ok::<
                (Seq<EntryView>, Seq<RequestView>),
                Seq<Text>,
            >((final(overrides)@, requests.deep_view())),
            Err(error) => requests_for(old(overrides)@, wants.deep_view()) == Err::<
                (Seq<EntryView>, Seq<RequestView>),
                Seq<Text>,
            >(error@),
        },
{
    let ghost first = overrides@;
    let ghost all = wants.deep_view();
    let mut requests: Vec<Request> = Vec::new();
    assert(all.skip(0) =~= all);
    assert(requests.deep_view() =~= Seq::<RequestView>::empty());
    proof {
        if let Ok((rest, more)) = requests_for(overrides@, all) {
            assert(requests.deep_view() + more =~= more);
        }
    }
    for want in it: wants
        invariant
            it.seq() == wants@,
            first == old(overrides)@,
            all == wants.deep_view(),
            match requests_for(overrides@, all.skip(it.index() as int)) {
                Ok((rest, more)) => requests_for(first, all) == Ok::<(Seq<EntryView>, Seq<RequestView>), Seq<Text>>(
                    (rest, requests.deep_view() + more),
                ),
                Err(problem) => requests_for(first, all) == Err::<(Seq<EntryView>, Seq<RequestView>), Seq<Text>>(
                    problem,
                ),
            },
    {
        let ghost i = it.index() as int;
        let ghost before = requests.deep_view();
        assert(all.skip(i)[0] == want@);
        assert(all.skip(i).skip(1) =~= all.skip(i + 1));
        match Request::new(want, overrides) {
            Ok(Some(request)) => {
                let ghost meaning = request@;
                requests.push(request);
                proof {
                    assert(requests.deep_view() =~= before.push(meaning));
                    if let Ok((rest, more)) = requests_for(overrides@, all.skip(i + 1)) {
                        assert(before + (seq![meaning] + more) =~= requests.deep_view() + more);
                    }
                }
            },
            Ok(None) => {},
            Err(error) => {
                return Err(error);
            },
        }
    }
    assert(all.skip(all.len() as int) =~= Seq::<WantView>::empty());
    assert(requests.deep_view() + Seq::<RequestView>::empty() =~= requests.deep_view());
    Ok(requests)
}

/// Every edge leads to a node.
pub open spec fn leads_into(edges: Map<Text, Text>, nodes: Map<Text, NodeView>) -> bool {
    forall|alias: Text| #[trigger] edges.contains_key(alias) ==> nodes.contains_key(edges[alias])
}

impl NodeView {
    pub open spec fn leads_into(self, nodes: Map<Text, NodeView>) -> bool {
        leads_into(self.deps, nodes) && leads_into(self.optional_deps, nodes) && leads_into(self.auto_peers, nodes)
    }
}

impl GroupsView {
    pub open spec fn leads_into(self, nodes: Map<Text, NodeView>) -> bool {
        leads_into(self.dependencies, nodes) && leads_into(self.dev_dependencies, nodes) && leads_into(
            self.optional_dependencies,
            nodes,
        )
    }
}

/// No edge of a node leads out of the graph.
pub open spec fn is_closed(nodes: Map<Text, NodeView>) -> bool {
    forall|key: Text| #[trigger] nodes.contains_key(key) ==> nodes[key].leads_into(nodes)
}

/// No edge of a node or an importer leads out of the graph.
pub open spec fn is_sound(nodes: Map<Text, NodeView>, groups: Seq<GroupsView>) -> bool {
    &&& is_closed(nodes)
    &&& forall|i: int| 0 <= i < groups.len() ==> (#[trigger] groups[i]).leads_into(nodes)
}

/// `from` is one of the nodes, or a group of one of the importers.
pub open spec fn is_known(from: OriginView, nodes: Map<Text, NodeView>, importers: nat) -> bool {
    match from {
        OriginView::Importer { index, group } => 0 <= index < importers && 0 <= group < 3,
        OriginView::Node(key) => nodes.contains_key(key),
    }
}

spec fn wants_known(wants: Seq<WantView>, nodes: Map<Text, NodeView>, importers: nat) -> bool {
    forall|i: int| 0 <= i < wants.len() ==> is_known((#[trigger] wants[i]).from, nodes, importers)
}

spec fn requests_known(requests: Seq<RequestView>, nodes: Map<Text, NodeView>, importers: nat) -> bool {
    forall|i: int| 0 <= i < requests.len() ==> is_known((#[trigger] requests[i]).from, nodes, importers)
}

proof fn importer_wants_known(importers: Seq<SpecifiersView>, nodes: Map<Text, NodeView>)
    ensures
        wants_known(all_importer_wants(importers), nodes, importers.len()),
    decreases importers.len(),
{
    if importers.len() > 0 {
        importer_wants_known(importers.drop_last(), nodes);
        let wants = all_importer_wants(importers);
        let before = all_importer_wants(importers.drop_last());
        assert forall|i: int| 0 <= i < wants.len() implies is_known(
            (#[trigger] wants[i]).from,
            nodes,
            importers.len(),
        ) by {
            if i < before.len() {
                assert(wants[i] == before[i]);
            }
        }
    }
}

proof fn node_wants_known(nodes: Map<Text, NodeView>, keys: Seq<Text>, importers: nat)
    requires
        forall|i: int| 0 <= i < keys.len() ==> nodes.contains_key(#[trigger] keys[i]),
    ensures
        wants_known(all_node_wants(nodes, keys), nodes, importers),
    decreases keys.len(),
{
    if keys.len() > 0 {
        node_wants_known(nodes, keys.drop_last(), importers);
        let wants = all_node_wants(nodes, keys);
        let before = all_node_wants(nodes, keys.drop_last());
        assert forall|i: int| 0 <= i < wants.len() implies is_known((#[trigger] wants[i]).from, nodes, importers) by {
            if i < before.len() {
                assert(wants[i] == before[i]);
            } else {
                assert(nodes.contains_key(keys[keys.len() - 1]));
            }
        }
    }
}

proof fn requests_from_wants(
    overrides: Seq<EntryView>,
    wants: Seq<WantView>,
    nodes: Map<Text, NodeView>,
    importers: nat,
)
    requires
        wants_known(wants, nodes, importers),
    ensures
        match requests_for(overrides, wants) {
            Ok((_, requests)) => requests_known(requests, nodes, importers) && requests.len() <= wants.len(),
            Err(_) => true,
        },
    decreases wants.len(),
{
    if wants.len() > 0 {
        if let Ok((overrides, first)) = request_for(overrides, wants[0]) {
            assert(is_known(wants[0].from, nodes, importers));
            assert(wants_known(wants.skip(1), nodes, importers));
            requests_from_wants(overrides, wants.skip(1), nodes, importers);
        }
    }
}

impl Progress {
    spec fn is_sound(self) -> bool {
        &&& is_sound(self.state.nodes, self.groups)
        &&& forall|i: int| 0 <= i < self.added.len() ==> self.state.nodes.contains_key(#[trigger] self.added[i])
    }

    proof fn linked_is_sound(self, request: RequestView, key: Text)
        requires
            self.is_sound(),
            is_known(request.from, self.state.nodes, self.groups.len()),
            self.state.nodes.contains_key(key),
        ensures
            self.linked(request, key).is_sound(),
            self.linked(request, key).state.nodes.dom() == self.state.nodes.dom(),
            self.linked(request, key).groups.len() == self.groups.len(),
    {
        let after = self.linked(request, key);
        let (old_nodes, new_nodes) = (self.state.nodes, after.state.nodes);
        assert(new_nodes.dom() =~= old_nodes.dom());
        assert forall|k: Text| #[trigger] new_nodes.contains_key(k) implies new_nodes[k].leads_into(new_nodes) by {
            assert(old_nodes.contains_key(k));
            assert(old_nodes[k].leads_into(old_nodes));
        }
        assert forall|i: int| 0 <= i < after.groups.len() implies (#[trigger] after.groups[i]).leads_into(new_nodes) by {
            assert(self.groups[i].leads_into(old_nodes));
        }
    }

    proof fn step_is_sound(self, request: RequestView, cutoff: Option<Timestamp>)
        requires
            self.is_sound(),
            is_known(request.from, self.state.nodes, self.groups.len()),
        ensures
            match self.step(request, cutoff) {
                Ok(next) => next.is_sound() && self.state.nodes.dom().subset_of(next.state.nodes.dom())
                    && next.groups.len() == self.groups.len(),
                Err(_) => true,
            },
    {
        if let Ok((state, Some(raw))) = self.state.choose_for(request, cutoff) {
            let key = request.name + "@"@ + raw;
            if state.nodes.contains_key(key) {
                (Progress { state, ..self }).linked_is_sound(request, key);
            } else if let Ok(grown) = state.add_version(request.name, raw) {
                let next = Progress { state: grown, added: self.added.push(key), ..self };
                assert forall|k: Text| #[trigger] grown.nodes.contains_key(k) implies grown.nodes[k].leads_into(
                    grown.nodes,
                ) by {
                    if k != key {
                        assert(state.nodes.contains_key(k));
                        assert(state.nodes[k].leads_into(state.nodes));
                    }
                }
                assert forall|i: int| 0 <= i < next.groups.len() implies (#[trigger] next.groups[i]).leads_into(
                    grown.nodes,
                ) by {
                    assert(self.groups[i].leads_into(state.nodes));
                }
                next.linked_is_sound(request, key);
            }
        }
    }
}

/// Chooses a version for everything that is asked for.
pub struct Chooser<'r, R: Registry> {
    pub registry: &'r R,
    pub cutoff: Option<Timestamp>,
    pub overrides: Overrides,
    pub packuments: Dict<Fetched>,
    pub chosen: Dict<Versions>,
    pub nodes: Dict<Node>,
}

/// The versions in `preferred`, each under its name.
pub open spec fn preferred_versions(preferred: Seq<(Text, Text)>) -> Map<Text, Set<VersionView>>
    decreases preferred.len(),
{
    if preferred.len() == 0 {
        Map::empty()
    } else {
        let before = preferred_versions(preferred.drop_last());
        let (name, raw) = preferred.last();
        match parsed_version(raw) {
            Some(v) => before.insert(
                name,
                if before.contains_key(name) {
                    before[name].insert(bare(v))
                } else {
                    Set::empty().insert(bare(v))
                },
            ),
            None => before,
        }
    }
}

/// The state before anything has been chosen but what is preferred.
pub open spec fn first_state(preferred: Seq<(Text, Text)>, overrides: Seq<EntryView>) -> StateView {
    StateView {
        packuments: Map::empty(),
        chosen: preferred_versions(preferred),
        nodes: Map::empty(),
        overrides,
    }
}

/// Adds `version` to the versions of `name` that have been chosen.
fn note_chosen(chosen: &mut Dict<Versions>, name: &str, version: Version)
    requires
        bare(version@) == version@,
    ensures
        final(chosen)@ == old(chosen)@.insert(
            name@,
            if old(chosen)@.contains_key(name@) {
                old(chosen)@[name@].insert(version@)
            } else {
                Set::empty().insert(version@)
            },
        ),
{
    let ghost before = chosen@;
    let mut versions = match chosen.remove(name) {
        Some(versions) => versions,
        None => Versions::new(),
    };
    versions.insert(version);
    let ghost meaning = versions@;
    chosen.insert(name.to_owned(), versions);
    assert(chosen@ =~= before.insert(name@, meaning));
}

proof fn filtered_names_grow(requests: Seq<RequestView>, keep: spec_fn(RequestView) -> bool, i: int)
    requires
        0 <= i < requests.len(),
    ensures
        requests.take(i + 1).filter(keep).map_values(|request: RequestView| request.name).to_set() == (if keep(
            requests[i],
        ) {
            requests.take(i).filter(keep).map_values(|request: RequestView| request.name).to_set().insert(
                requests[i].name,
            )
        } else {
            requests.take(i).filter(keep).map_values(|request: RequestView| request.name).to_set()
        }),
{
    reveal(Seq::filter);
    let name_of = |request: RequestView| request.name;
    assert(requests.take(i + 1).drop_last() =~= requests.take(i));
    let before = requests.take(i).filter(keep);
    if keep(requests[i]) {
        let (a, b) = (before.push(requests[i]).map_values(name_of), before.map_values(name_of));
        assert forall|x: Text| a.to_set().contains(x) == b.to_set().insert(requests[i].name).contains(x) by {
            if a.contains(x) {
                let k = a.index_of(x);
                if k < b.len() {
                    assert(b[k] == x);
                }
            }
            if b.contains(x) {
                assert(a[b.index_of(x)] == x);
            }
            if x == requests[i].name {
                assert(a[b.len() as int] == x);
            }
        }
        assert(a.to_set() =~= b.to_set().insert(requests[i].name));
    }
}

impl<'r, R: Registry> Chooser<'r, R> {
    /// What is known so far.
    pub open spec fn state(&self) -> StateView {
        StateView {
            packuments: self.packuments@,
            chosen: self.chosen@,
            nodes: self.nodes@,
            overrides: self.overrides@,
        }
    }

    pub fn new(
        registry: &'r R,
        preferred: &Vec<(String, String)>,
        cutoff: Option<Timestamp>,
        overrides: Overrides,
    ) -> (result: Self)
        ensures
            *result.registry == *registry,
            result.cutoff == cutoff,
            result.state() == first_state(preferred.deep_view(), overrides@),
    {
        let mut chosen: Dict<Versions> = Dict::new();
        let ghost all = preferred.deep_view();
        let mut i: usize = 0;
        while i < preferred.len()
            invariant
                i <= preferred.len(),
                all == preferred.deep_view(),
                chosen@ == preferred_versions(all.take(i as int)),
            decreases preferred.len() - i,
        {
            let (name, raw) = (&preferred[i].0, &preferred[i].1);
            proof {
                assert(all.take(i + 1).drop_last() =~= all.take(i as int));
                assert(all[i as int] == (name@, raw@));
            }
            if let Some(version) = Version::parse(raw.as_str()) {
                note_chosen(&mut chosen, name.as_str(), version.into_bare());
            }
            i += 1;
        }
        assert(all.take(i as int) =~= all);
        Chooser { registry, cutoff, overrides, packuments: Dict::new(), chosen, nodes: Dict::new() }
    }

    fn is_cacheable(&self, request: &Request) -> (result: bool)
        ensures
            result == self.state().is_cacheable(request@),
    {
        if self.packuments.contains_key(request.name.as_str()) {
            return false;
        }
        match self.chosen.get(request.name.as_str()) {
            Some(chosen) => pinned_version(request.range.as_str(), chosen).is_some(),
            None => pinned_version(request.range.as_str(), &Versions::new()).is_some(),
        }
    }

    fn is_needed(&self, request: &Request) -> (result: bool)
        ensures
            result == self.state().is_needed(request@),
    {
        match self.packuments.get(request.name.as_str()) {
            None => true,
            Some(fetched) => !fetched.is_verified() && !match self.chosen.get(request.name.as_str()) {
                Some(chosen) => fetched.has_pinned_version(request.range.as_str(), chosen),
                None => fetched.has_pinned_version(request.range.as_str(), &Versions::new()),
            },
        }
    }

    fn cacheable_names(&self, requests: &Vec<Request>) -> (result: Vec<String>)
        ensures
            result.deep_view() == sorted(self.state().cacheable(requests.deep_view())),
    {
        let mut names = Names::new();
        let ghost all = requests.deep_view();
        let ghost keep = |request: RequestView| self.state().is_cacheable(request);
        let ghost name_of = |request: RequestView| request.name;
        proof {
            reveal(Seq::filter);
            assert(all.take(0).filter(keep).map_values(name_of).to_set() =~= Set::<Text>::empty());
        }
        let mut i: usize = 0;
        while i < requests.len()
            invariant
                i <= requests.len(),
                all == requests.deep_view(),
                keep == (|request: RequestView| self.state().is_cacheable(request)),
                name_of == (|request: RequestView| request.name),
                names@ == all.take(i as int).filter(keep).map_values(name_of).to_set(),
            decreases requests.len() - i,
        {
            proof {
                filtered_names_grow(all, keep, i as int);
                assert(all[i as int] == requests@[i as int]@);
            }
            if self.is_cacheable(&requests[i]) {
                names.insert(requests[i].name.clone());
            }
            i += 1;
        }
        assert(all.take(i as int) =~= all);
        names.to_vec()
    }

    fn needed_names(&self, requests: &Vec<Request>) -> (result: Vec<String>)
        ensures
            result.deep_view() == sorted(self.state().needed(requests.deep_view())),
    {
        let mut names = Names::new();
        let ghost all = requests.deep_view();
        let ghost keep = |request: RequestView| self.state().is_needed(request);
        let ghost name_of = |request: RequestView| request.name;
        proof {
            reveal(Seq::filter);
            assert(all.take(0).filter(keep).map_values(name_of).to_set() =~= Set::<Text>::empty());
        }
        let mut i: usize = 0;
        while i < requests.len()
            invariant
                i <= requests.len(),
                all == requests.deep_view(),
                keep == (|request: RequestView| self.state().is_needed(request)),
                name_of == (|request: RequestView| request.name),
                names@ == all.take(i as int).filter(keep).map_values(name_of).to_set(),
            decreases requests.len() - i,
        {
            proof {
                filtered_names_grow(all, keep, i as int);
                assert(all[i as int] == requests@[i as int]@);
            }
            if self.is_needed(&requests[i]) {
                names.insert(requests[i].name.clone());
            }
            i += 1;
        }
        assert(all.take(i as int) =~= all);
        names.to_vec()
    }

    /// Looks up what is known of everything that is asked for.
    fn fetch(&mut self, requests: &Vec<Request>) -> (result: (Result<(), Error>, Ghost<Answer>))
        ensures
            final(self).registry == old(self).registry,
            final(self).cutoff == old(self).cutoff,
            old(self).state().may_get(*old(self).registry, requests.deep_view(), result.1@),
            match result.0 {
                Ok(()) => old(self).state().after_fetch(requests.deep_view(), result.1@) == Ok::<
                    StateView,
                    Seq<Text>,
                >(final(self).state()),
                Err(error) => old(self).state().after_fetch(requests.deep_view(), result.1@) == Err::<
                    StateView,
                    Seq<Text>,
                >(error@),
            },
    {
        let ghost before = self.state();
        let ghost all = requests.deep_view();
        let names = self.cacheable_names(requests);
        let cached = self.registry.cached(&names);
        let ghost cached_view = cached.deep_view();
        let ghost target = with_cached(before.packuments, names.deep_view(), cached_view);
        let mut i: usize = 0;
        assert(names.deep_view().skip(0) =~= names.deep_view());
        assert(cached_view.skip(0) =~= cached_view);
        for packument in it: cached
            invariant
                it.seq() == cached@,
                cached_view == cached.deep_view(),
                self.registry == old(self).registry,
                self.cutoff == old(self).cutoff,
                self.state() == (StateView { packuments: self.packuments@, ..before }),
                i <= names.len(),
                i <= it.index(),
                i < names.len() ==> i == it.index(),
                target == with_cached(
                    self.packuments@,
                    names.deep_view().skip(i as int),
                    cached_view.skip(it.index() as int),
                ),
        {
            if i < names.len() {
                proof {
                    assert(names.deep_view().skip(i as int).skip(1) =~= names.deep_view().skip(i + 1));
                    assert(cached_view.skip(i as int).skip(1) =~= cached_view.skip(i + 1));
                    assert(cached_view.skip(i as int)[0] == packument.deep_view());
                }
                if let Some(packument) = packument {
                    self.packuments.insert(names[i].clone(), Fetched::new(packument, false));
                }
                i += 1;
            }
        }
        assert(self.packuments@ == target);
        let ghost middle = self.state();
        let names = self.needed_names(requests);
        if names.len() == 0 {
            let ghost answer = Answer { cached: cached_view, fetched: Err(Seq::empty()) };
            assert(middle =~= before.after_cache(all, answer));
            return (Ok(()), Ghost(answer));
        }
        let outcome = self.registry.fetch(&names);
        let ghost answer = Answer { cached: cached_view, fetched: fetched_view(outcome) };
        assert(middle =~= before.after_cache(all, answer));
        match outcome {
            Err(error) => (Err(error), Ghost(answer)),
            Ok(packuments) => {
                let ghost fetched = packuments.deep_view();
                let ghost target = with_fetched(middle.packuments, names.deep_view(), fetched);
                let mut i: usize = 0;
                assert(names.deep_view().skip(0) =~= names.deep_view());
                assert(fetched.skip(0) =~= fetched);
                for packument in it: packuments
                    invariant
                        it.seq() == packuments@,
                        fetched == packuments.deep_view(),
                        self.registry == old(self).registry,
                        self.cutoff == old(self).cutoff,
                        self.state() == (StateView { packuments: self.packuments@, ..middle }),
                        i <= names.len(),
                        i <= it.index(),
                        i < names.len() ==> i == it.index(),
                        target == with_fetched(
                            self.packuments@,
                            names.deep_view().skip(i as int),
                            fetched.skip(it.index() as int),
                        ),
                {
                    if i < names.len() {
                        proof {
                            assert(names.deep_view().skip(i as int).skip(1) =~= names.deep_view().skip(i + 1));
                            assert(fetched.skip(i as int).skip(1) =~= fetched.skip(i + 1));
                            assert(fetched.skip(i as int)[0] == packument.deep_view());
                        }
                        self.packuments.insert(names[i].clone(), Fetched::new(packument, true));
                        i += 1;
                    }
                }
                assert(self.packuments@ == target);
                (Ok(()), Ghost(answer))
            },
        }
    }
}

/// What a failed or finished choice means.
pub open spec fn outcome_view(
    result: Result<Vec<Groups>, Error>,
    state: StateView,
) -> Result<(StateView, Seq<GroupsView>), Seq<Text>> {
    match result {
        Ok(groups) => Ok((state, groups.deep_view())),
        Err(error) => Err(error@),
    }
}

impl Groups {
    fn new() -> (result: Self)
        ensures
            result@ == GroupsView::none(),
    {
        let result = Groups {
            dependencies: Dict::new(),
            dev_dependencies: Dict::new(),
            optional_dependencies: Dict::new(),
        };
        assert(result@ =~= GroupsView::none());
        result
    }

    fn insert(&mut self, group: usize, alias: String, key: String)
        ensures
            final(self)@ == old(self)@.with(group as int, alias@, key@),
    {
        if group == 0 {
            self.dependencies.insert(alias, key);
        } else if group == 1 {
            self.dev_dependencies.insert(alias, key);
        } else {
            self.optional_dependencies.insert(alias, key);
        }
    }
}

impl<'r, R: Registry> Chooser<'r, R> {
    /// Chooses a version for `request`.
    fn choose_version(&mut self, request: &Request) -> (result: Result<Option<String>, Error>)
        ensures
            final(self).registry == old(self).registry,
            final(self).cutoff == old(self).cutoff,
            match result {
                Ok(raw) => old(self).state().choose_for(request@, old(self).cutoff) == Ok::<
                    (StateView, Option<Text>),
                    Seq<Text>,
                >((final(self).state(), raw.deep_view())),
                Err(error) => old(self).state().choose_for(request@, old(self).cutoff) == Err::<
                    (StateView, Option<Text>),
                    Seq<Text>,
                >(error@),
            },
            result matches Ok(Some(raw)) ==> final(self).state().packuments.contains_key(request@.name)
                && final(self).state().packuments[request@.name].packument.versions.contains_key(raw@),
    {
        let ghost before = self.state();
        let name = request.name.as_str();
        let range = request.range.as_str();
        let fetched = match self.packuments.get(name) {
            Some(fetched) => fetched,
            None => {
                return Err(Error::new(cat("the registry gave no answer for ", name)));
            },
        };
        let none = Versions::new();
        let chosen = match self.chosen.get(name) {
            Some(chosen) => chosen,
            None => &none,
        };
        proof {
            let p = fetched@.packument;
            assert(chosen@ == before.chosen_of(request@.name));
            picked_is_release(p, range@, chosen@, release_rule(p, self.cutoff));
        }
        match pick_version(fetched, range, chosen, self.cutoff) {
            Some((version, raw)) => {
                note_chosen(&mut self.chosen, name, version);
                proof {
                    assert(Set::<VersionView>::empty().insert(version@) == before.chosen_of(request@.name).insert(
                        version@,
                    ) || before.chosen.contains_key(request@.name));
                }
                Ok(Some(raw))
            },
            None => {
                if request.edge == Edge::Dependency {
                    if pick_version(fetched, range, chosen, None).is_some() {
                        Err(
                            Error::new(
                                cat5(
                                    "every version of ",
                                    name,
                                    " matching ",
                                    range,
                                    " was published too recently for hinata.minimumReleaseAge",
                                ),
                            ),
                        )
                    } else {
                        Err(Error::new(cat4("no version of ", name, " matches ", range)))
                    }
                } else {
                    Ok(None)
                }
            },
        }
    }

    /// Makes version `raw` of `name` a node.
    fn add_node(&mut self, name: &str, raw: &str) -> (result: Result<(), Error>)
        requires
            old(self).state().packuments.contains_key(name@),
            old(self).state().packuments[name@].packument.versions.contains_key(raw@),
        ensures
            final(self).registry == old(self).registry,
            final(self).cutoff == old(self).cutoff,
            match result {
                Ok(()) => old(self).state().add_version(name@, raw@) == Ok::<StateView, Seq<Text>>(
                    final(self).state(),
                ),
                Err(error) => old(self).state().add_version(name@, raw@) == Err::<StateView, Seq<Text>>(error@),
            },
    {
        let key = cat3(name, "@", raw);
        let node = {
            let fetched = self.packuments.get(name).unwrap();
            let release = fetched.packument().versions.get(raw).unwrap();
            match &release.manifest {
                Some(manifest) => Node::new(name.to_owned(), raw.to_owned(), manifest.duplicate()),
                None => {
                    let error = Error::new(release.problem.clone()).within(
                        cat("reading the registry metadata of ", key.as_str()),
                    );
                    assert(error@ =~= seq!["reading the registry metadata of "@ + key@, release@.problem]);
                    return Err(error);
                },
            }
        };
        self.nodes.insert(key, node);
        Ok(())
    }

    /// Notes that `request` leads to `key`.
    fn link(&mut self, groups: &mut Vec<Groups>, request: Request, key: String, Ghost(added): Ghost<Seq<Text>>)
        requires
            is_known(request@.from, old(self).state().nodes, old(groups)@.len()),
        ensures
            final(self).registry == old(self).registry,
            final(self).cutoff == old(self).cutoff,
            (Progress { state: final(self).state(), groups: final(groups).deep_view(), added }) == (Progress {
                state: old(self).state(),
                groups: old(groups).deep_view(),
                added,
            }).linked(request@, key@),
    {
        let ghost before = Progress { state: self.state(), groups: groups.deep_view(), added };
        let ghost asked = request@;
        match request.from {
            Origin::Importer { index, group } => {
                groups[index].insert(group, request.alias, key);
                assert(groups.deep_view() =~= before.linked(asked, key@).groups);
            },
            Origin::Node(from) => {
                if let Some(mut node) = self.nodes.remove(from.as_str()) {
                    match request.edge {
                        Edge::Dependency => node.deps.insert(request.alias, key),
                        Edge::Optional => node.optional_deps.insert(request.alias, key),
                        Edge::Peer => node.auto_peers.insert(request.alias, key),
                    }
                    self.nodes.insert(from, node);
                }
                assert(self.nodes@ =~= before.linked(asked, key@).state.nodes);
            },
        }
    }

    /// Chooses a version for each of `requests`, and gives the keys of the nodes that are new.
    fn choose_each(&mut self, requests: Vec<Request>, groups: &mut Vec<Groups>) -> (result: Result<Vec<String>, Error>)
        requires
            is_sound(old(self).state().nodes, old(groups).deep_view()),
            requests_known(requests.deep_view(), old(self).state().nodes, old(groups)@.len()),
        ensures
            final(self).registry == old(self).registry,
            final(self).cutoff == old(self).cutoff,
            ({
                let begun = Progress {
                    state: old(self).state(),
                    groups: old(groups).deep_view(),
                    added: Seq::empty(),
                };
                match result {
                    Ok(added) => {
                        let done = Progress {
                            state: final(self).state(),
                            groups: final(groups).deep_view(),
                            added: added.deep_view(),
                        };
                        &&& begun.steps(requests.deep_view(), old(self).cutoff) == Ok::<Progress, Seq<Text>>(done)
                        &&& done.is_sound()
                        &&& done.groups.len() == begun.groups.len()
                        &&& final(self).nodes@.dom().len() >= old(self).nodes@.dom().len() + added@.len()
                        &&& done.state.overrides == begun.state.overrides
                    },
                    Err(error) => begun.steps(requests.deep_view(), old(self).cutoff) == Err::<Progress, Seq<Text>>(
                        error@,
                    ),
                }
            }),
    {
        let ghost asked = requests.deep_view();
        let ghost cutoff = self.cutoff;
        let ghost begun = Progress { state: self.state(), groups: groups.deep_view(), added: Seq::empty() };
        let count: usize = self.nodes.len();
        let mut added: Vec<String> = Vec::new();
        assert(added.deep_view() =~= Seq::<Text>::empty());
        assert(asked.skip(0) =~= asked);
        for request in it: requests
            invariant
                it.seq() == requests@,
                asked == requests.deep_view(),
                self.registry == old(self).registry,
                self.cutoff == cutoff,
                cutoff == old(self).cutoff,
                begun == (Progress {
                    state: old(self).state(),
                    groups: old(groups).deep_view(),
                    added: Seq::empty(),
                }),
                count == old(self).nodes@.dom().len(),
                groups@.len() == begun.groups.len(),
                (Progress { state: self.state(), groups: groups.deep_view(), added: added.deep_view() }).is_sound(),
                requests_known(asked, self.state().nodes, begun.groups.len()),
                self.nodes@.dom().len() >= count + added@.len(),
                self.overrides@ == begun.state.overrides,
                begun.steps(asked, cutoff) == (Progress {
                    state: self.state(),
                    groups: groups.deep_view(),
                    added: added.deep_view(),
                }).steps(asked.skip(it.index() as int), cutoff),
        {
            let ghost at = it.index() as int;
            let ghost here = Progress { state: self.state(), groups: groups.deep_view(), added: added.deep_view() };
            let ghost wanted = request@;
            proof {
                assert(asked[at] == wanted);
                assert(asked.skip(at)[0] == wanted);
                assert(asked.skip(at).skip(1) =~= asked.skip(at + 1));
                assert(is_known(wanted.from, here.state.nodes, here.groups.len()));
                here.step_is_sound(wanted, cutoff);
            }
            match self.choose_version(&request) {
                Err(error) => {
                    assert(here.step(wanted, cutoff) == Err::<Progress, Seq<Text>>(error@));
                    return Err(error);
                },
                Ok(None) => {
                    assert(here.step(wanted, cutoff) == Ok::<Progress, Seq<Text>>(
                        Progress { state: self.state(), ..here },
                    ));
                },
                Ok(Some(raw)) => {
                    let key = cat3(request.name.as_str(), "@", raw.as_str());
                    let ghost chosen_state = self.state();
                    assert(chosen_state.nodes == here.state.nodes);
                    let n: usize = self.nodes.len();
                    if !self.nodes.contains_key(key.as_str()) {
                        if let Err(error) = self.add_node(request.name.as_str(), raw.as_str()) {
                            assert(here.step(wanted, cutoff) == Err::<Progress, Seq<Text>>(error@));
                            return Err(error);
                        }
                        added.push(key.clone());
                        assert(added.deep_view() =~= here.added.push(key@));
                        assert(self.nodes@.dom() =~= chosen_state.nodes.dom().insert(key@));
                    }
                    let ghost unlinked = Progress {
                        state: self.state(),
                        groups: groups.deep_view(),
                        added: added.deep_view(),
                    };
                    assert(is_known(wanted.from, unlinked.state.nodes, unlinked.groups.len()));
                    self.link(groups, request, key, Ghost(added.deep_view()));
                    proof {
                        assert(here.step(wanted, cutoff) == Ok::<Progress, Seq<Text>>(
                            unlinked.linked(wanted, key@),
                        ));
                        assert(unlinked.linked(wanted, key@).state.nodes.dom() =~= unlinked.state.nodes.dom());
                    }
                },
            }
            proof {
                let next = Progress { state: self.state(), groups: groups.deep_view(), added: added.deep_view() };
                assert(here.step(wanted, cutoff) == Ok::<Progress, Seq<Text>>(next));
                assert forall|k: int| 0 <= k < asked.len() implies is_known(
                    (#[trigger] asked[k]).from,
                    next.state.nodes,
                    begun.groups.len(),
                ) by {
                    assert(is_known(asked[k].from, here.state.nodes, begun.groups.len()));
                }
            }
        }
        assert(asked.skip(asked.len() as int) =~= Seq::<RequestView>::empty());
        Ok(added)
    }

    /// What the packages `keys` depend on.
    fn wants_of_nodes(&self, keys: &Vec<String>) -> (result: Vec<Want>)
        requires
            forall|i: int| 0 <= i < keys@.len() ==> self.nodes@.contains_key((#[trigger] keys@[i])@),
        ensures
            result.deep_view() == all_node_wants(self.nodes@, keys.deep_view()),
    {
        let ghost all = keys.deep_view();
        let mut wants: Vec<Want> = Vec::new();
        let mut i: usize = 0;
        assert(wants.deep_view() =~= Seq::<WantView>::empty());
        while i < keys.len()
            invariant
                i <= keys.len(),
                all == keys.deep_view(),
                forall|i: int| 0 <= i < keys@.len() ==> self.nodes@.contains_key((#[trigger] keys@[i])@),
                wants.deep_view() == all_node_wants(self.nodes@, all.take(i as int)),
            decreases keys.len() - i,
        {
            assert(all.take(i + 1).drop_last() =~= all.take(i as int));
            assert(self.nodes@.contains_key(keys@[i as int]@));
            if let Some(node) = self.nodes.get(keys[i].as_str()) {
                node.push_wants(keys[i].as_str(), &mut wants);
            }
            i += 1;
        }
        assert(all.take(i as int) =~= all);
        wants
    }

    /// Chooses a version for each of `requests`, and gives what those ask for in turn.
    fn choose_round(&mut self, requests: Vec<Request>, groups: &mut Vec<Groups>) -> (result: (
        Result<Vec<Request>, Error>,
        Ghost<Answer>,
    ))
        requires
            is_sound(old(self).state().nodes, old(groups).deep_view()),
            requests_known(requests.deep_view(), old(self).state().nodes, old(groups)@.len()),
        ensures
            final(self).registry == old(self).registry,
            final(self).cutoff == old(self).cutoff,
            old(self).state().may_get(*old(self).registry, requests.deep_view(), result.1@),
            ({
                let round = old(self).state().round(
                    old(groups).deep_view(),
                    requests.deep_view(),
                    result.1@,
                    old(self).cutoff,
                );
                match result.0 {
                    Ok(next) => {
                        &&& round == Ok::<(StateView, Seq<GroupsView>, Seq<RequestView>), Seq<Text>>(
                            (final(self).state(), final(groups).deep_view(), next.deep_view()),
                        )
                        &&& is_sound(final(self).state().nodes, final(groups).deep_view())
                        &&& requests_known(next.deep_view(), final(self).state().nodes, final(groups)@.len())
                        &&& final(groups)@.len() == old(groups)@.len()
                        &&& next@.len() > 0 ==> old(self).nodes@.dom().len() < final(self).nodes@.dom().len()
                            <= usize::MAX
                    },
                    Err(error) => round == Err::<(StateView, Seq<GroupsView>, Seq<RequestView>), Seq<Text>>(error@),
                }
            }),
    {
        let ghost asked = requests.deep_view();
        let (fetched, answer) = self.fetch(&requests);
        if let Err(error) = fetched {
            return (Err(error), answer);
        }
        let ghost begun = self.state();
        let added = match self.choose_each(requests, groups) {
            Ok(added) => added,
            Err(error) => {
                return (Err(error), answer);
            },
        };
        let ghost done = Progress { state: self.state(), groups: groups.deep_view(), added: added.deep_view() };
        assert forall|i: int| 0 <= i < added@.len() implies self.nodes@.contains_key((#[trigger] added@[i])@) by {
            assert(done.state.nodes.contains_key(done.added[i]));
        }
        let wants = self.wants_of_nodes(&added);
        proof {
            node_wants_known(done.state.nodes, done.added, groups@.len());
            requests_from_wants(done.state.overrides, wants.deep_view(), done.state.nodes, groups@.len());
        }
        let total: usize = self.nodes.len();
        match request_all(wants, &mut self.overrides) {
            Ok(next) => {
                assert(self.state() =~= StateView { overrides: self.overrides@, ..done.state });
                assert(next@.len() > 0 ==> added@.len() > 0);
                (Ok(next), answer)
            },
            Err(error) => (Err(error), answer),
        }
    }

    /// Chooses versions for what `importers` ask for, and for what those ask for in turn.
    pub fn choose_all(&mut self, importers: &Vec<Specifiers>) -> (result: Result<Vec<Groups>, Error>)
        requires
            is_closed(old(self).state().nodes),
        ensures
            exists|answers: Seq<Answer>| #[trigger]
                old(self).state().chooses(
                    *old(self).registry,
                    importers.deep_view(),
                    answers,
                    old(self).cutoff,
                ) == Some(outcome_view(result, final(self).state())),
            result matches Ok(groups) ==> is_sound(final(self).state().nodes, groups.deep_view()) && groups@.len()
                == importers@.len(),
    {
        let ghost first = self.state();
        let ghost registry = *self.registry;
        let ghost cutoff = self.cutoff;
        let wants = wants_of_importers(importers);
        proof {
            importer_wants_known(importers.deep_view(), first.nodes);
            requests_from_wants(first.overrides, wants.deep_view(), first.nodes, importers@.len());
        }
        let mut requests = match request_all(wants, &mut self.overrides) {
            Ok(requests) => requests,
            Err(error) => {
                assert(first.chooses(registry, importers.deep_view(), Seq::empty(), cutoff) == Some(
                    Err::<(StateView, Seq<GroupsView>), Seq<Text>>(error@),
                ));
                return Err(error);
            },
        };
        let ghost start = self.state();
        let ghost first_requests = requests.deep_view();
        let ghost no_groups = Seq::new(importers@.len(), |i: int| GroupsView::none());
        let mut groups: Vec<Groups> = Vec::new();
        let mut i: usize = 0;
        while i < importers.len()
            invariant
                i <= importers.len(),
                groups@.len() == i,
                forall|j: int| 0 <= j < i ==> (#[trigger] groups@[j])@ == GroupsView::none(),
            decreases importers.len() - i,
        {
            groups.push(Groups::new());
            i += 1;
        }
        assert(groups.deep_view() =~= no_groups);
        let ghost mut given: Seq<Answer> = Seq::empty();
        let _ = self.nodes.len();
        proof {
            assert forall|rest: Seq<Answer>|
                self.state().rounds(registry, groups.deep_view(), requests.deep_view(), rest, cutoff)
                    == #[trigger] start.rounds(registry, no_groups, first_requests, given + rest, cutoff) by {
                assert(given + rest =~= rest);
            }
            assert(start =~= StateView { overrides: start.overrides, ..first });
            assert(forall|answers: Seq<Answer>|
                first.chooses(registry, importers.deep_view(), answers, cutoff) == #[trigger] start.rounds(
                    registry,
                    no_groups,
                    first_requests,
                    answers,
                    cutoff,
                ));
        }
        while requests.len() > 0
            invariant
                *self.registry == registry,
                self.cutoff == cutoff,
                registry == *old(self).registry,
                cutoff == old(self).cutoff,
                first == old(self).state(),
                groups@.len() == importers@.len(),
                is_sound(self.state().nodes, groups.deep_view()),
                requests_known(requests.deep_view(), self.state().nodes, importers@.len()),
                forall|answers: Seq<Answer>|
                    first.chooses(registry, importers.deep_view(), answers, cutoff) == #[trigger] start.rounds(
                        registry,
                        no_groups,
                        first_requests,
                        answers,
                        cutoff,
                    ),
                forall|rest: Seq<Answer>|
                    self.state().rounds(registry, groups.deep_view(), requests.deep_view(), rest, cutoff)
                        == #[trigger] start.rounds(registry, no_groups, first_requests, given + rest, cutoff),
                requests@.len() > 0 ==> self.nodes@.dom().len() <= usize::MAX,
            decreases
                    (if requests@.len() > 0 {
                        usize::MAX + 1 - self.nodes@.dom().len()
                    } else {
                        0
                    }),
        {
            let ghost here = self.state();
            let ghost here_groups = groups.deep_view();
            let ghost asked = requests.deep_view();
            let (next, answer) = self.choose_round(requests, &mut groups);
            let ghost answer = answer@;
            proof {
                assert forall|rest: Seq<Answer>| #[trigger]
                    start.rounds(registry, no_groups, first_requests, given.push(answer) + rest, cutoff) == here.rounds(
                        registry,
                        here_groups,
                        asked,
                        seq![answer] + rest,
                        cutoff,
                    ) by {
                    assert(given.push(answer) + rest =~= given + (seq![answer] + rest));
                }
            }
            match next {
                Err(error) => {
                    proof {
                        let none = Seq::<Answer>::empty();
                        assert((seq![answer] + none)[0] == answer);
                        assert(start.rounds(registry, no_groups, first_requests, given.push(answer) + none, cutoff)
                            == Some(Err::<(StateView, Seq<GroupsView>), Seq<Text>>(error@)));
                    }
                    return Err(error);
                },
                Ok(next) => {
                    requests = next;
                },
            }
            proof {
                assert forall|rest: Seq<Answer>|
                    self.state().rounds(registry, groups.deep_view(), requests.deep_view(), rest, cutoff)
                        == #[trigger] start.rounds(
                        registry,
                        no_groups,
                        first_requests,
                        given.push(answer) + rest,
                        cutoff,
                    ) by {
                    let more = seq![answer] + rest;
                    assert(more[0] == answer);
                    assert(more.skip(1) =~= rest);
                }
                given = given.push(answer);
            }
        }
        proof {
            let none = Seq::<Answer>::empty();
            assert(self.state().rounds(registry, groups.deep_view(), requests.deep_view(), none, cutoff)
                == start.rounds(registry, no_groups, first_requests, given + none, cutoff));
        }
        Ok(groups)
    }
}

} // verus!
