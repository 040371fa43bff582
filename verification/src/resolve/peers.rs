//! Peers are resolved from ancestors, and a package gets one instance per distinct set of resolved
//! peers.
use vstd::prelude::*;

use crate::bag::{Bag, Same};
use crate::dict::{sorted, sorted_properties, taken_one_more, Dict, Duplicate, Names};
use crate::error::Error;
use crate::lock::{Package, PackageView};
use crate::resolve::chooser::{is_closed, is_sound, leads_into, Groups, GroupsView, Node, NodeView};
use crate::resolve::closures::{
    best_version_is_unique, closure_of, closures_of, fallbacks_of, is_best_version, is_optional_peer, is_version_of,
    optional_peer_fallbacks, peer_closures,
};
use crate::text::{cat, cat3, same, text_less, text_less_irreflexive, text_less_total, Text};

verus! {

/// What a package and its ancestors make visible below it.
#[derive(Debug, PartialEq, Eq)]
pub struct Frame {
    pub names: Dict<String>,
    pub parent: Option<usize>,
}

/// What a `Frame` means.
#[verifier::ext_equal]
pub struct FrameView {
    pub names: Map<Text, Text>,
    pub parent: Option<usize>,
}

impl View for Frame {
    type V = FrameView;

    open spec fn view(&self) -> FrameView {
        FrameView {
            names: self.names.deep_view(),
            parent: self.parent.deep_view(),
        }
    }
}

impl DeepView for Frame {
    type V = FrameView;

    open spec fn deep_view(&self) -> FrameView {
        self@
    }
}

/// A package with its peers resolved.
#[derive(Debug, PartialEq, Eq)]
pub struct Instance {
    pub id: String,
    /// The peers that were resolved from outside.
    pub externals: Names,
}

/// What a `Instance` means.
#[verifier::ext_equal]
pub struct InstanceView {
    pub id: Text,
    pub externals: Set<Text>,
}

impl View for Instance {
    type V = InstanceView;

    open spec fn view(&self) -> InstanceView {
        InstanceView {
            id: self.id.deep_view(),
            externals: self.externals.deep_view(),
        }
    }
}

impl DeepView for Instance {
    type V = InstanceView;

    open spec fn deep_view(&self) -> InstanceView {
        self@
    }
}

impl Duplicate for Instance {
    fn duplicate(&self) -> (result: Self) {
        Instance {
            id: self.id.duplicate(),
            externals: self.externals.duplicate(),
        }
    }
}

/// What an instance depends on.
#[derive(Debug, PartialEq, Eq)]
pub struct InstanceData {
    pub key: String,
    pub deps: Dict<String>,
    pub optional_deps: Dict<String>,
}

/// What a `InstanceData` means.
#[verifier::ext_equal]
pub struct InstanceDataView {
    pub key: Text,
    pub deps: Map<Text, Text>,
    pub optional_deps: Map<Text, Text>,
}

impl View for InstanceData {
    type V = InstanceDataView;

    open spec fn view(&self) -> InstanceDataView {
        InstanceDataView {
            key: self.key.deep_view(),
            deps: self.deps.deep_view(),
            optional_deps: self.optional_deps.deep_view(),
        }
    }
}

impl DeepView for InstanceData {
    type V = InstanceDataView;

    open spec fn deep_view(&self) -> InstanceDataView {
        self@
    }
}

/// A package with what its peers were resolved to, in order.
pub type MemoKey = (String, Vec<Option<String>>);

/// What a `MemoKey` means.
pub type MemoKeyView = (Text, Seq<Option<Text>>);

/// How far the instances have come.
#[verifier::ext_equal]
pub struct Stage {
    pub frames: Seq<FrameView>,
    pub root_frame: usize,
    pub memo: Map<MemoKeyView, InstanceView>,
    pub in_progress: Set<MemoKeyView>,
    pub visiting: Set<(Text, usize)>,
    pub instances: Map<Text, InstanceDataView>,
}

/// An instance that is still being made, by the key of its package.
pub open spec fn placeholder(key: Text) -> InstanceView {
    InstanceView { id: key, externals: Set::empty() }
}

/// What `name` stands for in `frame` or the frames above it, and in which of them.
pub open spec fn lookup(frames: Seq<FrameView>, frame: usize, name: Text) -> Option<(Text, usize)>
    decreases frame,
{
    if frame >= frames.len() {
        None
    } else if frames[frame as int].names.contains_key(name) {
        Some((frames[frame as int].names[name], frame))
    } else {
        match frames[frame as int].parent {
            Some(parent) => if parent < frame {
                lookup(frames, parent, name)
            } else {
                None
            },
            None => None,
        }
    }
}

impl Stage {
    /// What the peer `name` of `key` stands for, in which frame, and whether that is a fallback.
    pub open spec fn source(self, nodes: Map<Text, NodeView>, key: Text, frame: usize, name: Text) -> Option<
        (Text, usize, bool),
    > {
        let fallbacks = fallbacks_of(nodes);
        match lookup(self.frames, frame, name) {
            Some((found, at)) => Some((found, at, false)),
            None => if fallbacks.contains_key(name) && fallbacks[name] != key {
                Some((fallbacks[name], self.root_frame, true))
            } else {
                None
            },
        }
    }
}

/// The peers of a package that could be resolved, and which of those fell back.
#[verifier::ext_equal]
pub struct Peers {
    pub visible: Map<Text, Text>,
    pub fell_back: Set<Text>,
}

impl Peers {
    pub open spec fn none() -> Peers {
        Peers { visible: Map::empty(), fell_back: Set::empty() }
    }

    pub open spec fn with(self, name: Text, id: Text, fell_back: bool) -> Peers {
        Peers {
            visible: self.visible.insert(name, id),
            fell_back: if fell_back {
                self.fell_back.insert(name)
            } else {
                self.fell_back
            },
        }
    }

    /// A peer is resolved. Required peers are only taken from ancestors.
    pub open spec fn is_resolved(self, name: Text, optional: bool) -> bool {
        self.visible.contains_key(name) && (optional || !self.fell_back.contains(name))
    }

    /// The peers of `node` that are resolved.
    pub open spec fn resolved(self, node: NodeView) -> Set<Text> {
        node.peers.dom().filter(|name: Text| self.is_resolved(name, node.peers[name]))
    }

    /// The required peers of `node` that are not resolved, with what was chosen for them.
    pub open spec fn automatic(self, node: NodeView) -> Map<Text, Text> {
        node.auto_peers.restrict(
            Set::new(|name: Text| node.peers.contains_key(name) && !node.peers[name] && !self.is_resolved(name, false)),
        )
    }

    /// What is linked beside and below `node`.
    pub open spec fn children(self, node: NodeView) -> Map<Text, Text> {
        node.deps.union_prefer_right(node.optional_deps).union_prefer_right(self.automatic(node))
    }

    /// What the peers `names` were resolved to.
    pub open spec fn choices(self, names: Seq<Text>) -> Seq<Option<Text>> {
        names.map_values(
            |name: Text|
                if self.visible.contains_key(name) {
                    Some(self.visible[name])
                } else {
                    None
                },
        )
    }
}

/// The ids of the peers `names`, each in brackets.
pub open spec fn suffix(names: Seq<Text>, visible: Map<Text, Text>) -> Text
    decreases names.len(),
{
    if names.len() == 0 {
        Seq::empty()
    } else {
        suffix(names.drop_last(), visible) + ("("@ + visible[names.last()] + ")"@)
    }
}

/// What is collected from the dependencies of a package.
#[verifier::ext_equal]
pub struct Links {
    pub externals: Set<Text>,
    pub deps: Map<Text, Text>,
    pub optional_deps: Map<Text, Text>,
}

impl Links {
    /// These links with `child` under `alias`. What the child took from outside comes from outside
    /// here too, unless it is one of the `children`.
    pub open spec fn with(
        self,
        node: NodeView,
        children: Map<Text, Text>,
        visible: Map<Text, Text>,
        alias: Text,
        child: InstanceView,
    ) -> Links {
        let externals = self.externals.union(
            child.externals.filter(|name: Text| !children.contains_key(name) && visible.contains_key(name)),
        );
        if node.optional_deps.contains_key(alias) {
            Links { externals, optional_deps: self.optional_deps.insert(alias, child.id), ..self }
        } else {
            Links { externals, deps: self.deps.insert(alias, child.id), ..self }
        }
    }
}

impl Stage {
    /// This stage when the package of `memo_key` has been taken in hand, with `children` below `frame`.
    pub open spec fn entered(self, memo_key: MemoKeyView, children: Map<Text, Text>, frame: usize) -> Stage {
        Stage {
            in_progress: self.in_progress.insert(memo_key),
            frames: self.frames.push(FrameView { names: children, parent: Some(frame) }),
            ..self
        }
    }

    /// This stage when the package of `memo_key` is an instance.
    pub open spec fn left(self, memo_key: MemoKeyView, peers: Peers, node: NodeView, links: Links) -> (
        Stage,
        InstanceView,
    ) {
        let key = memo_key.0;
        let id = key + suffix(sorted(links.externals), peers.visible);
        let data = InstanceDataView {
            key,
            // Node resolves from the package's store path, so peers must be linked beside it.
            deps: links.deps.union_prefer_right(peers.visible.restrict(peers.resolved(node))),
            optional_deps: links.optional_deps,
        };
        let instance = InstanceView { id, externals: links.externals };
        (
            Stage {
                instances: if self.instances.contains_key(id) {
                    self.instances
                } else {
                    self.instances.insert(id, data)
                },
                in_progress: self.in_progress.remove(memo_key),
                memo: self.memo.insert(memo_key, instance),
                ..self
            },
            instance,
        )
    }

    /// The instance of `key` as seen from `frame`, and the stage in which it has been made, if that
    /// takes no more than `fuel` levels of packages.
    pub open spec fn instantiate(
        self,
        nodes: Map<Text, NodeView>,
        key: Text,
        frame: usize,
        fuel: nat,
    ) -> Option<(Stage, InstanceView)>
        decreases fuel, 0nat, 0nat,
    {
        if self.visiting.contains((key, frame)) {
            Some((self, placeholder(key)))
        } else if fuel == 0 {
            None
        } else {
            match (Stage { visiting: self.visiting.insert((key, frame)), ..self }).instantiate_uncached(
                nodes,
                key,
                frame,
                (fuel - 1) as nat,
            ) {
                None => None,
                Some((stage, instance)) => Some(
                    (Stage { visiting: stage.visiting.remove((key, frame)), ..stage }, instance),
                ),
            }
        }
    }

    /// The instance of `key`, once its peers have been resolved.
    pub open spec fn instantiate_uncached(
        self,
        nodes: Map<Text, NodeView>,
        key: Text,
        frame: usize,
        fuel: nat,
    ) -> Option<(Stage, InstanceView)>
        decreases fuel, 2nat, 0nat,
    {
        let names = sorted(closure_of(nodes, key));
        match self.see_peers(nodes, key, frame, names, Peers::none(), fuel) {
            None => None,
            Some((stage, peers)) => {
                let memo_key = (key, peers.choices(names));
                if stage.memo.contains_key(memo_key) {
                    Some((stage, stage.memo[memo_key]))
                } else if stage.in_progress.contains(memo_key) {
                    Some((stage, placeholder(key)))
                } else {
                    let node = nodes[key];
                    let children = peers.children(node);
                    let entered = stage.entered(memo_key, children, frame);
                    match entered.link_children(
                        nodes,
                        node,
                        peers,
                        sorted(children.dom()),
                        stage.frames.len() as usize,
                        Links { externals: peers.resolved(node), deps: Map::empty(), optional_deps: Map::empty() },
                        fuel,
                    ) {
                        None => None,
                        Some((stage, links)) => Some(stage.left(memo_key, peers, node, links)),
                    }
                }
            },
        }
    }

    /// What the peers `names` of `key` are resolved to, beside those resolved before.
    pub open spec fn see_peers(
        self,
        nodes: Map<Text, NodeView>,
        key: Text,
        frame: usize,
        names: Seq<Text>,
        peers: Peers,
        fuel: nat,
    ) -> Option<(Stage, Peers)>
        decreases fuel, 1nat, names.len(),
    {
        if names.len() == 0 {
            Some((self, peers))
        } else {
            match self.source(nodes, key, frame, names[0]) {
                None => self.see_peers(nodes, key, frame, names.skip(1), peers, fuel),
                Some((peer, at, fell_back)) => match self.instantiate(nodes, peer, at, fuel) {
                    None => None,
                    Some((stage, instance)) => stage.see_peers(
                        nodes,
                        key,
                        frame,
                        names.skip(1),
                        peers.with(names[0], instance.id, fell_back),
                        fuel,
                    ),
                },
            }
        }
    }

    /// The links to the dependencies `aliases` of `node`, beside those made before.
    pub open spec fn link_children(
        self,
        nodes: Map<Text, NodeView>,
        node: NodeView,
        peers: Peers,
        aliases: Seq<Text>,
        frame: usize,
        links: Links,
        fuel: nat,
    ) -> Option<(Stage, Links)>
        decreases fuel, 1nat, aliases.len(),
    {
        let children = peers.children(node);
        if aliases.len() == 0 {
            Some((self, links))
        } else {
            match self.instantiate(nodes, children[aliases[0]], frame, fuel) {
                None => None,
                Some((stage, instance)) => stage.link_children(
                    nodes,
                    node,
                    peers,
                    aliases.skip(1),
                    frame,
                    links.with(node, children, peers.visible, aliases[0], instance),
                    fuel,
                ),
            }
        }
    }

    /// More levels do not change an instance.
    pub proof fn instantiate_monotonic(
        self,
        nodes: Map<Text, NodeView>,
        key: Text,
        frame: usize,
        fuel: nat,
        more: nat,
    )
        requires
            self.instantiate(nodes, key, frame, fuel) is Some,
            fuel <= more,
        ensures
            self.instantiate(nodes, key, frame, more) == self.instantiate(nodes, key, frame, fuel),
        decreases fuel, 0nat, 0nat,
    {
        if !self.visiting.contains((key, frame)) {
            (Stage { visiting: self.visiting.insert((key, frame)), ..self }).uncached_monotonic(
                nodes,
                key,
                frame,
                (fuel - 1) as nat,
                (more - 1) as nat,
            );
        }
    }

    proof fn uncached_monotonic(self, nodes: Map<Text, NodeView>, key: Text, frame: usize, fuel: nat, more: nat)
        requires
            self.instantiate_uncached(nodes, key, frame, fuel) is Some,
            fuel <= more,
        ensures
            self.instantiate_uncached(nodes, key, frame, more) == self.instantiate_uncached(nodes, key, frame, fuel),
        decreases fuel, 2nat, 0nat,
    {
        let names = sorted(closure_of(nodes, key));
        self.see_peers_monotonic(nodes, key, frame, names, Peers::none(), fuel, more);
        let (stage, peers) = self.see_peers(nodes, key, frame, names, Peers::none(), fuel)->0;
        let memo_key = (key, peers.choices(names));
        if !stage.memo.contains_key(memo_key) && !stage.in_progress.contains(memo_key) {
            let node = nodes[key];
            let children = peers.children(node);
            stage.entered(memo_key, children, frame).link_children_monotonic(
                nodes,
                node,
                peers,
                sorted(children.dom()),
                stage.frames.len() as usize,
                Links { externals: peers.resolved(node), deps: Map::empty(), optional_deps: Map::empty() },
                fuel,
                more,
            );
        }
    }

    proof fn see_peers_monotonic(
        self,
        nodes: Map<Text, NodeView>,
        key: Text,
        frame: usize,
        names: Seq<Text>,
        peers: Peers,
        fuel: nat,
        more: nat,
    )
        requires
            self.see_peers(nodes, key, frame, names, peers, fuel) is Some,
            fuel <= more,
        ensures
            self.see_peers(nodes, key, frame, names, peers, more) == self.see_peers(
                nodes,
                key,
                frame,
                names,
                peers,
                fuel,
            ),
        decreases fuel, 1nat, names.len(),
    {
        if names.len() > 0 {
            match self.source(nodes, key, frame, names[0]) {
                None => self.see_peers_monotonic(nodes, key, frame, names.skip(1), peers, fuel, more),
                Some((peer, at, fell_back)) => {
                    self.instantiate_monotonic(nodes, peer, at, fuel, more);
                    let (stage, instance) = self.instantiate(nodes, peer, at, fuel)->0;
                    stage.see_peers_monotonic(
                        nodes,
                        key,
                        frame,
                        names.skip(1),
                        peers.with(names[0], instance.id, fell_back),
                        fuel,
                        more,
                    );
                },
            }
        }
    }

    proof fn link_children_monotonic(
        self,
        nodes: Map<Text, NodeView>,
        node: NodeView,
        peers: Peers,
        aliases: Seq<Text>,
        frame: usize,
        links: Links,
        fuel: nat,
        more: nat,
    )
        requires
            self.link_children(nodes, node, peers, aliases, frame, links, fuel) is Some,
            fuel <= more,
        ensures
            self.link_children(nodes, node, peers, aliases, frame, links, more) == self.link_children(
                nodes,
                node,
                peers,
                aliases,
                frame,
                links,
                fuel,
            ),
        decreases fuel, 1nat, aliases.len(),
    {
        let children = peers.children(node);
        if aliases.len() > 0 {
            self.instantiate_monotonic(nodes, children[aliases[0]], frame, fuel, more);
            let (stage, instance) = self.instantiate(nodes, children[aliases[0]], frame, fuel)->0;
            stage.link_children_monotonic(
                nodes,
                node,
                peers,
                aliases.skip(1),
                frame,
                links.with(node, children, peers.visible, aliases[0], instance),
                fuel,
                more,
            );
        }
    }
}

/// The last instance that was noted for `peers`.
spec fn last_entry(list: Seq<(Seq<Option<Text>>, InstanceView)>, peers: Seq<Option<Text>>) -> Option<InstanceView>
    decreases list.len(),
{
    if list.len() == 0 {
        None
    } else if list.last().0 == peers {
        Some(list.last().1)
    } else {
        last_entry(list.drop_last(), peers)
    }
}

/// The instances that have been made, by package and resolved peers.
pub struct Memo {
    entries: Dict<Vec<(Vec<Option<String>>, Instance)>>,
}

impl View for Memo {
    type V = Map<MemoKeyView, InstanceView>;

    closed spec fn view(&self) -> Map<MemoKeyView, InstanceView> {
        Map::new(
            |memo_key: MemoKeyView|
                self.entries@.contains_key(memo_key.0) && last_entry(self.entries@[memo_key.0], memo_key.1) is Some,
            |memo_key: MemoKeyView| last_entry(self.entries@[memo_key.0], memo_key.1)->0,
        )
    }
}

impl Memo {
    pub fn new() -> (result: Self)
        ensures
            result@ == Map::<MemoKeyView, InstanceView>::empty(),
    {
        let result = Memo { entries: Dict::new() };
        assert(result@ =~= Map::<MemoKeyView, InstanceView>::empty());
        result
    }

    pub fn get(&self, memo_key: &MemoKey) -> (result: Option<&Instance>)
        ensures
            match result {
                Some(instance) => self@.contains_key(memo_key.deep_view()) && instance@ == self@[memo_key.deep_view()],
                None => !self@.contains_key(memo_key.deep_view()),
            },
    {
        match self.entries.get(memo_key.0.as_str()) {
            Some(list) => {
                let ghost all = list.deep_view();
                let ghost peers = memo_key.1.deep_view();
                let mut i: usize = list.len();
                assert(all.take(i as int) =~= all);
                while i > 0
                    invariant
                        i <= list.len(),
                        all == list.deep_view(),
                        peers == memo_key.1.deep_view(),
                        memo_key.deep_view() == (memo_key.0@, peers),
                        self.entries@.contains_key(memo_key.0@),
                        all == self.entries@[memo_key.0@],
                        last_entry(all, peers) == last_entry(all.take(i as int), peers),
                    decreases i,
                {
                    assert(all.take(i as int).drop_last() =~= all.take(i - 1));
                    assert(all.take(i as int).last() == all[i - 1]);
                    assert(all[i - 1] == (list@[i - 1].0.deep_view(), list@[i - 1].1@));
                    if list[i - 1].0.same(&memo_key.1) {
                        return Some(&list[i - 1].1);
                    }
                    i -= 1;
                }
                None
            },
            None => None,
        }
    }

    pub fn insert(&mut self, memo_key: MemoKey, instance: Instance)
        ensures
            final(self)@ == old(self)@.insert(memo_key.deep_view(), instance@),
    {
        let ghost before = self@;
        let ghost old_entries = self.entries@;
        let ghost place = memo_key.deep_view();
        let ghost meaning = instance@;
        let (key, peers) = memo_key;
        let mut list = match self.entries.remove(key.as_str()) {
            Some(list) => list,
            None => Vec::new(),
        };
        let ghost old_list = list.deep_view();
        list.push((peers, instance));
        let ghost new_list = list.deep_view();
        assert(new_list =~= old_list.push((place.1, meaning)));
        assert(new_list.drop_last() =~= old_list);
        self.entries.insert(key, list);
        proof {
            assert(self.entries@ =~= old_entries.insert(place.0, new_list));
            assert forall|k: MemoKeyView| #[trigger] self@.contains_key(k) == before.insert(place, meaning).contains_key(k) by {
                if k.0 == place.0 {
                    if !old_entries.contains_key(place.0) {
                        assert(old_list =~= Seq::empty());
                        assert(last_entry(old_list, k.1) is None);
                    }
                    if k.1 == place.1 {
                        assert(k == place);
                    }
                }
            }
            assert forall|k: MemoKeyView| #[trigger] self@.contains_key(k) implies self@[k] == before.insert(
                place,
                meaning,
            )[k] by {
                if k.0 == place.0 && k.1 == place.1 {
                    assert(k == place);
                }
            }
            assert(self@ =~= before.insert(place, meaning));
        }
    }
}

/// The peers of a package that could be resolved, and which of those fell back.
struct PeerChoice {
    visible: Dict<String>,
    fell_back: Names,
}

impl View for PeerChoice {
    type V = Peers;

    closed spec fn view(&self) -> Peers {
        Peers { visible: self.visible@, fell_back: self.fell_back@ }
    }
}

impl PeerChoice {
    fn new() -> (result: Self)
        ensures
            result@ == Peers::none(),
    {
        PeerChoice { visible: Dict::new(), fell_back: Names::new() }
    }

    fn insert(&mut self, name: &str, id: String, fell_back: bool)
        ensures
            final(self)@ == old(self)@.with(name@, id@, fell_back),
    {
        if fell_back {
            self.fell_back.insert(name.to_owned());
        }
        self.visible.insert(name.to_owned(), id);
    }

    fn is_resolved(&self, name: &str, optional: bool) -> (result: bool)
        ensures
            result == self@.is_resolved(name@, optional),
    {
        self.visible.contains_key(name) && (optional || !self.fell_back.contains(name))
    }

    /// The peers of `node` that are resolved.
    fn resolved(&self, node: &Node) -> (result: Names)
        ensures
            result@ == self@.resolved(node@),
    {
        let mut result = Names::new();
        let ghost keys = sorted(node@.peers.dom());
        let ghost all = self@.resolved(node@);
        let n: usize = node.peers.len();
        proof {
            sorted_properties(node@.peers.dom());
            assert(result@ =~= all.intersect(keys.take(0).to_set()));
        }
        let mut i: usize = 0;
        while i < n
            invariant
                i <= n,
                n == keys.len(),
                keys == sorted(node@.peers.dom()),
                all == self@.resolved(node@),
                forall|x: Text| #[trigger] keys.contains(x) == node@.peers.dom().contains(x),
                result@ == all.intersect(keys.take(i as int).to_set()),
            decreases n - i,
        {
            let name = node.peers.key(i);
            proof {
                taken_one_more(keys, i as int);
            }
            if self.is_resolved(name.as_str(), *node.peers.value(i)) {
                result.insert(name.clone());
            }
            assert(result@ =~= all.intersect(keys.take(i + 1).to_set()));
            i += 1;
        }
        proof {
            assert(keys.take(i as int) =~= keys);
            assert forall|x: Text| all.contains(x) implies keys.to_set().contains(x) by {
                assert(keys.contains(x));
            }
            assert(result@ =~= all);
        }
        result
    }

    /// What is linked beside and below `node`.
    fn children(&self, node: &Node) -> (result: Dict<String>)
        ensures
            result@ == self@.children(node@),
    {
        let mut result = node.deps.duplicate();
        result.extend(&node.optional_deps);
        let ghost base = result@;
        let ghost keys = sorted(node@.auto_peers.dom());
        let ghost all = self@.automatic(node@);
        let n: usize = node.auto_peers.len();
        proof {
            sorted_properties(node@.auto_peers.dom());
            assert(result@ =~= base.union_prefer_right(all.restrict(keys.take(0).to_set())));
        }
        let mut i: usize = 0;
        while i < n
            invariant
                i <= n,
                n == keys.len(),
                keys == sorted(node@.auto_peers.dom()),
                all == self@.automatic(node@),
                forall|x: Text| #[trigger] keys.contains(x) == node@.auto_peers.dom().contains(x),
                result@ == base.union_prefer_right(all.restrict(keys.take(i as int).to_set())),
            decreases n - i,
        {
            let name = node.auto_peers.key(i);
            proof {
                taken_one_more(keys, i as int);
            }
            if let Some(optional) = node.peers.get(name.as_str()) {
                if !*optional && !self.is_resolved(name.as_str(), false) {
                    result.insert(name.clone(), node.auto_peers.value(i).clone());
                }
            }
            assert(result@ =~= base.union_prefer_right(all.restrict(keys.take(i + 1).to_set())));
            i += 1;
        }
        proof {
            assert(keys.take(i as int) =~= keys);
            assert forall|x: Text| all.contains_key(x) implies keys.to_set().contains(x) by {
                assert(keys.contains(x));
            }
            assert(all.restrict(keys.to_set()) =~= all);
        }
        result
    }

    /// What the peers `names` were resolved to.
    fn choices(&self, names: &Vec<String>) -> (result: Vec<Option<String>>)
        ensures
            result.deep_view() == self@.choices(names.deep_view()),
    {
        let mut result: Vec<Option<String>> = Vec::new();
        let mut i: usize = 0;
        while i < names.len()
            invariant
                i <= names.len(),
                result@.len() == i,
                forall|j: int| 0 <= j < i ==> (#[trigger] result@[j]).deep_view() == self@.choices(names.deep_view())[j],
            decreases names.len() - i,
        {
            let choice = match self.visible.get(names[i].as_str()) {
                Some(id) => Some(id.clone()),
                None => None,
            };
            assert(names.deep_view()[i as int] == names@[i as int]@);
            result.push(choice);
            i += 1;
        }
        assert(result.deep_view() =~= self@.choices(names.deep_view()));
        result
    }

    /// `key` with the ids of the peers `names`, each in brackets.
    fn id(&self, key: &str, names: &Names) -> (result: String)
        requires
            names@.subset_of(self@.visible.dom()),
        ensures
            result@ == key@ + suffix(sorted(names@), self@.visible),
    {
        let mut result: String = key.to_owned();
        let ghost list = sorted(names@);
        let n: usize = names.len();
        proof {
            sorted_properties(names@);
            assert(key@ + suffix(list.take(0), self@.visible) =~= key@);
        }
        let mut i: usize = 0;
        while i < n
            invariant
                i <= n,
                n == list.len(),
                list == sorted(names@),
                names@.subset_of(self@.visible.dom()),
                result@ == key@ + suffix(list.take(i as int), self@.visible),
            decreases n - i,
        {
            let name = names.at(i);
            assert(self@.visible.dom().contains(name@));
            assert(list.take(i + 1).drop_last() =~= list.take(i as int));
            let bracket = cat3("(", self.visible.get(name.as_str()).unwrap().as_str(), ")");
            vstd::string::StringExecFns::append(&mut result, bracket.as_str());
            i += 1;
            assert(result@ =~= key@ + suffix(list.take(i as int), self@.visible));
        }
        assert(list.take(i as int) =~= list);
        result
    }
}

/// What is collected from the dependencies of a package.
struct LinkSet {
    externals: Names,
    deps: Dict<String>,
    optional_deps: Dict<String>,
}

impl View for LinkSet {
    type V = Links;

    closed spec fn view(&self) -> Links {
        Links { externals: self.externals@, deps: self.deps@, optional_deps: self.optional_deps@ }
    }
}

impl LinkSet {
    /// Links `child` under `alias`.
    fn insert(&mut self, node: &Node, children: &Dict<String>, visible: &Dict<String>, alias: &str, child: Instance)
        ensures
            final(self)@ == old(self)@.with(node@, children@, visible@, alias@, child@),
    {
        let ghost before = self@;
        let ghost list = sorted(child@.externals);
        let ghost all = child@.externals.filter(
            |name: Text| !children@.contains_key(name) && visible@.contains_key(name),
        );
        let n: usize = child.externals.len();
        proof {
            sorted_properties(child@.externals);
            assert(self.externals@ =~= before.externals.union(all.intersect(list.take(0).to_set())));
        }
        let mut i: usize = 0;
        while i < n
            invariant
                i <= n,
                n == list.len(),
                list == sorted(child@.externals),
                forall|x: Text| #[trigger] list.contains(x) == child@.externals.contains(x),
                all == child@.externals.filter(
                    |name: Text| !children@.contains_key(name) && visible@.contains_key(name),
                ),
                self.deps@ == before.deps,
                self.optional_deps@ == before.optional_deps,
                self.externals@ == before.externals.union(all.intersect(list.take(i as int).to_set())),
            decreases n - i,
        {
            let name = child.externals.at(i);
            proof {
                taken_one_more(list, i as int);
            }
            if !children.contains_key(name.as_str()) && visible.contains_key(name.as_str()) {
                self.externals.insert(name.clone());
            }
            assert(self.externals@ =~= before.externals.union(all.intersect(list.take(i + 1).to_set())));
            i += 1;
        }
        proof {
            assert(list.take(i as int) =~= list);
            assert forall|x: Text| all.contains(x) implies list.to_set().contains(x) by {
                assert(list.contains(x));
            }
            assert(self.externals@ =~= before.externals.union(all));
        }
        if node.optional_deps.contains_key(alias) {
            self.optional_deps.insert(alias.to_owned(), child.id);
        } else {
            self.deps.insert(alias.to_owned(), child.id);
        }
    }
}

/// The packages seen from the frames, of which there are `count`.
spec fn all_visits(keys: Set<Text>, count: nat) -> Set<(Text, usize)> {
    Set::new(|visit: (Text, usize)| keys.contains(visit.0) && visit.1 < count)
}

proof fn all_visits_finite(keys: Set<Text>, count: nat)
    requires
        keys.finite(),
        count <= usize::MAX,
    ensures
        all_visits(keys, count).finite(),
    decreases count,
{
    if count == 0 {
        assert(all_visits(keys, count) =~= Set::empty());
    } else {
        let less = (count - 1) as nat;
        all_visits_finite(keys, less);
        let here = keys.map(|key: Text| (key, less as usize));
        keys.lemma_map_finite(|key: Text| (key, less as usize));
        assert forall|visit: (Text, usize)| all_visits(keys, count).contains(visit) implies all_visits(
            keys,
            less,
        ).union(here).contains(visit) by {
            if visit.1 == less {
                assert(here.contains((visit.0, less as usize)));
                assert(visit == (visit.0, less as usize));
            }
        }
        assert(all_visits(keys, count).subset_of(all_visits(keys, less).union(here)));
        vstd::set_lib::lemma_len_subset(all_visits(keys, count), all_visits(keys, less).union(here));
    }
}

/// How many packages can still be taken in hand before another frame is needed.
spec fn room(keys: Set<Text>, count: nat, visiting: Set<(Text, usize)>) -> nat {
    all_visits(keys, count).difference(visiting).len()
}

proof fn room_shrinks(keys: Set<Text>, count: nat, visiting: Set<(Text, usize)>, visit: (Text, usize))
    requires
        keys.finite(),
        count <= usize::MAX,
        keys.contains(visit.0),
        visit.1 < count,
        !visiting.contains(visit),
    ensures
        room(keys, count, visiting.insert(visit)) < room(keys, count, visiting),
{
    all_visits_finite(keys, count);
    let before = all_visits(keys, count).difference(visiting);
    assert(before.contains(visit));
    assert(all_visits(keys, count).difference(visiting.insert(visit)) =~= before.remove(visit));
}

proof fn fallbacks_are_nodes(nodes: Map<Text, NodeView>)
    ensures
        leads_into(fallbacks_of(nodes), nodes),
{
    let fallbacks = fallbacks_of(nodes);
    assert forall|name: Text| #[trigger] fallbacks.contains_key(name) implies nodes.contains_key(fallbacks[name]) by {
        let key = choose|key: Text| is_best_version(nodes, nodes.dom(), name, key);
        assert(is_version_of(nodes, nodes.dom(), name, key));
    }
}

proof fn children_are_nodes(nodes: Map<Text, NodeView>, node: NodeView, peers: Peers)
    requires
        node.leads_into(nodes),
    ensures
        leads_into(peers.children(node), nodes),
{
    let children = peers.children(node);
    assert forall|alias: Text| #[trigger] children.contains_key(alias) implies nodes.contains_key(children[alias]) by {
        if peers.automatic(node).contains_key(alias) {
            assert(node.auto_peers.contains_key(alias));
        } else if node.optional_deps.contains_key(alias) {
        } else {
            assert(node.deps.contains_key(alias));
        }
    }
}

/// Frames come after their parents, and hold nodes.
spec fn frames_sound(frames: Seq<FrameView>, nodes: Map<Text, NodeView>) -> bool {
    forall|i: int| 0 <= i < frames.len() ==> leads_into((#[trigger] frames[i]).names, nodes) && (frames[i].parent is Some
        ==> (frames[i].parent->0) < i)
}

/// Makes instances of the nodes.
pub struct PeerResolver<'n> {
    nodes: &'n Dict<Node>,
    closures: Dict<Names>,
    fallbacks: Dict<String>,
    frames: Vec<Frame>,
    root_frame: usize,
    memo: Memo,
    in_progress: Bag<MemoKey>,
    visiting: Bag<(String, usize)>,
    instances: Dict<InstanceData>,
}

impl<'n> PeerResolver<'n> {
    /// How far the instances have come.
    pub closed spec fn stage(&self) -> Stage {
        Stage {
            frames: self.frames.deep_view(),
            root_frame: self.root_frame,
            memo: self.memo@,
            in_progress: self.in_progress@,
            visiting: self.visiting@,
            instances: self.instances@,
        }
    }

    spec fn graph(&self) -> Map<Text, NodeView> {
        self.nodes@
    }

    spec fn well_formed(&self) -> bool {
        &&& is_closed(self.graph())
        &&& self.graph().dom().finite()
        &&& self.closures@ == closures_of(self.graph())
        &&& self.fallbacks@ == fallbacks_of(self.graph())
        &&& frames_sound(self.frames.deep_view(), self.graph())
        &&& self.frames@.len() <= usize::MAX
        &&& self.frames@.len() > 0 ==> self.root_frame < self.frames@.len()
        &&& forall|id: Text| #[trigger] self.instances@.contains_key(id) ==> self.graph().contains_key(
            self.instances@[id].key,
        )
    }

    /// Nothing but new instances sets this apart from `before`.
    spec fn continues(&self, before: &Self) -> bool {
        &&& self.nodes == before.nodes
        &&& self.root_frame == before.root_frame
        &&& self.visiting@ == before.visiting@
        &&& before.frames@.len() <= self.frames@.len()
        &&& forall|i: int| 0 <= i < before.frames@.len() ==> self.frames.deep_view()[i] == #[trigger] before.frames.deep_view()[i]
    }

    fn lookup(&self, frame: usize, name: &str) -> (result: Option<(String, usize)>)
        requires
            self.well_formed(),
            frame < self.frames@.len(),
        ensures
            result.deep_view() == lookup(self.stage().frames, frame, name@),
            result matches Some((key, at)) ==> self.graph().contains_key(key@) && at < self.frames@.len(),
        decreases frame,
    {
        let here = &self.frames[frame];
        let ghost view = self.frames.deep_view()[frame as int];
        assert(view == here@);
        assert(leads_into(view.names, self.graph()));
        match here.names.get(name) {
            Some(key) => Some((key.clone(), frame)),
            None => match here.parent {
                Some(parent) => self.lookup(parent, name),
                None => None,
            },
        }
    }

    /// What the peer `name` of `key` stands for, in which frame, and whether that is a fallback.
    fn source(&self, key: &str, frame: usize, name: &str) -> (result: Option<(String, usize, bool)>)
        requires
            self.well_formed(),
            frame < self.frames@.len(),
        ensures
            result.deep_view() == self.stage().source(self.graph(), key@, frame, name@),
            result matches Some((peer, at, _)) ==> self.graph().contains_key(peer@) && at < self.frames@.len(),
    {
        proof {
            fallbacks_are_nodes(self.graph());
        }
        match self.lookup(frame, name) {
            Some((found, at)) => Some((found, at, false)),
            None => match self.fallbacks.get(name) {
                Some(fallback) => {
                    if same(fallback.as_str(), key) {
                        None
                    } else {
                        Some((fallback.clone(), self.root_frame, true))
                    }
                },
                None => None,
            },
        }
    }

    fn instantiate(&mut self, key: &str, frame: usize) -> (result: (Instance, Ghost<nat>))
        requires
            old(self).well_formed(),
            old(self).graph().contains_key(key@),
            frame < old(self).frames@.len(),
        ensures
            final(self).well_formed(),
            final(self).continues(old(self)),
            old(self).stage().instantiate(old(self).graph(), key@, frame, result.1@) == Some(
                (final(self).stage(), result.0@),
            ),
        decreases
                usize::MAX - old(self).frames@.len(),
                room(old(self).graph().dom(), old(self).frames@.len(), old(self).visiting@),
                0nat,
    {
        let ghost before = self.stage();
        let ghost nodes = self.graph();
        let visit = (key.to_owned(), frame);
        let ghost mark = (key@, frame);
        assert(visit.deep_view() == mark);
        if !self.visiting.insert((key.to_owned(), frame)) {
            assert(self.visiting@ =~= before.visiting);
            assert(self.stage() =~= before);
            let instance = Instance { id: key.to_owned(), externals: Names::new() };
            assert(instance@ =~= placeholder(key@));
            return (instance, Ghost(0));
        }
        proof {
            room_shrinks(nodes.dom(), self.frames@.len(), before.visiting, mark);
            assert(self.stage() =~= Stage { visiting: before.visiting.insert(mark), ..before });
        }
        let (instance, fuel) = self.instantiate_uncached(key, frame);
        let ghost after = self.stage();
        self.visiting.remove(&visit);
        proof {
            assert(self.visiting@ =~= before.visiting);
            assert(self.stage() =~= Stage { visiting: after.visiting.remove(mark), ..after });
        }
        (instance, Ghost(fuel@ + 1))
    }

    /// What the peers `names` of `key` are resolved to.
    fn see_peers(&mut self, key: &str, frame: usize, names: &Vec<String>) -> (result: (PeerChoice, Ghost<nat>))
        requires
            old(self).well_formed(),
            frame < old(self).frames@.len(),
        ensures
            final(self).well_formed(),
            final(self).continues(old(self)),
            old(self).stage().see_peers(
                old(self).graph(),
                key@,
                frame,
                names.deep_view(),
                Peers::none(),
                result.1@,
            ) == Some((final(self).stage(), result.0@)),
        decreases
                usize::MAX - old(self).frames@.len(),
                room(old(self).graph().dom(), old(self).frames@.len(), old(self).visiting@),
                1nat,
    {
        let ghost begun = self.stage();
        let ghost nodes = self.graph();
        let ghost all = names.deep_view();
        let mut peers = PeerChoice::new();
        let ghost mut need: nat = 0;
        let mut i: usize = 0;
        assert(all.skip(0) =~= all);
        while i < names.len()
            invariant
                i <= names.len(),
                all == names.deep_view(),
                nodes == self.graph(),
                nodes == old(self).graph(),
                begun == old(self).stage(),
                self.well_formed(),
                self.continues(old(self)),
                frame < old(self).frames@.len(),
                forall|fuel: nat|
                    fuel >= need ==> #[trigger] begun.see_peers(nodes, key@, frame, all, Peers::none(), fuel)
                        == self.stage().see_peers(nodes, key@, frame, all.skip(i as int), peers@, fuel),
            decreases names.len() - i,
        {
            let ghost here = self.stage();
            let ghost had = peers@;
            let ghost rest = all.skip(i as int);
            assert(rest[0] == names@[i as int]@);
            assert(rest.skip(1) =~= all.skip(i + 1));
            match self.source(key, frame, names[i].as_str()) {
                Some((peer, at, fell_back)) => {
                    let (instance, fuel) = self.instantiate(peer.as_str(), at);
                    let ghost made = instance@;
                    peers.insert(names[i].as_str(), instance.id, fell_back);
                    proof {
                        let least = if need > fuel@ {
                            need
                        } else {
                            fuel@
                        };
                        assert forall|more: nat| more >= least implies #[trigger] begun.see_peers(
                            nodes,
                            key@,
                            frame,
                            all,
                            Peers::none(),
                            more,
                        ) == self.stage().see_peers(nodes, key@, frame, all.skip(i + 1), peers@, more) by {
                            here.instantiate_monotonic(nodes, peer@, at, fuel@, more);
                        }
                        need = least;
                    }
                },
                None => {
                    assert forall|more: nat| more >= need implies #[trigger] begun.see_peers(
                        nodes,
                        key@,
                        frame,
                        all,
                        Peers::none(),
                        more,
                    ) == self.stage().see_peers(nodes, key@, frame, all.skip(i + 1), peers@, more) by {}
                },
            }
            i += 1;
        }
        assert(all.skip(i as int) =~= Seq::<Text>::empty());
        assert(begun.see_peers(nodes, key@, frame, all, Peers::none(), need) == Some((self.stage(), peers@)));
        (peers, Ghost(need))
    }

    /// The links to the dependencies of `node`.
    fn link_children(
        &mut self,
        node: &Node,
        peers: &PeerChoice,
        children: &Dict<String>,
        frame: usize,
    ) -> (result: (LinkSet, Ghost<nat>))
        requires
            old(self).well_formed(),
            node@.leads_into(old(self).graph()),
            children@ == peers@.children(node@),
            frame < old(self).frames@.len(),
        ensures
            final(self).well_formed(),
            final(self).continues(old(self)),
            old(self).stage().link_children(
                old(self).graph(),
                node@,
                peers@,
                sorted(children@.dom()),
                frame,
                Links { externals: peers@.resolved(node@), deps: Map::empty(), optional_deps: Map::empty() },
                result.1@,
            ) == Some((final(self).stage(), result.0@)),
            result.0@.externals.subset_of(peers@.visible.dom()),
        decreases
                usize::MAX - old(self).frames@.len(),
                room(old(self).graph().dom(), old(self).frames@.len(), old(self).visiting@),
                1nat,
    {
        let ghost begun = self.stage();
        let ghost nodes = self.graph();
        let ghost all = sorted(children@.dom());
        let mut links = LinkSet { externals: peers.resolved(node), deps: Dict::new(), optional_deps: Dict::new() };
        let ghost first = Links {
            externals: peers@.resolved(node@),
            deps: Map::empty(),
            optional_deps: Map::empty(),
        };
        let ghost mut need: nat = 0;
        let n: usize = children.len();
        proof {
            assert(links@ =~= first);
            assert(all.skip(0) =~= all);
            children_are_nodes(nodes, node@, peers@);
        }
        let mut i: usize = 0;
        while i < n
            invariant
                i <= n,
                n == all.len(),
                all == sorted(children@.dom()),
                nodes == self.graph(),
                nodes == old(self).graph(),
                begun == old(self).stage(),
                self.well_formed(),
                self.continues(old(self)),
                frame < old(self).frames@.len(),
                children@ == peers@.children(node@),
                leads_into(children@, nodes),
                links@.externals.subset_of(peers@.visible.dom()),
                forall|fuel: nat|
                    fuel >= need ==> #[trigger] begun.link_children(nodes, node@, peers@, all, frame, first, fuel)
                        == self.stage().link_children(nodes, node@, peers@, all.skip(i as int), frame, links@, fuel),
            decreases n - i,
        {
            let ghost here = self.stage();
            let ghost had = links@;
            let ghost rest = all.skip(i as int);
            assert(rest[0] == all[i as int]);
            assert(rest.skip(1) =~= all.skip(i + 1));
            let child = children.value(i);
            assert(children@.contains_key(all[i as int]));
            let (instance, fuel) = self.instantiate(child.as_str(), frame);
            let ghost made = instance@;
            links.insert(node, children, &peers.visible, children.key(i).as_str(), instance);
            proof {
                let least = if need > fuel@ {
                    need
                } else {
                    fuel@
                };
                assert forall|more: nat| more >= least implies #[trigger] begun.link_children(
                    nodes,
                    node@,
                    peers@,
                    all,
                    frame,
                    first,
                    more,
                ) == self.stage().link_children(nodes, node@, peers@, all.skip(i + 1), frame, links@, more) by {
                    here.instantiate_monotonic(nodes, child@, frame, fuel@, more);
                }
                need = least;
            }
            i += 1;
        }
        assert(all.skip(i as int) =~= Seq::<Text>::empty());
        assert(begun.link_children(nodes, node@, peers@, all, frame, first, need) == Some((self.stage(), links@)));
        (links, Ghost(need))
    }

    fn instantiate_uncached(&mut self, key: &str, frame: usize) -> (result: (Instance, Ghost<nat>))
        requires
            old(self).well_formed(),
            old(self).graph().contains_key(key@),
            frame < old(self).frames@.len(),
        ensures
            final(self).well_formed(),
            final(self).continues(old(self)),
            old(self).stage().instantiate_uncached(old(self).graph(), key@, frame, result.1@) == Some(
                (final(self).stage(), result.0@),
            ),
        decreases
                usize::MAX - old(self).frames@.len(),
                room(old(self).graph().dom(), old(self).frames@.len(), old(self).visiting@),
                2nat,
    {
        let ghost begun = self.stage();
        let ghost graph = self.graph();
        let nodes = self.nodes;
        let node = nodes.get(key).unwrap();
        let names = self.closures.get(key).unwrap().to_vec();
        let (peers, seen_fuel) = self.see_peers(key, frame, &names);
        let ghost seen = self.stage();
        let memo_key: MemoKey = (key.to_owned(), peers.choices(&names));
        let ghost mark = memo_key.deep_view();
        assert(mark == (key@, peers@.choices(names.deep_view())));
        if let Some(instance) = self.memo.get(&memo_key) {
            return (instance.duplicate(), seen_fuel);
        }
        if self.in_progress.contains(&memo_key) {
            let instance = Instance { id: key.to_owned(), externals: Names::new() };
            assert(instance@ =~= placeholder(key@));
            return (instance, seen_fuel);
        }
        self.in_progress.insert(memo_key.duplicate());
        let children = peers.children(node);
        let child_frame: usize = self.frames.len();
        self.frames.push(Frame { names: children.duplicate(), parent: Some(frame) });
        let _ = self.frames.len();
        proof {
            assert(node@.leads_into(graph));
            children_are_nodes(graph, node@, peers@);
            let entered = seen.entered(mark, children@, frame);
            assert(self.frames.deep_view() =~= entered.frames);
            assert(self.stage() =~= entered);
            assert(frames_sound(self.frames.deep_view(), graph)) by {
                assert forall|i: int| 0 <= i < self.frames.deep_view().len() implies leads_into(
                    (#[trigger] self.frames.deep_view()[i]).names,
                    graph,
                ) && (self.frames.deep_view()[i].parent is Some ==> (self.frames.deep_view()[i].parent->0) < i) by {
                    if i < seen.frames.len() {
                        assert(self.frames.deep_view()[i] == seen.frames[i]);
                    }
                }
            }
        }
        let ghost entered = self.stage();
        let (links, linked_fuel) = self.link_children(node, &peers, &children, child_frame);
        let ghost linked = self.stage();
        let id = peers.id(key, &links.externals);
        let mut deps = links.deps;
        let own = peers.resolved(node);
        let ghost own_links = deps@;
        let ghost list = sorted(own@);
        let n: usize = own.len();
        proof {
            sorted_properties(own@);
            assert(deps@ =~= own_links.union_prefer_right(peers@.visible.restrict(list.take(0).to_set())));
        }
        let mut i: usize = 0;
        while i < n
            invariant
                i <= n,
                n == list.len(),
                list == sorted(own@),
                own@ == peers@.resolved(node@),
                deps@ == own_links.union_prefer_right(peers@.visible.restrict(list.take(i as int).to_set())),
            decreases n - i,
        {
            let name = own.at(i);
            assert(peers@.visible.contains_key(name@));
            deps.insert(name.clone(), peers.visible.get(name.as_str()).unwrap().clone());
            proof {
                taken_one_more(list, i as int);
                assert(deps@ =~= own_links.union_prefer_right(peers@.visible.restrict(list.take(i + 1).to_set())));
            }
            i += 1;
        }
        proof {
            assert(list.take(i as int) =~= list);
        }
        let data = InstanceData { key: key.to_owned(), deps, optional_deps: links.optional_deps };
        if !self.instances.contains_key(id.as_str()) {
            self.instances.insert(id.clone(), data);
        }
        let instance = Instance { id, externals: links.externals };
        self.in_progress.remove(&memo_key);
        self.memo.insert(memo_key, instance.duplicate());
        proof {
            let (left, made) = linked.left(mark, peers@, node@, links@);
            assert(instance@ =~= made);
            assert(self.stage() =~= left);
            assert forall|i: int| 0 <= i < begun.frames.len() implies self.frames.deep_view()[i] == #[trigger] begun.frames[i] by {
                assert(begun.frames[i] == seen.frames[i]);
                assert(seen.frames[i] == entered.frames[i]);
                assert(entered.frames[i] == linked.frames[i]);
            }
            let fuel = if seen_fuel@ > linked_fuel@ {
                seen_fuel@
            } else {
                linked_fuel@
            };
            begun.see_peers_monotonic(
                graph,
                key@,
                frame,
                names.deep_view(),
                Peers::none(),
                seen_fuel@,
                fuel,
            );
            entered.link_children_monotonic(
                graph,
                node@,
                peers@,
                sorted(children@.dom()),
                child_frame,
                Links { externals: peers@.resolved(node@), deps: Map::empty(), optional_deps: Map::empty() },
                linked_fuel@,
                fuel,
            );
        }
        (
            instance,
            Ghost(
                if seen_fuel@ > linked_fuel@ {
                    seen_fuel@
                } else {
                    linked_fuel@
                },
            ),
        )
    }
}

/// What an importer makes visible. Regular dependencies take precedence over dev and optional ones.
pub open spec fn root_names(groups: GroupsView) -> Map<Text, Text> {
    groups.dev_dependencies.union_prefer_right(groups.optional_dependencies).union_prefer_right(groups.dependencies)
}

impl Stage {
    /// Nothing made yet.
    pub open spec fn first() -> Stage {
        Stage {
            frames: Seq::empty(),
            root_frame: 0,
            memo: Map::empty(),
            in_progress: Set::empty(),
            visiting: Set::empty(),
            instances: Map::empty(),
        }
    }

    /// This stage when an importer has been taken in hand.
    pub open spec fn rooted(self, groups: GroupsView) -> Stage {
        Stage {
            frames: self.frames.push(FrameView { names: root_names(groups), parent: None }),
            root_frame: self.frames.len() as usize,
            ..self
        }
    }

    /// The ids of the dependencies `aliases` of an importer, beside those made before.
    pub open spec fn link_group(
        self,
        nodes: Map<Text, NodeView>,
        deps: Map<Text, Text>,
        aliases: Seq<Text>,
        ids: Map<Text, Text>,
        fuel: nat,
    ) -> Option<(Stage, Map<Text, Text>)>
        decreases aliases.len(),
    {
        if aliases.len() == 0 {
            Some((self, ids))
        } else {
            match self.instantiate(nodes, deps[aliases[0]], self.root_frame, fuel) {
                None => None,
                Some((stage, instance)) => stage.link_group(
                    nodes,
                    deps,
                    aliases.skip(1),
                    ids.insert(aliases[0], instance.id),
                    fuel,
                ),
            }
        }
    }

    /// The ids of the dependencies of an importer.
    pub open spec fn instantiate_root(self, nodes: Map<Text, NodeView>, groups: GroupsView, fuel: nat) -> Option<
        (Stage, GroupsView),
    > {
        let (a, b, c) = (groups.dependencies, groups.dev_dependencies, groups.optional_dependencies);
        match self.rooted(groups).link_group(nodes, a, sorted(a.dom()), Map::empty(), fuel) {
            None => None,
            Some((stage, dependencies)) => match stage.link_group(nodes, b, sorted(b.dom()), Map::empty(), fuel) {
                None => None,
                Some((stage, dev_dependencies)) => match stage.link_group(
                    nodes,
                    c,
                    sorted(c.dom()),
                    Map::empty(),
                    fuel,
                ) {
                    None => None,
                    Some((stage, optional_dependencies)) => Some(
                        (stage, GroupsView { dependencies, dev_dependencies, optional_dependencies }),
                    ),
                },
            },
        }
    }

    /// The ids of the dependencies of the importers.
    pub open spec fn instantiate_roots(self, nodes: Map<Text, NodeView>, roots: Seq<GroupsView>, fuel: nat) -> Option<
        (Stage, Seq<GroupsView>),
    >
        decreases roots.len(),
    {
        if roots.len() == 0 {
            Some((self, Seq::empty()))
        } else {
            match self.instantiate_roots(nodes, roots.drop_last(), fuel) {
                None => None,
                Some((stage, before)) => match stage.instantiate_root(nodes, roots.last(), fuel) {
                    None => None,
                    Some((stage, ids)) => Some((stage, before.push(ids))),
                },
            }
        }
    }

    proof fn link_group_monotonic(
        self,
        nodes: Map<Text, NodeView>,
        deps: Map<Text, Text>,
        aliases: Seq<Text>,
        ids: Map<Text, Text>,
        fuel: nat,
        more: nat,
    )
        requires
            self.link_group(nodes, deps, aliases, ids, fuel) is Some,
            fuel <= more,
        ensures
            self.link_group(nodes, deps, aliases, ids, more) == self.link_group(nodes, deps, aliases, ids, fuel),
        decreases aliases.len(),
    {
        if aliases.len() > 0 {
            self.instantiate_monotonic(nodes, deps[aliases[0]], self.root_frame, fuel, more);
            let (stage, instance) = self.instantiate(nodes, deps[aliases[0]], self.root_frame, fuel)->0;
            stage.link_group_monotonic(
                nodes,
                deps,
                aliases.skip(1),
                ids.insert(aliases[0], instance.id),
                fuel,
                more,
            );
        }
    }

    proof fn instantiate_root_monotonic(self, nodes: Map<Text, NodeView>, groups: GroupsView, fuel: nat, more: nat)
        requires
            self.instantiate_root(nodes, groups, fuel) is Some,
            fuel <= more,
        ensures
            self.instantiate_root(nodes, groups, more) == self.instantiate_root(nodes, groups, fuel),
    {
        let (a, b, c) = (groups.dependencies, groups.dev_dependencies, groups.optional_dependencies);
        let none = Map::<Text, Text>::empty();
        self.rooted(groups).link_group_monotonic(nodes, a, sorted(a.dom()), none, fuel, more);
        let (one, _) = self.rooted(groups).link_group(nodes, a, sorted(a.dom()), none, fuel)->0;
        one.link_group_monotonic(nodes, b, sorted(b.dom()), none, fuel, more);
        let (two, _) = one.link_group(nodes, b, sorted(b.dom()), none, fuel)->0;
        two.link_group_monotonic(nodes, c, sorted(c.dom()), none, fuel, more);
    }

    /// More levels do not change what importers lead to.
    pub proof fn instantiate_roots_monotonic(
        self,
        nodes: Map<Text, NodeView>,
        roots: Seq<GroupsView>,
        fuel: nat,
        more: nat,
    )
        requires
            self.instantiate_roots(nodes, roots, fuel) is Some,
            fuel <= more,
        ensures
            self.instantiate_roots(nodes, roots, more) == self.instantiate_roots(nodes, roots, fuel),
        decreases roots.len(),
    {
        if roots.len() > 0 {
            self.instantiate_roots_monotonic(nodes, roots.drop_last(), fuel, more);
            let (stage, _) = self.instantiate_roots(nodes, roots.drop_last(), fuel)->0;
            stage.instantiate_root_monotonic(nodes, roots.last(), fuel, more);
        }
    }
}

/// `id` is the first instance of the package `key`.
pub open spec fn is_first_instance(instances: Map<Text, InstanceDataView>, key: Text, id: Text) -> bool {
    &&& instances.contains_key(id)
    &&& instances[id].key == key
    &&& forall|other: Text| #[trigger]
        instances.contains_key(other) && instances[other].key == key ==> !text_less(other, id)
}

/// Instances still being made within a cycle are referred to by the key of their package, which
/// stands for the first instance of it.
pub open spec fn settled(instances: Map<Text, InstanceDataView>, id: Text) -> Text {
    if instances.contains_key(id) || !exists|first: Text| is_first_instance(instances, id, first) {
        id
    } else {
        choose|first: Text| is_first_instance(instances, id, first)
    }
}

/// `edges` with every id settled.
pub open spec fn settled_edges(instances: Map<Text, InstanceDataView>, edges: Map<Text, Text>) -> Map<Text, Text> {
    edges.map_values(|id: Text| settled(instances, id))
}

/// `groups` with every id settled.
pub open spec fn settled_groups(instances: Map<Text, InstanceDataView>, groups: GroupsView) -> GroupsView {
    GroupsView {
        dependencies: settled_edges(instances, groups.dependencies),
        dev_dependencies: settled_edges(instances, groups.dev_dependencies),
        optional_dependencies: settled_edges(instances, groups.optional_dependencies),
    }
}

/// The package that the instance `data` of `node` is locked as.
pub open spec fn locked_package(
    instances: Map<Text, InstanceDataView>,
    node: NodeView,
    data: InstanceDataView,
) -> PackageView {
    let manifest = node.manifest;
    PackageView {
        name: node.name,
        version: node.version,
        url: manifest.dist.tarball,
        integrity: manifest.dist.integrity->0,
        deps: settled_edges(instances, data.deps),
        optional_deps: settled_edges(instances, data.optional_deps),
        os: manifest.os,
        cpu: manifest.cpu,
        libc: manifest.libc,
        has_bin: manifest.provides_bin(),
        install_script: manifest.has_install_script,
        build: false,
        impure_build: false,
        build_inputs: Seq::empty(),
        patch: None,
    }
}

/// The first of `ids` whose package has no integrity hash.
pub open spec fn first_unhashed(
    nodes: Map<Text, NodeView>,
    instances: Map<Text, InstanceDataView>,
    ids: Seq<Text>,
) -> Option<Text>
    decreases ids.len(),
{
    if ids.len() == 0 {
        None
    } else if nodes[instances[ids[0]].key].manifest.dist.integrity is None {
        Some(ids[0])
    } else {
        first_unhashed(nodes, instances, ids.skip(1))
    }
}

/// The packages that the instances are locked as.
pub open spec fn locked_packages(
    nodes: Map<Text, NodeView>,
    instances: Map<Text, InstanceDataView>,
) -> Map<Text, PackageView> {
    instances.map_values(|data: InstanceDataView| locked_package(instances, nodes[data.key], data))
}

/// The packages that come of `nodes`, and the ids that `roots` lead to, if that takes no more than
/// `fuel` levels of packages.
pub open spec fn built_packages(nodes: Map<Text, NodeView>, roots: Seq<GroupsView>, fuel: nat) -> Option<
    Result<(Map<Text, PackageView>, Seq<GroupsView>), Seq<Text>>,
> {
    match Stage::first().instantiate_roots(nodes, roots, fuel) {
        None => None,
        Some((stage, ids)) => match first_unhashed(nodes, stage.instances, sorted(stage.instances.dom())) {
            Some(id) => Some(Err(seq![id + " has no integrity hash in the registry"@])),
            None => Some(
                Ok(
                    (
                        locked_packages(nodes, stage.instances),
                        ids.map_values(|groups: GroupsView| settled_groups(stage.instances, groups)),
                    ),
                ),
            ),
        },
    }
}

/// The same graph always comes to the same packages.
pub proof fn built_packages_unique(nodes: Map<Text, NodeView>, roots: Seq<GroupsView>, a: nat, b: nat)
    requires
        built_packages(nodes, roots, a) is Some,
        built_packages(nodes, roots, b) is Some,
    ensures
        built_packages(nodes, roots, a) == built_packages(nodes, roots, b),
{
    if a <= b {
        Stage::first().instantiate_roots_monotonic(nodes, roots, a, b);
    } else {
        Stage::first().instantiate_roots_monotonic(nodes, roots, b, a);
    }
}

/// What a failed or finished build of packages means.
pub open spec fn packages_view(
    result: Result<(Dict<Package>, Vec<Groups>), Error>,
) -> Result<(Map<Text, PackageView>, Seq<GroupsView>), Seq<Text>> {
    match result {
        Ok((packages, groups)) => Ok((packages@, groups.deep_view())),
        Err(error) => Err(error@),
    }
}

impl<'n> PeerResolver<'n> {
    fn link_group(&mut self, deps: &Dict<String>) -> (result: (Dict<String>, Ghost<nat>))
        requires
            old(self).well_formed(),
            old(self).frames@.len() > 0,
            leads_into(deps@, old(self).graph()),
        ensures
            final(self).well_formed(),
            final(self).continues(old(self)),
            old(self).stage().link_group(
                old(self).graph(),
                deps@,
                sorted(deps@.dom()),
                Map::empty(),
                result.1@,
            ) == Some((final(self).stage(), result.0@)),
    {
        let ghost begun = self.stage();
        let ghost nodes = self.graph();
        let ghost all = sorted(deps@.dom());
        let ghost none = Map::<Text, Text>::empty();
        let mut ids: Dict<String> = Dict::new();
        let ghost mut need: nat = 0;
        let n: usize = deps.len();
        let mut i: usize = 0;
        assert(all.skip(0) =~= all);
        while i < n
            invariant
                i <= n,
                n == all.len(),
                all == sorted(deps@.dom()),
                nodes == self.graph(),
                nodes == old(self).graph(),
                begun == old(self).stage(),
                self.well_formed(),
                self.continues(old(self)),
                self.frames@.len() > 0,
                leads_into(deps@, nodes),
                none == Map::<Text, Text>::empty(),
                forall|fuel: nat|
                    fuel >= need ==> #[trigger] begun.link_group(nodes, deps@, all, none, fuel)
                        == self.stage().link_group(nodes, deps@, all.skip(i as int), ids@, fuel),
            decreases n - i,
        {
            let ghost here = self.stage();
            let ghost rest = all.skip(i as int);
            assert(rest[0] == all[i as int]);
            assert(rest.skip(1) =~= all.skip(i + 1));
            let key = deps.value(i);
            assert(deps@.contains_key(all[i as int]));
            let (instance, fuel) = self.instantiate(key.as_str(), self.root_frame);
            ids.insert(deps.key(i).clone(), instance.id);
            proof {
                let least = if need > fuel@ {
                    need
                } else {
                    fuel@
                };
                assert forall|more: nat| more >= least implies #[trigger] begun.link_group(
                    nodes,
                    deps@,
                    all,
                    none,
                    more,
                ) == self.stage().link_group(nodes, deps@, all.skip(i + 1), ids@, more) by {
                    here.instantiate_monotonic(nodes, key@, here.root_frame, fuel@, more);
                }
                need = least;
            }
            i += 1;
        }
        assert(all.skip(i as int) =~= Seq::<Text>::empty());
        assert(begun.link_group(nodes, deps@, all, none, need) == Some((self.stage(), ids@)));
        (ids, Ghost(need))
    }

    /// The ids of the dependencies of an importer.
    fn instantiate_root(&mut self, groups: &Groups) -> (result: (Groups, Ghost<nat>))
        requires
            old(self).well_formed(),
            groups@.leads_into(old(self).graph()),
        ensures
            final(self).well_formed(),
            final(self).nodes == old(self).nodes,
            old(self).stage().instantiate_root(old(self).graph(), groups@, result.1@) == Some(
                (final(self).stage(), result.0@),
            ),
    {
        let ghost begun = self.stage();
        let ghost nodes = self.graph();
        let mut names = groups.dev_dependencies.duplicate();
        names.extend(&groups.optional_dependencies);
        names.extend(&groups.dependencies);
        let ghost visible = names@;
        self.root_frame = self.frames.len();
        self.frames.push(Frame { names, parent: None });
        let _ = self.frames.len();
        proof {
            assert(visible == root_names(groups@));
            assert(leads_into(visible, nodes)) by {
                assert forall|alias: Text| #[trigger] visible.contains_key(alias) implies nodes.contains_key(
                    visible[alias],
                ) by {
                    if groups@.dependencies.contains_key(alias) {
                    } else if groups@.optional_dependencies.contains_key(alias) {
                    } else {
                        assert(groups@.dev_dependencies.contains_key(alias));
                    }
                }
            }
            assert(self.frames.deep_view() =~= begun.rooted(groups@).frames);
            assert(self.stage() =~= begun.rooted(groups@));
            assert forall|i: int| 0 <= i < self.frames.deep_view().len() implies leads_into(
                (#[trigger] self.frames.deep_view()[i]).names,
                nodes,
            ) && (self.frames.deep_view()[i].parent is Some ==> (self.frames.deep_view()[i].parent->0) < i) by {
                if i < begun.frames.len() {
                    assert(self.frames.deep_view()[i] == begun.frames[i]);
                }
            }
        }
        let ghost rooted = self.stage();
        let (dependencies, one) = self.link_group(&groups.dependencies);
        let ghost second = self.stage();
        let (dev_dependencies, two) = self.link_group(&groups.dev_dependencies);
        let ghost third = self.stage();
        let (optional_dependencies, three) = self.link_group(&groups.optional_dependencies);
        let ghost fuel = one@ + two@ + three@;
        let result = Groups { dependencies, dev_dependencies, optional_dependencies };
        proof {
            let (a, b, c) = (groups@.dependencies, groups@.dev_dependencies, groups@.optional_dependencies);
            let none = Map::<Text, Text>::empty();
            rooted.link_group_monotonic(nodes, a, sorted(a.dom()), none, one@, fuel);
            second.link_group_monotonic(nodes, b, sorted(b.dom()), none, two@, fuel);
            third.link_group_monotonic(nodes, c, sorted(c.dom()), none, three@, fuel);
        }
        (result, Ghost(fuel))
    }
}

/// The first instances of the packages.
fn first_instances(instances: &Dict<InstanceData>) -> (result: Dict<String>)
    ensures
        forall|key: Text| #[trigger]
            result@.contains_key(key) ==> is_first_instance(instances@, key, result@[key]),
        forall|id: Text| #[trigger]
            instances@.contains_key(id) ==> result@.contains_key(instances@[id].key),
{
    let mut result: Dict<String> = Dict::new();
    let n: usize = instances.len();
    let ghost ids = sorted(instances@.dom());
    proof {
        sorted_properties(instances@.dom());
    }
    let mut i: usize = 0;
    while i < n
        invariant
            i <= n,
            n == ids.len(),
            ids == sorted(instances@.dom()),
            crate::dict::ascending(ids),
            forall|x: Text| #[trigger] ids.contains(x) == instances@.dom().contains(x),
            forall|key: Text| #[trigger]
                result@.contains_key(key) ==> instances@.contains_key(result@[key]) && instances@[result@[key]].key
                    == key && ids.contains(result@[key]) && forall|j: int|
                    0 <= j < ids.len() && instances@[#[trigger] ids[j]].key == key ==> !text_less(ids[j], result@[key]),
            forall|j: int| 0 <= j < i ==> result@.contains_key(instances@[#[trigger] ids[j]].key),
        decreases n - i,
    {
        let data = instances.value(i);
        assert(ids.contains(ids[i as int]));
        if !result.contains_key(data.key.as_str()) {
            let ghost key = data@.key;
            result.insert(data.key.clone(), instances.key(i).clone());
            assert forall|j: int| 0 <= j < ids.len() && instances@[#[trigger] ids[j]].key == key implies !text_less(
                ids[j],
                ids[i as int],
            ) by {
                if j > i {
                    assert(text_less(ids[i as int], ids[j]));
                    text_less_total(ids[i as int], ids[j]);
                } else if j == i {
                    text_less_irreflexive(ids[j]);
                }
            }
        }
        i += 1;
    }
    proof {
        assert forall|key: Text| #[trigger] result@.contains_key(key) implies is_first_instance(
            instances@,
            key,
            result@[key],
        ) by {
            assert forall|other: Text| #[trigger]
                instances@.contains_key(other) && instances@[other].key == key implies !text_less(other, result@[key]) by {
                assert(ids.contains(other));
                assert(ids[ids.index_of(other)] == other);
            }
        }
        assert forall|id: Text| #[trigger] instances@.contains_key(id) implies result@.contains_key(
            instances@[id].key,
        ) by {
            assert(ids.contains(id));
            assert(ids[ids.index_of(id)] == id);
        }
    }
    result
}

fn settle_edges(edges: &Dict<String>, instances: &Dict<InstanceData>, first: &Dict<String>) -> (result: Dict<String>)
    requires
        forall|key: Text| #[trigger]
            first@.contains_key(key) ==> is_first_instance(instances@, key, first@[key]),
        forall|id: Text| #[trigger]
            instances@.contains_key(id) ==> first@.contains_key(instances@[id].key),
    ensures
        result@ == settled_edges(instances@, edges@),
{
    let mut result: Dict<String> = Dict::new();
    let n: usize = edges.len();
    let ghost keys = sorted(edges@.dom());
    let ghost all = settled_edges(instances@, edges@);
    proof {
        sorted_properties(edges@.dom());
        assert(result@ =~= all.restrict(keys.take(0).to_set()));
    }
    let mut i: usize = 0;
    while i < n
        invariant
            i <= n,
            n == keys.len(),
            keys == sorted(edges@.dom()),
            all == settled_edges(instances@, edges@),
            forall|x: Text| #[trigger] keys.contains(x) == edges@.dom().contains(x),
            forall|key: Text| #[trigger]
                first@.contains_key(key) ==> is_first_instance(instances@, key, first@[key]),
            forall|id: Text| #[trigger]
                instances@.contains_key(id) ==> first@.contains_key(instances@[id].key),
            result@ == all.restrict(keys.take(i as int).to_set()),
        decreases n - i,
    {
        let id = edges.value(i);
        let known_id = if instances.contains_key(id.as_str()) {
            id.clone()
        } else {
            match first.get(id.as_str()) {
                Some(known_id) => known_id.clone(),
                None => id.clone(),
            }
        };
        proof {
            if !instances@.contains_key(id@) {
                if first@.contains_key(id@) {
                    let chosen = choose|f: Text| is_first_instance(instances@, id@, f);
                    assert(is_first_instance(instances@, id@, first@[id@]));
                    text_less_total(chosen, first@[id@]);
                } else {
                    assert forall|f: Text| !is_first_instance(instances@, id@, f) by {
                        if is_first_instance(instances@, id@, f) {
                            assert(first@.contains_key(instances@[f].key));
                        }
                    }
                }
            }
            assert(known_id@ == settled(instances@, id@));
            taken_one_more(keys, i as int);
        }
        result.insert(edges.key(i).clone(), known_id);
        assert(result@ =~= all.restrict(keys.take(i + 1).to_set()));
        i += 1;
    }
    proof {
        assert(keys.take(i as int) =~= keys);
        assert forall|x: Text| all.contains_key(x) implies keys.to_set().contains(x) by {
            assert(keys.contains(x));
        }
        assert(result@ =~= all);
    }
    result
}

/// Makes a package of every instance that the importers lead to.
pub fn build_packages(nodes: &Dict<Node>, roots: &Vec<Groups>) -> (result: Result<(Dict<Package>, Vec<Groups>), Error>)
    requires
        is_sound(nodes@, roots.deep_view()),
    ensures
        exists|fuel: nat| #[trigger]
            built_packages(nodes@, roots.deep_view(), fuel) == Some(packages_view(result)),
        result matches Ok((packages, groups)) ==> groups@.len() == roots@.len(),
{
    let _ = nodes.len();
    let mut resolver = PeerResolver {
        nodes,
        closures: peer_closures(nodes),
        fallbacks: optional_peer_fallbacks(nodes),
        frames: Vec::new(),
        root_frame: 0,
        memo: Memo::new(),
        in_progress: Bag::new(),
        visiting: Bag::new(),
        instances: Dict::new(),
    };
    let ghost all = roots.deep_view();
    let ghost first = Stage::first();
    let ghost mut need: nat = 0;
    proof {
        assert(resolver.frames.deep_view() =~= Seq::<FrameView>::empty());
        assert(resolver.stage() =~= first);
    }
    let mut ids: Vec<Groups> = Vec::new();
    assert(ids.deep_view() =~= Seq::<GroupsView>::empty());
    let mut i: usize = 0;
    while i < roots.len()
        invariant
            i <= roots.len(),
            ids@.len() == i,
            all == roots.deep_view(),
            is_sound(nodes@, all),
            resolver.well_formed(),
            resolver.nodes == nodes,
            first == Stage::first(),
            first.instantiate_roots(nodes@, all.take(i as int), need) == Some((resolver.stage(), ids.deep_view())),
        decreases roots.len() - i,
    {
        let ghost here = resolver.stage();
        let ghost had = ids.deep_view();
        assert(all[i as int] == roots@[i as int]@);
        assert(all[i as int].leads_into(nodes@));
        let (group, fuel) = resolver.instantiate_root(&roots[i]);
        let ghost made = group@;
        ids.push(group);
        proof {
            let least = need + fuel@;
            assert(all.take(i + 1).drop_last() =~= all.take(i as int));
            assert(all.take(i + 1).last() == all[i as int]);
            assert(ids.deep_view() =~= had.push(made));
            first.instantiate_roots_monotonic(nodes@, all.take(i as int), need, least);
            here.instantiate_root_monotonic(nodes@, all[i as int], fuel@, least);
            need = least;
        }
        i += 1;
    }
    assert(all.take(i as int) =~= all);
    let ghost stage = resolver.stage();
    let ghost data = stage.instances;
    let instances = resolver.instances;
    let known = first_instances(&instances);
    let mut packages: Dict<Package> = Dict::new();
    let ghost expected = locked_packages(nodes@, data);
    let n: usize = instances.len();
    let ghost names = sorted(data.dom());
    proof {
        sorted_properties(data.dom());
        assert(names.skip(0) =~= names);
        assert(packages@ =~= expected.restrict(names.take(0).to_set()));
    }
    let mut k: usize = 0;
    while k < n
        invariant
            k <= n,
            n == names.len(),
            data == instances@,
            names == sorted(data.dom()),
            all == roots.deep_view(),
            expected == locked_packages(nodes@, data),
            forall|x: Text| #[trigger] names.contains(x) == data.dom().contains(x),
            forall|id: Text| #[trigger] data.contains_key(id) ==> nodes@.contains_key(data[id].key),
            forall|key: Text| #[trigger]
                known@.contains_key(key) ==> is_first_instance(instances@, key, known@[key]),
            forall|id: Text| #[trigger]
                instances@.contains_key(id) ==> known@.contains_key(instances@[id].key),
            packages@ == expected.restrict(names.take(k as int).to_set()),
            first_unhashed(nodes@, data, names) == first_unhashed(nodes@, data, names.skip(k as int)),
            stage.instances == data,
            Stage::first().instantiate_roots(nodes@, all, need) == Some((stage, ids.deep_view())),
        decreases n - k,
    {
        let id = instances.key(k);
        let instance = instances.value(k);
        assert(data.contains_key(id@));
        let node = nodes.get(instance.key.as_str()).unwrap();
        let manifest = &node.manifest;
        proof {
            taken_one_more(names, k as int);
            assert(names.skip(k as int)[0] == id@);
            assert(names.skip(k as int).skip(1) =~= names.skip(k + 1));
        }
        let integrity = match &manifest.dist.integrity {
            Some(integrity) => integrity.clone(),
            None => {
                let error = Error::new(cat(id.as_str(), " has no integrity hash in the registry"));
                assert(built_packages(nodes@, all, need) == Some(
                    Err::<(Map<Text, PackageView>, Seq<GroupsView>), Seq<Text>>(error@),
                ));
                return Err(error);
            },
        };
        let package = Package {
            name: node.name.clone(),
            version: node.version.clone(),
            url: manifest.dist.tarball.clone(),
            integrity,
            deps: settle_edges(&instance.deps, &instances, &known),
            optional_deps: settle_edges(&instance.optional_deps, &instances, &known),
            os: manifest.os.duplicate(),
            cpu: manifest.cpu.duplicate(),
            libc: manifest.libc.duplicate(),
            has_bin: manifest.has_bin(),
            install_script: manifest.has_install_script,
            build: false,
            impure_build: false,
            build_inputs: Vec::new(),
            patch: None,
        };
        proof {
            let view = locked_package(data, node@, instance@);
            assert(package.build_inputs.deep_view() =~= Seq::<Text>::empty());
            assert(package@ =~= view);
            assert(expected[id@] == view);
        }
        packages.insert(id.clone(), package);
        assert(packages@ =~= expected.restrict(names.take(k + 1).to_set()));
        k += 1;
    }
    proof {
        assert(names.take(k as int) =~= names);
        assert forall|x: Text| expected.contains_key(x) implies names.to_set().contains(x) by {
            assert(names.contains(x));
        }
        assert(packages@ =~= expected);
        assert(names.skip(k as int) =~= Seq::<Text>::empty());
    }
    let ghost settled_ids = ids.deep_view().map_values(|groups: GroupsView| settled_groups(data, groups));
    let mut groups: Vec<Groups> = Vec::new();
    let mut j: usize = 0;
    while j < ids.len()
        invariant
            j <= ids.len(),
            groups@.len() == j,
            data == instances@,
            settled_ids == ids.deep_view().map_values(|groups: GroupsView| settled_groups(data, groups)),
            forall|key: Text| #[trigger]
                known@.contains_key(key) ==> is_first_instance(instances@, key, known@[key]),
            forall|id: Text| #[trigger]
                instances@.contains_key(id) ==> known@.contains_key(instances@[id].key),
            forall|l: int| 0 <= l < j ==> (#[trigger] groups@[l])@ == settled_ids[l],
        decreases ids.len() - j,
    {
        let group = Groups {
            dependencies: settle_edges(&ids[j].dependencies, &instances, &known),
            dev_dependencies: settle_edges(&ids[j].dev_dependencies, &instances, &known),
            optional_dependencies: settle_edges(&ids[j].optional_dependencies, &instances, &known),
        };
        proof {
            assert(ids.deep_view()[j as int] == ids@[j as int]@);
            assert(group@ =~= settled_groups(data, ids@[j as int]@));
        }
        groups.push(group);
        j += 1;
    }
    proof {
        assert(groups.deep_view() =~= settled_ids);
        assert(built_packages(nodes@, all, need) == Some(
            Ok::<(Map<Text, PackageView>, Seq<GroupsView>), Seq<Text>>((packages@, groups.deep_view())),
        ));
    }
    Ok((packages, groups))
}

/// `chain` leads from frame to frame above it, and its last frame is the first with `name`.
pub open spec fn is_way_up(frames: Seq<FrameView>, chain: Seq<usize>, name: Text) -> bool {
    &&& chain.len() > 0
    &&& forall|i: int| 0 <= i < chain.len() ==> (#[trigger] chain[i]) < frames.len()
    &&& forall|i: int, j: int|
        0 <= i && j == i + 1 && j < chain.len() ==> frames[#[trigger] chain[i] as int].parent == Some(
            #[trigger] chain[j],
        ) && chain[j] < chain[i]
    &&& forall|i: int|
        0 <= i < chain.len() - 1 ==> !frames[(#[trigger] chain[i]) as int].names.contains_key(name)
}

/// A peer is what the nearest ancestor has under its name, however far above that is.
pub proof fn nearest_ancestor_counts(frames: Seq<FrameView>, chain: Seq<usize>, name: Text)
    requires
        is_way_up(frames, chain, name),
        frames[chain.last() as int].names.contains_key(name) || frames[chain.last() as int].parent is None,
    ensures
        lookup(frames, chain[0], name) == (if frames[chain.last() as int].names.contains_key(name) {
            Some((frames[chain.last() as int].names[name], chain.last()))
        } else {
            None
        }),
    decreases chain.len(),
{
    assert(chain[0] < frames.len());
    if chain.len() > 1 {
        let rest = chain.skip(1);
        assert(frames[chain[0] as int].parent == Some(chain[1]));
        assert(is_way_up(frames, rest, name)) by {
            assert forall|i: int| 0 <= i < rest.len() implies (#[trigger] rest[i]) < frames.len() by {
                assert(chain[i + 1] < frames.len());
            }
            assert forall|i: int, j: int| 0 <= i && j == i + 1 && j < rest.len() implies frames[#[trigger] rest[i] as int].parent
                == Some(#[trigger] rest[j]) && rest[j] < rest[i] by {
                assert(frames[chain[i + 1] as int].parent == Some(chain[j + 1]));
            }
            assert forall|i: int| 0 <= i < rest.len() - 1 implies !frames[(#[trigger] rest[i]) as int].names.contains_key(
                name,
            ) by {
                assert(!frames[chain[i + 1] as int].names.contains_key(name));
            }
        }
        assert(rest.last() == chain.last());
        nearest_ancestor_counts(frames, rest, name);
    }
}

proof fn frames_above_stay(frames: Seq<FrameView>, last: FrameView, frame: usize, name: Text)
    requires
        frame < frames.len(),
    ensures
        lookup(frames.push(last), frame, name) == lookup(frames, frame, name),
    decreases frame,
{
    assert(frames.push(last)[frame as int] == frames[frame as int]);
    if let Some(parent) = frames[frame as int].parent {
        if parent < frame {
            frames_above_stay(frames, last, parent, name);
        }
    }
}

/// What is below a package sees its dependencies, optional or not, and the peers that it requires and
/// that were not resolved. Under every other name it sees what the package sees itself.
pub proof fn children_see_package(stage: Stage, memo_key: MemoKeyView, node: NodeView, peers: Peers, frame: usize, name: Text)
    requires
        frame < stage.frames.len() < usize::MAX,
    ensures
        ({
            let below = stage.entered(memo_key, peers.children(node), frame);
            let at = stage.frames.len() as usize;
            let is_automatic = node.peers.contains_key(name) && !node.peers[name] && node.auto_peers.contains_key(name)
                && !peers.is_resolved(name, false);
            &&& is_automatic ==> lookup(below.frames, at, name) == Some((node.auto_peers[name], at))
            &&& !is_automatic && node.optional_deps.contains_key(name) ==> lookup(below.frames, at, name) == Some(
                (node.optional_deps[name], at),
            )
            &&& !is_automatic && !node.optional_deps.contains_key(name) && node.deps.contains_key(name) ==> lookup(
                below.frames,
                at,
                name,
            ) == Some((node.deps[name], at))
            &&& !is_automatic && !node.optional_deps.contains_key(name) && !node.deps.contains_key(name) ==> lookup(
                below.frames,
                at,
                name,
            ) == lookup(stage.frames, frame, name)
        }),
{
    let children = peers.children(node);
    let at = stage.frames.len() as usize;
    let last = FrameView { names: children, parent: Some(frame) };
    let frames = stage.entered(memo_key, children, frame).frames;
    assert(frames == stage.frames.push(last));
    assert(frames[at as int] == last);
    frames_above_stay(stage.frames, last, frame, name);
}

/// A peer that is required is resolved only from an ancestor, an optional one also from what stands in
/// for it. Whatever is resolved is among the dependencies of the instance.
pub proof fn resolved_peers_are_linked(
    stage: Stage,
    memo_key: MemoKeyView,
    peers: Peers,
    node: NodeView,
    links: Links,
    name: Text,
)
    requires
        node.peers.contains_key(name),
        peers.visible.contains_key(name),
        !stage.instances.contains_key(stage.left(memo_key, peers, node, links).1.id),
    ensures
        ({
            let (left, instance) = stage.left(memo_key, peers, node, links);
            let data = left.instances[instance.id];
            &&& left.instances.contains_key(instance.id)
            &&& data.key == memo_key.0
            &&& !peers.fell_back.contains(name) || node.peers[name] ==> data.deps.contains_key(name) && data.deps[name]
                == peers.visible[name]
            &&& peers.fell_back.contains(name) && !node.peers[name] ==> (data.deps.contains_key(name)
                <==> links.deps.contains_key(name)) && (links.deps.contains_key(name) ==> data.deps[name]
                == links.deps[name])
        }),
{
    let resolved = peers.visible.restrict(peers.resolved(node));
    assert(resolved.contains_key(name) == (!peers.fell_back.contains(name) || node.peers[name]));
}

/// A peer comes from the nearest ancestor that has it. Only where none has it does the highest version
/// anywhere stand in for it, if it is an optional peer of some package, and never for itself.
pub proof fn ancestors_count_first(
    stage: Stage,
    nodes: Map<Text, NodeView>,
    key: Text,
    frame: usize,
    name: Text,
    best: Text,
)
    requires
        is_best_version(nodes, nodes.dom(), name, best),
    ensures
        lookup(stage.frames, frame, name) matches Some((found, at)) ==> stage.source(nodes, key, frame, name) == Some(
            (found, at, false),
        ),
        lookup(stage.frames, frame, name) is None && is_optional_peer(nodes, name) && best != key ==> stage.source(
            nodes,
            key,
            frame,
            name,
        ) == Some((best, stage.root_frame, true)),
        lookup(stage.frames, frame, name) is None && (!is_optional_peer(nodes, name) || best == key) ==> stage.source(
            nodes,
            key,
            frame,
            name,
        ) is None,
{
    let found = choose|k: Text| is_best_version(nodes, nodes.dom(), name, k);
    best_version_is_unique(nodes, nodes.dom(), name, found, best);
}

} // verus!
