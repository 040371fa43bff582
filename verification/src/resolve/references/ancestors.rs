//! A package that an importer depends on gets its peers from that importer.
use vstd::prelude::*;

use crate::dict::{sorted, sorted_properties};
use crate::lock::PackageView;
use crate::resolve::chooser::{is_closed, is_sound, leads_into, GroupsView, NodeView};
use crate::resolve::closures::{closure_of, fallbacks_of, is_best_version, is_optional_peer, is_peer_path, is_version_of};
use crate::resolve::peers::{
    built_packages, lookup, root_names, settled_edges, settled_groups, suffix, FrameView, InstanceDataView, Links,
    MemoKeyView, Peers, Stage,
};
use crate::resolve::references::brackets::{
    balanced_adds_up, is_balanced, plain_is_balanced, suffix_is_balanced, suffixes_name_same,
};
use crate::resolve::references::{
    are_packages_of, built_packages_stand, child_is_node, children_finite, edges_in_order, groups_finite,
    id_has_one_key, is_finite, is_id_of, is_package_of, key_is_own_id, links_stand, lookup_finds_node, none_unhashed,
    settled_stands, suffix_is_bracketed,
};
use crate::text::Text;

verus! {

/// No package key holds a bracket.
pub open spec fn keys_are_plain(nodes: Map<Text, NodeView>) -> bool {
    forall|key: Text| #[trigger] nodes.contains_key(key) ==> !key.contains('(') && !key.contains(')')
}

/// `name` is a peer of some package.
pub open spec fn is_peer_name(nodes: Map<Text, NodeView>, name: Text) -> bool {
    exists|key: Text| #[trigger] nodes.contains_key(key) && nodes[key].peers.contains_key(name)
}

/// As far as peers are concerned, `edges` lead to packages only under what they are `called`.
pub open spec fn are_called(nodes: Map<Text, NodeView>, called: Map<Text, Text>, edges: Map<Text, Text>) -> bool {
    forall|name: Text| #[trigger] edges.contains_key(name) && is_peer_name(nodes, name) ==> called[edges[name]] == name
}

/// As far as peers are concerned, every package is `called` by one name, wherever something leads to it.
pub open spec fn have_one_name(nodes: Map<Text, NodeView>, roots: Seq<GroupsView>, called: Map<Text, Text>) -> bool {
    &&& forall|key: Text| #[trigger]
        nodes.contains_key(key) ==> {
            &&& are_called(nodes, called, nodes[key].deps)
            &&& are_called(nodes, called, nodes[key].optional_deps)
            &&& are_called(nodes, called, nodes[key].auto_peers)
            &&& is_optional_peer(nodes, nodes[key].name) ==> called[key] == nodes[key].name
        }
    &&& forall|i: int|
        0 <= i < roots.len() ==> are_called(nodes, called, (#[trigger] roots[i]).dependencies) && are_called(
            nodes,
            called,
            roots[i].dev_dependencies,
        ) && are_called(nodes, called, roots[i].optional_dependencies)
}

/// What a package has under `alias` by way of its own dependencies.
pub open spec fn own_dependency(node: NodeView, alias: Text) -> Option<Text> {
    if node.peers.contains_key(alias) {
        None
    } else if node.optional_deps.contains_key(alias) {
        Some(node.optional_deps[alias])
    } else if node.deps.contains_key(alias) {
        Some(node.deps[alias])
    } else {
        None
    }
}

/// Where an instance of `node` leads under `alias`.
pub open spec fn instance_under(node: NodeView, data: InstanceDataView, alias: Text) -> Option<Text> {
    if node.optional_deps.contains_key(alias) {
        if data.optional_deps.contains_key(alias) {
            Some(data.optional_deps[alias])
        } else {
            None
        }
    } else if data.deps.contains_key(alias) {
        Some(data.deps[alias])
    } else {
        None
    }
}

/// A package with a peer, and the version of it that an importer has, or that `parent` has, which depends
/// on the package as `alias`.
struct Seat {
    nodes: Map<Text, NodeView>,
    called: Map<Text, Text>,
    package: Text,
    peer: Text,
    version: Text,
    parent: Text,
    alias: Text,
}

impl Seat {
    /// The peer is required, and the version is what stands in for it where nothing provides it.
    spec fn falls_back(self) -> bool {
        !self.nodes[self.package].peers[self.peer] && fallbacks_of(self.nodes).contains_key(self.peer) && fallbacks_of(self.nodes)[self.peer] == self.version
    }

    spec fn is_fair(self) -> bool {
        let node = self.nodes[self.package];
        &&& is_closed(self.nodes)
        &&& is_finite(self.nodes)
        &&& keys_are_plain(self.nodes)
        &&& have_one_name(self.nodes, Seq::empty(), self.called)
        &&& self.nodes.contains_key(self.package)
        &&& self.nodes.contains_key(self.version)
        &&& node.peers.contains_key(self.peer)
        &&& forall|key: Text| (#[trigger] closure_of(self.nodes, key)).finite()
        &&& self.falls_back() ==> node.auto_peers.contains_key(self.peer) && node.auto_peers[self.peer] == self.version
            && !node.optional_deps.contains_key(self.peer)
    }

    /// `id` is that of a package that is called `name`.
    spec fn is_called(self, id: Text, name: Text) -> bool {
        is_balanced(id) && exists|key: Text|
            self.nodes.contains_key(key) && #[trigger] is_id_of(id, key) && self.called[key] == name
    }

    /// The peer of an instance is the version.
    spec fn is_seated(self, data: InstanceDataView) -> bool {
        data.deps.contains_key(self.peer) && is_id_of(data.deps[self.peer], self.version)
    }

    /// `id` names the peers `externals` by what they were resolved to, and the instance has the version if
    /// that is among them or stands in for the peer.
    spec fn is_made(self, id: Text, data: InstanceDataView, externals: Set<Text>, visible: Map<Text, Text>) -> bool {
        &&& externals.finite()
        &&& id == data.key + suffix(sorted(externals), visible)
        &&& forall|name: Text| #[trigger] externals.contains(name) ==> self.is_called(visible[name], name)
        &&& externals.contains(self.peer) && is_id_of(visible[self.peer], self.version) ==> self.is_seated(data)
        &&& !externals.contains(self.peer) && self.falls_back() ==> self.is_seated(data)
    }

    /// The parent depends on the package, and has the version under the peer's name.
    spec fn is_nested(self) -> bool {
        &&& self.nodes.contains_key(self.parent)
        &&& own_dependency(self.nodes[self.parent], self.alias) == Some(self.package)
        &&& own_dependency(self.nodes[self.parent], self.peer) == Some(self.version)
    }

    /// `id` is an instance of the package that has the version, or stands for one that is still being made.
    spec fn is_fine(self, stage: Stage, id: Text) -> bool {
        id == self.package || (stage.instances.contains_key(id) && self.is_seated(stage.instances[id]))
    }

    /// Where an instance of the parent leads under the alias is fine.
    spec fn is_fine_below(self, stage: Stage, data: InstanceDataView) -> bool {
        instance_under(self.nodes[self.parent], data, self.alias) matches Some(id) && self.is_fine(stage, id)
    }

    spec fn are_fine_below(self, stage: Stage) -> bool {
        self.is_nested() && stage.frames.len() <= usize::MAX ==> forall|id: Text| #[trigger]
            stage.instances.contains_key(id) && stage.instances[id].key == self.parent ==> self.is_fine_below(
                stage,
                stage.instances[id],
            )
    }

    proof fn fine_stay(self, before: Stage, after: Stage)
        requires
            self.are_fine_below(before),
            after.instances == before.instances,
            after.frames.len() >= before.frames.len(),
        ensures
            self.are_fine_below(after),
    {
        if self.is_nested() && after.frames.len() <= usize::MAX {
            assert forall|id: Text| #[trigger]
                after.instances.contains_key(id) && after.instances[id].key == self.parent implies self.is_fine_below(
                after,
                after.instances[id],
            ) by {
                assert(before.instances.contains_key(id));
                assert(self.is_fine_below(before, before.instances[id]));
            }
        }
    }

    /// The peer was resolved to the version in `choices`.
    spec fn is_chosen(self, choices: Seq<Option<Text>>) -> bool {
        let names = sorted(closure_of(self.nodes, self.package));
        exists|i: int|
            0 <= i < names.len() && #[trigger] names[i] == self.peer && (choices[i] matches Some(id) && is_id_of(
                id,
                self.version,
            ))
    }

    spec fn holds(self, stage: Stage) -> bool {
        &&& stage.is_referential(self.nodes)
        &&& self.are_fine_below(stage)
        &&& forall|i: int|
            0 <= i < stage.frames.len() ==> are_called(self.nodes, self.called, (#[trigger] stage.frames[i]).names)
        &&& forall|id: Text| #[trigger]
            stage.instances.contains_key(id) && stage.instances[id].key == self.package ==> exists|
                externals: Set<Text>,
                visible: Map<Text, Text>,
            | #[trigger] self.is_made(id, stage.instances[id], externals, visible)
        &&& forall|m: MemoKeyView| #[trigger]
            stage.memo.contains_key(m) ==> {
                let id = stage.memo[m].id;
                &&& is_balanced(id)
                &&& m.0 == self.package && self.is_chosen(m.1) ==> self.is_seated(stage.instances[id])
            }
    }

    /// The peers that were resolved are called by their names, and those that fell back are what stands in
    /// for them.
    spec fn are_seen(self, peers: Peers) -> bool {
        &&& peers.visible.dom().finite()
        &&& peers.fell_back.subset_of(peers.visible.dom())
        &&& forall|name: Text| #[trigger]
            peers.visible.contains_key(name) ==> self.is_called(peers.visible[name], name)
        &&& forall|name: Text| #[trigger]
            peers.fell_back.contains(name) ==> fallbacks_of(self.nodes).contains_key(name) && is_id_of(
                peers.visible[name],
                fallbacks_of(self.nodes)[name],
            )
    }

    proof fn has_one_name(self, id: Text, a: Text, b: Text)
        requires
            self.is_fair(),
            self.is_called(id, a),
            self.is_called(id, b),
        ensures
            a == b,
    {
        let k = choose|key: Text|
            self.nodes.contains_key(key) && #[trigger] is_id_of(id, key) && self.called[key] == a;
        let l = choose|key: Text|
            self.nodes.contains_key(key) && #[trigger] is_id_of(id, key) && self.called[key] == b;
        id_has_one_key(id, k, l);
    }

    /// The peers that an id names can be read from it.
    proof fn id_names_externals(
        self,
        key: Text,
        a: Set<Text>,
        v: Map<Text, Text>,
        b: Set<Text>,
        w: Map<Text, Text>,
    )
        requires
            self.is_fair(),
            a.finite(),
            b.finite(),
            forall|name: Text| #[trigger] a.contains(name) ==> self.is_called(v[name], name),
            forall|name: Text| #[trigger] b.contains(name) ==> self.is_called(w[name], name),
            key + suffix(sorted(a), v) == key + suffix(sorted(b), w),
        ensures
            a == b,
            forall|name: Text| #[trigger] a.contains(name) ==> v[name] == w[name],
    {
        let (m, n) = (sorted(a), sorted(b));
        sorted_properties(a);
        sorted_properties(b);
        let (s, t) = (suffix(m, v), suffix(n, w));
        assert(s =~= (key + s).skip(key.len() as int));
        assert(t =~= (key + t).skip(key.len() as int));
        assert forall|i: int| 0 <= i < m.len() implies is_balanced(v[#[trigger] m[i]]) by {
            assert(m.contains(m[i]));
            assert(self.is_called(v[m[i]], m[i]));
        }
        assert forall|i: int| 0 <= i < n.len() implies is_balanced(w[#[trigger] n[i]]) by {
            assert(n.contains(n[i]));
            assert(self.is_called(w[n[i]], n[i]));
        }
        suffixes_name_same(m, v, n, w);
        assert forall|i: int| 0 <= i < m.len() implies #[trigger] m[i] == n[i] by {
            assert(m.contains(m[i]) && n.contains(n[i]));
            assert(v[m[i]] == w[n[i]]);
            self.has_one_name(v[m[i]], m[i], n[i]);
        }
        assert(m =~= n);
        assert forall|name: Text| #[trigger] a.contains(name) implies b.contains(name) && v[name] == w[name] by {
            assert(m.contains(name));
            let i = m.index_of(name);
            assert(v[m[i]] == w[n[i]]);
            assert(n.contains(name));
        }
        assert forall|name: Text| #[trigger] b.contains(name) implies a.contains(name) by {
            assert(n.contains(name));
            assert(m.contains(name));
        }
        assert(a =~= b);
    }

    proof fn children_are_called(self, node: NodeView, peers: Peers)
        requires
            are_called(self.nodes, self.called, node.deps),
            are_called(self.nodes, self.called, node.optional_deps),
            are_called(self.nodes, self.called, node.auto_peers),
        ensures
            are_called(self.nodes, self.called, peers.children(node)),
    {
        let children = peers.children(node);
        assert forall|name: Text| #[trigger] children.contains_key(name) && is_peer_name(
            self.nodes,
            name,
        ) implies self.called[children[name]] == name by {
            if peers.automatic(node).contains_key(name) {
                assert(node.auto_peers.contains_key(name));
            } else if node.optional_deps.contains_key(name) {
            } else {
                assert(node.deps.contains_key(name));
            }
        }
    }

    proof fn lookup_is_called(self, frames: Seq<FrameView>, frame: usize, name: Text)
        requires
            is_peer_name(self.nodes, name),
            forall|i: int|
                0 <= i < frames.len() ==> are_called(self.nodes, self.called, (#[trigger] frames[i]).names),
        ensures
            lookup(frames, frame, name) matches Some((key, _)) ==> self.called[key] == name,
        decreases frame,
    {
        if frame < frames.len() {
            assert(are_called(self.nodes, self.called, frames[frame as int].names));
            if !frames[frame as int].names.contains_key(name) {
                if let Some(parent) = frames[frame as int].parent {
                    if parent < frame {
                        self.lookup_is_called(frames, parent, name);
                    }
                }
            }
        }
    }

    /// What stands in for a peer is called by its name.
    proof fn fallback_is_called(self, name: Text)
        requires
            self.is_fair(),
            fallbacks_of(self.nodes).contains_key(name),
        ensures
            self.nodes.contains_key(fallbacks_of(self.nodes)[name]),
            self.called[fallbacks_of(self.nodes)[name]] == name,
    {
        let best = fallbacks_of(self.nodes)[name];
        let found = choose|k: Text| is_best_version(self.nodes, self.nodes.dom(), name, k);
        assert(is_version_of(self.nodes, self.nodes.dom(), name, found));
        assert(is_version_of(self.nodes, self.nodes.dom(), name, best));
    }
}

/// `after` has all frames of `before`, and is at the same importer.
spec fn goes_on(before: Stage, after: Stage) -> bool {
    &&& after.root_frame == before.root_frame
    &&& after.frames.len() >= before.frames.len()
    &&& forall|i: int| 0 <= i < before.frames.len() ==> #[trigger] after.frames[i] == before.frames[i]
}

proof fn closure_names_are_peers(nodes: Map<Text, NodeView>, key: Text, name: Text)
    requires
        closure_of(nodes, key).contains(name),
    ensures
        is_peer_name(nodes, name),
{
    let path = choose|path: Seq<Text>| path.len() > 0 && path[0] == key && is_peer_path(nodes, path, name);
    assert(nodes.contains_key(path[path.len() - 1]));
}

impl Seat {
    proof fn instantiate_holds(self, stage: Stage, key: Text, frame: usize, fuel: nat)
        requires
            self.is_fair(),
            self.holds(stage),
            self.nodes.contains_key(key),
        ensures
            stage.instantiate(self.nodes, key, frame, fuel) matches Some((after, instance)) ==> {
                &&& self.holds(after)
                &&& after.grew_from(stage)
                &&& goes_on(stage, after)
                &&& is_balanced(instance.id)
                &&& is_id_of(instance.id, key)
                &&& key == self.package && self.is_visible(stage, frame) ==> self.is_fine(after, instance.id)
            },
        decreases fuel, 0nat, 0nat,
    {
        stage.instantiate_refers(self.nodes, key, frame, fuel);
        plain_is_balanced(key);
        if !stage.visiting.contains((key, frame)) && fuel > 0 {
            let inside = Stage { visiting: stage.visiting.insert((key, frame)), ..stage };
            self.visiting_holds(stage, key, frame);
            self.uncached_holds(inside, key, frame, (fuel - 1) as nat);
            if let Some((made, instance)) = inside.instantiate_uncached(self.nodes, key, frame, (fuel - 1) as nat) {
                let after = Stage { visiting: made.visiting.remove((key, frame)), ..made };
                self.fine_stay(made, after);
            }
        }
    }

    /// The frame has the version under the peer's name.
    spec fn is_visible(self, stage: Stage, frame: usize) -> bool {
        &&& frame < stage.frames.len()
        &&& stage.frames[frame as int].names.contains_key(self.peer)
        &&& stage.frames[frame as int].names[self.peer] == self.version
    }

    proof fn visiting_holds(self, stage: Stage, key: Text, frame: usize)
        requires
            self.is_fair(),
            self.holds(stage),
        ensures
            self.holds(Stage { visiting: stage.visiting.insert((key, frame)), ..stage }),
    {
        let inside = Stage { visiting: stage.visiting.insert((key, frame)), ..stage };
        self.fine_stay(stage, inside);
        assert(inside.is_referential(self.nodes)) by {
            assert forall|k: Text| #[trigger] stage.visited(k) implies inside.is_reference(k) by {
                let f = choose|f: usize| #[trigger] stage.visiting.contains((k, f));
                assert(inside.visiting.contains((k, f)));
                assert(inside.visited(k));
            }
            assert forall|k: Text| #[trigger] stage.in_hand(k) implies inside.is_reference(k) by {
                let c = choose|c: Seq<Option<Text>>| #[trigger] stage.in_progress.contains((k, c));
                assert(inside.in_progress.contains((k, c)));
                assert(inside.in_hand(k));
            }
            assert forall|id: Text| #[trigger] inside.instances.contains_key(id) implies inside.all_references(
                inside.instances[id].deps,
            ) && inside.all_references(inside.instances[id].optional_deps) by {
                assert(stage.instances.contains_key(id));
                inside.references_stay(stage, stage.instances[id].deps);
                inside.references_stay(stage, stage.instances[id].optional_deps);
            }
            assert forall|m: MemoKeyView| #[trigger] inside.memo.contains_key(m) implies inside.has(m.0) by {
                assert(stage.memo.contains_key(m));
                let i = choose|i: Text| #[trigger] stage.instances.contains_key(i) && stage.instances[i].key == m.0;
                assert(inside.instances.contains_key(i));
            }
        }
        assert forall|id: Text| #[trigger]
            inside.instances.contains_key(id) && inside.instances[id].key == self.package implies exists|
            externals: Set<Text>,
            visible: Map<Text, Text>,
        | #[trigger] self.is_made(id, inside.instances[id], externals, visible) by {
            assert(stage.instances.contains_key(id));
        }
        assert forall|m: MemoKeyView| #[trigger] inside.memo.contains_key(m) implies {
            let id = inside.memo[m].id;
            &&& is_balanced(id)
            &&& m.0 == self.package && self.is_chosen(m.1) ==> self.is_seated(inside.instances[id])
        } by {
            assert(stage.memo.contains_key(m));
        }
    }

    proof fn see_peers_holds(
        self,
        stage: Stage,
        key: Text,
        frame: usize,
        names: Seq<Text>,
        peers: Peers,
        fuel: nat,
    )
        requires
            self.is_fair(),
            self.holds(stage),
            self.are_seen(peers),
            names.no_duplicates(),
            forall|i: int|
                0 <= i < names.len() ==> is_peer_name(self.nodes, #[trigger] names[i]) && !peers.visible.contains_key(
                    names[i],
                ),
        ensures
            stage.see_peers(self.nodes, key, frame, names, peers, fuel) matches Some((after, seen)) ==> {
                &&& self.holds(after)
                &&& after.grew_from(stage)
                &&& goes_on(stage, after)
                &&& self.are_seen(seen)
                &&& forall|name: Text| #[trigger]
                    peers.visible.contains_key(name) ==> seen.visible.contains_key(name) && seen.visible[name]
                        == peers.visible[name] && seen.fell_back.contains(name) == peers.fell_back.contains(name)
                &&& forall|i: int|
                    0 <= i < names.len() && frame < stage.frames.len()
                        && stage.frames[frame as int].names.contains_key(#[trigger] names[i]) ==> {
                        &&& seen.visible.contains_key(names[i])
                        &&& is_id_of(seen.visible[names[i]], stage.frames[frame as int].names[names[i]])
                        &&& !seen.fell_back.contains(names[i])
                    }
            },
        decreases fuel, 1nat, names.len(),
    {
        if names.len() > 0 {
            let name = names[0];
            let rest = names.skip(1);
            assert forall|i: int| 0 <= i < rest.len() implies is_peer_name(self.nodes, #[trigger] rest[i])
                && !peers.visible.contains_key(rest[i]) && rest[i] != name by {
                assert(rest[i] == names[i + 1]);
            }
            assert(is_peer_name(self.nodes, names[0]));
            match stage.source(self.nodes, key, frame, name) {
                None => {
                    self.see_peers_holds(stage, key, frame, rest, peers, fuel);
                    if let Some((after, seen)) = stage.see_peers(self.nodes, key, frame, rest, peers, fuel) {
                        assert forall|i: int|
                            0 <= i < names.len() && frame < stage.frames.len()
                                && stage.frames[frame as int].names.contains_key(#[trigger] names[i]) implies {
                            &&& seen.visible.contains_key(names[i])
                            &&& is_id_of(seen.visible[names[i]], stage.frames[frame as int].names[names[i]])
                            &&& !seen.fell_back.contains(names[i])
                        } by {
                            if i > 0 {
                                assert(rest[i - 1] == names[i]);
                            }
                        }
                    }
                },
                Some((found, at, fell_back)) => {
                    lookup_finds_node(stage.frames, self.nodes, frame, name);
                    self.lookup_is_called(stage.frames, frame, name);
                    if fell_back {
                        self.fallback_is_called(name);
                    }
                    self.instantiate_holds(stage, found, at, fuel);
                    if let Some((next, instance)) = stage.instantiate(self.nodes, found, at, fuel) {
                        let more = peers.with(name, instance.id, fell_back);
                        assert(self.is_called(instance.id, name));
                        assert(self.are_seen(more)) by {
                            assert(more.visible.dom() =~= peers.visible.dom().insert(name));
                            assert forall|n: Text| #[trigger] more.visible.contains_key(n) implies self.is_called(
                                more.visible[n],
                                n,
                            ) by {
                                if n != name {
                                    assert(peers.visible.contains_key(n));
                                }
                            }
                            assert forall|n: Text| #[trigger] more.fell_back.contains(n) implies fallbacks_of(
                                self.nodes,
                            ).contains_key(n) && is_id_of(more.visible[n], fallbacks_of(self.nodes)[n]) by {
                                if peers.fell_back.contains(n) {
                                    assert(peers.visible.dom().contains(n));
                                    assert(n != name);
                                }
                            }
                        }
                        self.see_peers_holds(next, key, frame, rest, more, fuel);
                        if let Some((after, seen)) = next.see_peers(self.nodes, key, frame, rest, more, fuel) {
                            assert(after.grew_from(stage));
                            assert(goes_on(stage, after)) by {
                                assert forall|i: int| 0 <= i < stage.frames.len() implies #[trigger] after.frames[i]
                                    == stage.frames[i] by {
                                    assert(next.frames[i] == stage.frames[i]);
                                }
                            }
                            assert forall|n: Text| #[trigger] peers.visible.contains_key(
                                n,
                            ) implies seen.visible.contains_key(n) && seen.visible[n] == peers.visible[n]
                                && seen.fell_back.contains(n) == peers.fell_back.contains(n) by {
                                assert(n != name);
                                assert(more.visible.contains_key(n));
                            }
                            assert forall|i: int|
                                0 <= i < names.len() && frame < stage.frames.len()
                                    && stage.frames[frame as int].names.contains_key(#[trigger] names[i]) implies {
                                &&& seen.visible.contains_key(names[i])
                                &&& is_id_of(seen.visible[names[i]], stage.frames[frame as int].names[names[i]])
                                &&& !seen.fell_back.contains(names[i])
                            } by {
                                if i > 0 {
                                    assert(rest[i - 1] == names[i]);
                                    assert(next.frames[frame as int] == stage.frames[frame as int]);
                                } else {
                                    assert(more.visible.contains_key(name));
                                    assert(!peers.fell_back.contains(name)) by {
                                        if peers.fell_back.contains(name) {
                                            assert(peers.visible.dom().contains(name));
                                        }
                                    }
                                }
                            }
                        }
                    }
                },
            }
        }
    }

    /// What is taken from outside was resolved there, and is provided by no child unless it is a peer of
    /// the package itself.
    spec fn are_outside(self, node: NodeView, peers: Peers, externals: Set<Text>) -> bool {
        &&& peers.resolved(node).subset_of(externals)
        &&& forall|name: Text| #[trigger]
            externals.contains(name) ==> peers.visible.contains_key(name) && (peers.resolved(node).contains(name)
                || !peers.children(node).contains_key(name))
    }

    /// What is linked under the alias so far is fine.
    spec fn is_linked_below(self, stage: Stage, links: Links) -> bool {
        if self.nodes[self.parent].optional_deps.contains_key(self.alias) {
            links.optional_deps.contains_key(self.alias) && self.is_fine(stage, links.optional_deps[self.alias])
        } else {
            links.deps.contains_key(self.alias) && self.is_fine(stage, links.deps[self.alias])
        }
    }

    proof fn link_children_holds(
        self,
        stage: Stage,
        node: NodeView,
        peers: Peers,
        aliases: Seq<Text>,
        frame: usize,
        links: Links,
        nested: bool,
        fuel: nat,
    )
        requires
            self.is_fair(),
            self.holds(stage),
            self.are_outside(node, peers, links.externals),
            nested ==> {
                &&& self.is_nested()
                &&& node == self.nodes[self.parent]
                &&& self.is_visible(stage, frame)
                &&& aliases.contains(self.alias) || self.is_linked_below(stage, links)
                &&& peers.children(node)[self.alias] == self.package
            },
            forall|i: int| 0 <= i < aliases.len() ==> self.nodes.contains_key(peers.children(node)[#[trigger] aliases[i]]),
        ensures
            stage.link_children(self.nodes, node, peers, aliases, frame, links, fuel) matches Some((after, made)) ==> {
                &&& self.holds(after)
                &&& after.grew_from(stage)
                &&& goes_on(stage, after)
                &&& self.are_outside(node, peers, made.externals)
                &&& nested ==> self.is_linked_below(after, made)
            },
        decreases fuel, 1nat, aliases.len(),
    {
        let children = peers.children(node);
        if aliases.len() > 0 {
            let rest = aliases.skip(1);
            assert(self.nodes.contains_key(children[aliases[0]]));
            self.instantiate_holds(stage, children[aliases[0]], frame, fuel);
            if let Some((next, instance)) = stage.instantiate(self.nodes, children[aliases[0]], frame, fuel) {
                let more = links.with(node, children, peers.visible, aliases[0], instance);
                assert forall|i: int| 0 <= i < rest.len() implies self.nodes.contains_key(
                    children[#[trigger] rest[i]],
                ) by {
                    assert(rest[i] == aliases[i + 1]);
                }
                if nested {
                    assert(next.frames[frame as int] == stage.frames[frame as int]);
                    if aliases[0] != self.alias {
                        if aliases.contains(self.alias) {
                            let i = aliases.index_of(self.alias);
                            assert(rest[i - 1] == self.alias);
                        } else {
                            assert(self.is_linked_below(next, links));
                        }
                    } else {
                        assert(self.is_linked_below(next, more));
                    }
                }
                self.link_children_holds(next, node, peers, rest, frame, more, nested, fuel);
                if let Some((after, made)) = next.link_children(self.nodes, node, peers, rest, frame, more, fuel) {
                    assert(after.grew_from(stage));
                    assert forall|i: int| 0 <= i < stage.frames.len() implies #[trigger] after.frames[i]
                        == stage.frames[i] by {
                        assert(next.frames[i] == stage.frames[i]);
                    }
                }
            }
        }
    }

    proof fn entered_holds(self, stage: Stage, memo_key: MemoKeyView, children: Map<Text, Text>, frame: usize)
        requires
            self.is_fair(),
            self.holds(stage),
            leads_into(children, self.nodes),
            are_called(self.nodes, self.called, children),
        ensures
            self.holds(stage.entered(memo_key, children, frame)),
            goes_on(stage, stage.entered(memo_key, children, frame)),
    {
        let entered = stage.entered(memo_key, children, frame);
        self.fine_stay(stage, entered);
        stage.entered_refers(self.nodes, memo_key, children, frame);
        assert forall|i: int| 0 <= i < entered.frames.len() implies are_called(
            self.nodes,
            self.called,
            (#[trigger] entered.frames[i]).names,
        ) by {
            if i < stage.frames.len() {
                assert(entered.frames[i] == stage.frames[i]);
            }
        }
        assert forall|id: Text| #[trigger]
            entered.instances.contains_key(id) && entered.instances[id].key == self.package implies exists|
            externals: Set<Text>,
            visible: Map<Text, Text>,
        | #[trigger] self.is_made(id, entered.instances[id], externals, visible) by {
            assert(stage.instances.contains_key(id));
        }
        assert forall|m: MemoKeyView| #[trigger] entered.memo.contains_key(m) implies {
            let id = entered.memo[m].id;
            &&& is_balanced(id)
            &&& m.0 == self.package && self.is_chosen(m.1) ==> self.is_seated(entered.instances[id])
        } by {
            assert(stage.memo.contains_key(m));
        }
    }

    /// A new instance of the package has the version where it should.
    proof fn new_is_made(self, peers: Peers, links: Links)
        requires
            self.is_fair(),
            self.are_seen(peers),
            self.are_outside(self.nodes[self.package], peers, links.externals),
            links_stand(
                links,
                self.nodes[self.package],
                peers.children(self.nodes[self.package]),
                peers.children(self.nodes[self.package]).dom(),
            ),
        ensures
            ({
                let node = self.nodes[self.package];
                let data = InstanceDataView {
                    key: self.package,
                    deps: links.deps.union_prefer_right(peers.visible.restrict(peers.resolved(node))),
                    optional_deps: links.optional_deps,
                };
                self.is_made(
                    self.package + suffix(sorted(links.externals), peers.visible),
                    data,
                    links.externals,
                    peers.visible,
                )
            }),
            peers.visible.contains_key(self.peer) && is_id_of(peers.visible[self.peer], self.version)
                && !links.externals.contains(self.peer) ==> self.falls_back(),
    {
        let node = self.nodes[self.package];
        let externals = links.externals;
        let children = peers.children(node);
        let data = InstanceDataView {
            key: self.package,
            deps: links.deps.union_prefer_right(peers.visible.restrict(peers.resolved(node))),
            optional_deps: links.optional_deps,
        };
        assert(externals.subset_of(peers.visible.dom()));
        vstd::set_lib::lemma_len_subset(externals, peers.visible.dom());
        let is_resolved = peers.resolved(node).contains(self.peer);
        assert(is_resolved == peers.is_resolved(self.peer, node.peers[self.peer]));
        if peers.visible.contains_key(self.peer) && is_id_of(peers.visible[self.peer], self.version) && !is_resolved {
            assert(peers.fell_back.contains(self.peer));
            let best = fallbacks_of(self.nodes)[self.peer];
            self.fallback_is_called(self.peer);
            id_has_one_key(peers.visible[self.peer], self.version, best);
            assert(self.falls_back());
        }
        if self.falls_back() && !is_resolved {
            assert(peers.automatic(node).contains_key(self.peer));
            assert(children.dom().contains(self.peer));
            assert(children[self.peer] == self.version);
            assert(links.deps.contains_key(self.peer) && is_id_of(links.deps[self.peer], self.version));
            assert(!externals.contains(self.peer));
            assert(self.is_seated(data));
        }
        if is_resolved && is_id_of(peers.visible[self.peer], self.version) {
            assert(peers.visible.restrict(peers.resolved(node)).contains_key(self.peer));
            assert(self.is_seated(data));
        }
    }

    proof fn left_holds(self, linked: Stage, seen: Stage, memo_key: MemoKeyView, peers: Peers, links: Links)
        requires
            self.is_fair(),
            self.holds(linked),
            self.are_seen(peers),
            self.nodes.contains_key(memo_key.0),
            memo_key.1 == peers.choices(sorted(closure_of(self.nodes, memo_key.0))),
            self.are_outside(self.nodes[memo_key.0], peers, links.externals),
            links_stand(
                links,
                self.nodes[memo_key.0],
                peers.children(self.nodes[memo_key.0]),
                peers.children(self.nodes[memo_key.0]).dom(),
            ),
            linked.left(memo_key, peers, self.nodes[memo_key.0], links).0.is_referential(self.nodes),
            memo_key.0 == self.parent && self.is_nested() && linked.frames.len() <= usize::MAX ==> self.is_linked_below(
                linked,
                links,
            ),
        ensures
            ({
                let (left, instance) = linked.left(memo_key, peers, self.nodes[memo_key.0], links);
                &&& self.holds(left)
                &&& is_balanced(instance.id)
                &&& memo_key.0 == self.package && self.is_chosen(memo_key.1) ==> left.instances.contains_key(
                    instance.id,
                ) && self.is_seated(left.instances[instance.id])
            }),
    {
        let key = memo_key.0;
        let node = self.nodes[key];
        let (left, instance) = linked.left(memo_key, peers, node, links);
        let externals = links.externals;
        let order = sorted(externals);
        let id = key + suffix(order, peers.visible);
        assert(externals.subset_of(peers.visible.dom()));
        vstd::set_lib::lemma_len_subset(externals, peers.visible.dom());
        sorted_properties(externals);
        assert forall|i: int| 0 <= i < order.len() implies is_balanced(peers.visible[#[trigger] order[i]]) by {
            assert(order.contains(order[i]));
            assert(self.is_called(peers.visible[order[i]], order[i]));
        }
        suffix_is_balanced(order, peers.visible);
        plain_is_balanced(key);
        balanced_adds_up(key, suffix(order, peers.visible));
        suffix_is_bracketed(order, peers.visible);
        assert(is_id_of(id, key)) by {
            assert(key + suffix(order, peers.visible) == id);
        }
        if linked.instances.contains_key(id) {
            id_has_one_key(id, key, linked.instances[id].key);
        }
        if key == self.package {
            self.new_is_made(peers, links);
            if linked.instances.contains_key(id) {
                let (a, v) = choose|a: Set<Text>, v: Map<Text, Text>| #[trigger]
                    self.is_made(id, linked.instances[id], a, v);
                self.id_names_externals(key, a, v, externals, peers.visible);
            }
            if self.is_chosen(memo_key.1) {
                let names = sorted(closure_of(self.nodes, key));
                let i = choose|i: int|
                    0 <= i < names.len() && #[trigger] names[i] == self.peer && (memo_key.1[i] matches Some(x)
                        && is_id_of(x, self.version));
                assert(peers.visible.contains_key(self.peer) && is_id_of(peers.visible[self.peer], self.version));
                assert(self.is_seated(left.instances[id]));
            }
        }
        if self.is_nested() && left.frames.len() <= usize::MAX {
            assert forall|i: Text| #[trigger]
                left.instances.contains_key(i) && left.instances[i].key == self.parent implies self.is_fine_below(
                left,
                left.instances[i],
            ) by {
                if linked.instances.contains_key(i) {
                    assert(self.is_fine_below(linked, linked.instances[i]));
                } else {
                    assert(i == id);
                    assert(!peers.resolved(node).contains(self.alias));
                }
            }
        }
        assert forall|i: Text| #[trigger]
            left.instances.contains_key(i) && left.instances[i].key == self.package implies exists|
            a: Set<Text>,
            v: Map<Text, Text>,
        | #[trigger] self.is_made(i, left.instances[i], a, v) by {
            if linked.instances.contains_key(i) {
            } else {
                assert(i == id);
                assert(self.is_made(id, left.instances[id], externals, peers.visible));
            }
        }
        assert forall|m: MemoKeyView| #[trigger] left.memo.contains_key(m) implies {
            let made = left.memo[m].id;
            &&& is_balanced(made)
            &&& m.0 == self.package && self.is_chosen(m.1) ==> self.is_seated(left.instances[made])
        } by {
            if m != memo_key {
                assert(linked.memo.contains_key(m));
            }
        }
    }

    proof fn uncached_holds(self, stage: Stage, key: Text, frame: usize, fuel: nat)
        requires
            self.is_fair(),
            self.holds(stage),
            self.nodes.contains_key(key),
        ensures
            stage.instantiate_uncached(self.nodes, key, frame, fuel) matches Some((after, instance)) ==> {
                &&& self.holds(after)
                &&& after.grew_from(stage)
                &&& goes_on(stage, after)
                &&& is_balanced(instance.id)
                &&& is_id_of(instance.id, key)
                &&& key == self.package && frame < stage.frames.len() && stage.frames[frame as int].names.contains_key(
                    self.peer,
                ) && stage.frames[frame as int].names[self.peer] == self.version && stage.in_progress == Set::<
                    MemoKeyView,
                >::empty() ==> after.instances.contains_key(instance.id) && self.is_seated(
                    after.instances[instance.id],
                )
                &&& key == self.package && self.is_visible(stage, frame) ==> self.is_fine(after, instance.id)
            },
        decreases fuel, 2nat, 0nat,
    {
        let nodes = self.nodes;
        stage.uncached_refers(nodes, key, frame, fuel);
        plain_is_balanced(key);
        key_is_own_id(key);
        let closure = closure_of(nodes, key);
        let names = sorted(closure);
        sorted_properties(closure);
        let none = Peers::none();
        assert forall|i: int| 0 <= i < names.len() implies is_peer_name(nodes, #[trigger] names[i])
            && !none.visible.contains_key(names[i]) by {
            assert(names.contains(names[i]));
            closure_names_are_peers(nodes, key, names[i]);
        }
        self.see_peers_holds(stage, key, frame, names, none, fuel);
        stage.see_peers_refers(nodes, key, frame, names, none, fuel);
        if let Some((seen, peers)) = stage.see_peers(nodes, key, frame, names, none, fuel) {
            let memo_key = (key, peers.choices(names));
            let node = nodes[key];
            let wanted = key == self.package && frame < stage.frames.len()
                && stage.frames[frame as int].names.contains_key(self.peer)
                && stage.frames[frame as int].names[self.peer] == self.version;
            if wanted {
                self.own_peer_is_chosen(stage, frame, names, peers);
            }
            if seen.memo.contains_key(memo_key) {
            } else if seen.in_progress.contains(memo_key) {
            } else {
                let children = peers.children(node);
                let entered = seen.entered(memo_key, children, frame);
                let order = sorted(children.dom());
                let at = seen.frames.len() as usize;
                let first = Links { externals: peers.resolved(node), deps: Map::empty(), optional_deps: Map::empty() };
                child_is_node(nodes, node, peers);
                children_finite(node, peers);
                sorted_properties(children.dom());
                self.children_are_called(node, peers);
                assert forall|i: int| 0 <= i < order.len() implies nodes.contains_key(children[#[trigger] order[i]]) by {
                    assert(order.contains(order[i]));
                    assert(children.contains_key(order[i]));
                }
                self.entered_holds(seen, memo_key, children, frame);
                seen.entered_refers(nodes, memo_key, children, frame);
                entered.link_children_refers(nodes, node, peers, order, at, first, Set::empty(), fuel);
                let nested = key == self.parent && self.is_nested() && seen.frames.len() <= usize::MAX;
                if nested {
                    assert(order.contains(self.alias)) by {
                        assert(children.dom().contains(self.alias));
                    }
                    assert(entered.frames[at as int].names == children);
                }
                self.link_children_holds(entered, node, peers, order, at, first, nested, fuel);
                if let Some((linked, links)) = entered.link_children(nodes, node, peers, order, at, first, fuel) {
                    assert(Set::<Text>::empty().union(order.to_set()) =~= children.dom());
                    linked.grown_references(entered);
                    assert(linked.all_references(peers.visible));
                    linked.left_refers(nodes, seen, memo_key, peers, node, links);
                    self.left_holds(linked, seen, memo_key, peers, links);
                    let (after, instance) = linked.left(memo_key, peers, node, links);
                    assert forall|i: int| 0 <= i < stage.frames.len() implies #[trigger] after.frames[i]
                        == stage.frames[i] by {
                        assert(seen.frames[i] == stage.frames[i]);
                        assert(entered.frames[i] == seen.frames[i]);
                        assert(linked.frames[i] == entered.frames[i]);
                    }
                }
            }
        }
    }

    /// Where the importer has the peer, that is what it is resolved to.
    proof fn own_peer_is_chosen(self, stage: Stage, frame: usize, names: Seq<Text>, peers: Peers)
        requires
            self.is_fair(),
            names == sorted(closure_of(self.nodes, self.package)),
            frame < stage.frames.len(),
            stage.frames[frame as int].names.contains_key(self.peer),
            stage.frames[frame as int].names[self.peer] == self.version,
            forall|i: int|
                0 <= i < names.len() && stage.frames[frame as int].names.contains_key(#[trigger] names[i]) ==> {
                    &&& peers.visible.contains_key(names[i])
                    &&& is_id_of(peers.visible[names[i]], stage.frames[frame as int].names[names[i]])
                },
        ensures
            self.is_chosen(peers.choices(names)),
    {
        let closure = closure_of(self.nodes, self.package);
        sorted_properties(closure);
        let path = seq![self.package];
        assert(is_peer_path(self.nodes, path, self.peer));
        assert(path[0] == self.package);
        assert(closure.contains(self.peer));
        assert(names.contains(self.peer));
        let i = names.index_of(self.peer);
        assert(names[i] == self.peer);
        assert(peers.choices(names)[i] == Some(peers.visible[self.peer]));
    }
}

impl Seat {
    /// The importer at hand has the version under the peer's name.
    spec fn is_offered(self, stage: Stage) -> bool {
        &&& stage.root_frame < stage.frames.len()
        &&& stage.frames[stage.root_frame as int].names.contains_key(self.peer)
        &&& stage.frames[stage.root_frame as int].names[self.peer] == self.version
    }

    /// Whatever of `deps` leads to the package has an instance in `ids` that has the version.
    spec fn are_seated(self, stage: Stage, deps: Map<Text, Text>, ids: Map<Text, Text>) -> bool {
        forall|alias: Text| #[trigger]
            ids.contains_key(alias) && deps[alias] == self.package ==> stage.instances.contains_key(ids[alias])
                && self.is_seated(stage.instances[ids[alias]])
    }

    proof fn group_holds(
        self,
        stage: Stage,
        deps: Map<Text, Text>,
        aliases: Seq<Text>,
        ids: Map<Text, Text>,
        offered: bool,
        fuel: nat,
    )
        requires
            self.is_fair(),
            self.holds(stage),
            stage.visiting == Set::<(Text, usize)>::empty(),
            stage.in_progress == Set::<MemoKeyView>::empty(),
            forall|i: int| 0 <= i < aliases.len() ==> self.nodes.contains_key(deps[#[trigger] aliases[i]]),
            offered ==> self.is_offered(stage) && self.are_seated(stage, deps, ids),
        ensures
            stage.link_group(self.nodes, deps, aliases, ids, fuel) matches Some((after, made)) ==> {
                &&& self.holds(after)
                &&& after.grew_from(stage)
                &&& goes_on(stage, after)
                &&& offered ==> self.are_seated(after, deps, made)
            },
        decreases aliases.len(),
    {
        if aliases.len() > 0 {
            let key = deps[aliases[0]];
            let frame = stage.root_frame;
            let rest = aliases.skip(1);
            assert(self.nodes.contains_key(deps[aliases[0]]));
            self.instantiate_holds(stage, key, frame, fuel);
            if let Some((next, instance)) = stage.instantiate(self.nodes, key, frame, fuel) {
                let more = ids.insert(aliases[0], instance.id);
                if offered {
                    if key == self.package {
                        let inside = Stage { visiting: stage.visiting.insert((key, frame)), ..stage };
                        self.visiting_holds(stage, key, frame);
                        self.uncached_holds(inside, key, frame, (fuel - 1) as nat);
                    }
                    assert(self.are_seated(next, deps, more)) by {
                        assert forall|alias: Text| #[trigger]
                            more.contains_key(alias) && deps[alias] == self.package implies next.instances.contains_key(
                            more[alias],
                        ) && self.is_seated(next.instances[more[alias]]) by {
                            if alias != aliases[0] {
                                assert(ids.contains_key(alias));
                                assert(stage.instances.contains_key(ids[alias]));
                            }
                        }
                    }
                    assert(next.frames[frame as int] == stage.frames[frame as int]);
                }
                assert forall|i: int| 0 <= i < rest.len() implies self.nodes.contains_key(deps[#[trigger] rest[i]]) by {
                    assert(rest[i] == aliases[i + 1]);
                }
                self.group_holds(next, deps, rest, more, offered, fuel);
                if let Some((after, made)) = next.link_group(self.nodes, deps, rest, more, fuel) {
                    assert(after.grew_from(stage));
                    assert forall|i: int| 0 <= i < stage.frames.len() implies #[trigger] after.frames[i]
                        == stage.frames[i] by {
                        assert(next.frames[i] == stage.frames[i]);
                    }
                }
            }
        }
    }
}

/// What an importer has under `name`: regular dependencies count before optional ones, and those before
/// ones for development.
pub open spec fn found_at(groups: GroupsView, name: Text) -> Option<Text> {
    if groups.dependencies.contains_key(name) {
        Some(groups.dependencies[name])
    } else if groups.optional_dependencies.contains_key(name) {
        Some(groups.optional_dependencies[name])
    } else if groups.dev_dependencies.contains_key(name) {
        Some(groups.dev_dependencies[name])
    } else {
        None
    }
}

impl Seat {
    spec fn groups_are_seated(self, stage: Stage, groups: GroupsView, ids: GroupsView) -> bool {
        &&& self.are_seated(stage, groups.dependencies, ids.dependencies)
        &&& self.are_seated(stage, groups.dev_dependencies, ids.dev_dependencies)
        &&& self.are_seated(stage, groups.optional_dependencies, ids.optional_dependencies)
    }

    proof fn seated_stay(self, before: Stage, after: Stage, deps: Map<Text, Text>, ids: Map<Text, Text>)
        requires
            after.grew_from(before),
            self.are_seated(before, deps, ids),
        ensures
            self.are_seated(after, deps, ids),
    {
        assert forall|alias: Text| #[trigger]
            ids.contains_key(alias) && deps[alias] == self.package implies after.instances.contains_key(ids[alias])
            && self.is_seated(after.instances[ids[alias]]) by {
            assert(before.instances.contains_key(ids[alias]));
        }
    }

    proof fn rooted_holds(self, stage: Stage, groups: GroupsView)
        requires
            self.is_fair(),
            self.holds(stage),
            groups.leads_into(self.nodes),
            are_called(self.nodes, self.called, groups.dependencies),
            are_called(self.nodes, self.called, groups.dev_dependencies),
            are_called(self.nodes, self.called, groups.optional_dependencies),
        ensures
            self.holds(stage.rooted(groups)),
            stage.rooted(groups).grew_from(stage),
            found_at(groups, self.peer) == Some(self.version) && stage.frames.len() <= usize::MAX ==> self.is_offered(
                stage.rooted(groups),
            ),
    {
        let rooted = stage.rooted(groups);
        self.fine_stay(stage, rooted);
        let names = root_names(groups);
        let (a, b, c) = (groups.dependencies, groups.dev_dependencies, groups.optional_dependencies);
        assert forall|alias: Text| #[trigger] names.contains_key(alias) implies self.nodes.contains_key(names[alias])
            && (is_peer_name(self.nodes, alias) ==> self.called[names[alias]] == alias) by {
            if a.contains_key(alias) {
            } else if c.contains_key(alias) {
            } else {
                assert(b.contains_key(alias));
            }
        }
        assert(leads_into(names, self.nodes));
        assert(are_called(self.nodes, self.called, names));
        assert forall|i: int| 0 <= i < rooted.frames.len() implies leads_into(
            (#[trigger] rooted.frames[i]).names,
            self.nodes,
        ) && are_called(self.nodes, self.called, rooted.frames[i].names) by {
            if i < stage.frames.len() {
                assert(rooted.frames[i] == stage.frames[i]);
            }
        }
        assert(rooted.is_referential(self.nodes)) by {
            rooted.grown_references(stage);
            assert forall|id: Text| #[trigger] rooted.instances.contains_key(id) implies rooted.all_references(
                rooted.instances[id].deps,
            ) && rooted.all_references(rooted.instances[id].optional_deps) by {
                assert(stage.instances.contains_key(id));
            }
            assert forall|m: MemoKeyView| #[trigger] rooted.memo.contains_key(m) implies rooted.has(m.0) by {
                assert(stage.memo.contains_key(m));
                assert(stage.has(m.0));
            }
        }
        assert forall|id: Text| #[trigger]
            rooted.instances.contains_key(id) && rooted.instances[id].key == self.package implies exists|
            externals: Set<Text>,
            visible: Map<Text, Text>,
        | #[trigger] self.is_made(id, rooted.instances[id], externals, visible) by {
            assert(stage.instances.contains_key(id));
        }
        assert forall|m: MemoKeyView| #[trigger] rooted.memo.contains_key(m) implies {
            let id = rooted.memo[m].id;
            &&& is_balanced(id)
            &&& m.0 == self.package && self.is_chosen(m.1) ==> self.is_seated(rooted.instances[id])
        } by {
            assert(stage.memo.contains_key(m));
        }
    }

    proof fn root_holds(self, stage: Stage, groups: GroupsView, fuel: nat)
        requires
            self.is_fair(),
            self.holds(stage),
            stage.visiting == Set::<(Text, usize)>::empty(),
            stage.in_progress == Set::<MemoKeyView>::empty(),
            groups.leads_into(self.nodes),
            groups_finite(groups),
            are_called(self.nodes, self.called, groups.dependencies),
            are_called(self.nodes, self.called, groups.dev_dependencies),
            are_called(self.nodes, self.called, groups.optional_dependencies),
        ensures
            stage.instantiate_root(self.nodes, groups, fuel) matches Some((after, ids)) ==> {
                &&& self.holds(after)
                &&& after.grew_from(stage)
                &&& after.frames.len() >= stage.frames.len()
                &&& found_at(groups, self.peer) == Some(self.version) && stage.frames.len() <= usize::MAX
                    ==> self.groups_are_seated(after, groups, ids)
            },
    {
        let nodes = self.nodes;
        let rooted = stage.rooted(groups);
        let none = Map::<Text, Text>::empty();
        let (a, b, c) = (groups.dependencies, groups.dev_dependencies, groups.optional_dependencies);
        let offered = found_at(groups, self.peer) == Some(self.version) && stage.frames.len() <= usize::MAX;
        self.rooted_holds(stage, groups);
        edges_in_order(a, nodes);
        edges_in_order(b, nodes);
        edges_in_order(c, nodes);
        self.group_holds(rooted, a, sorted(a.dom()), none, offered, fuel);
        if let Some((one, a_ids)) = rooted.link_group(nodes, a, sorted(a.dom()), none, fuel) {
            if offered {
                assert(one.frames[rooted.root_frame as int] == rooted.frames[rooted.root_frame as int]);
            }
            self.group_holds(one, b, sorted(b.dom()), none, offered, fuel);
            if let Some((two, b_ids)) = one.link_group(nodes, b, sorted(b.dom()), none, fuel) {
                if offered {
                    assert(two.frames[rooted.root_frame as int] == one.frames[rooted.root_frame as int]);
                    self.seated_stay(one, two, a, a_ids);
                }
                self.group_holds(two, c, sorted(c.dom()), none, offered, fuel);
                if let Some((three, c_ids)) = two.link_group(nodes, c, sorted(c.dom()), none, fuel) {
                    if offered {
                        self.seated_stay(two, three, a, a_ids);
                        self.seated_stay(two, three, b, b_ids);
                    }
                }
            }
        }
    }

    /// The importer at `at` gets the version for all of its dependencies that are the package.
    proof fn roots_hold(self, roots: Seq<GroupsView>, at: int, fuel: nat)
        requires
            self.is_fair(),
            is_sound(self.nodes, roots),
            have_one_name(self.nodes, roots, self.called),
            forall|i: int| 0 <= i < roots.len() ==> groups_finite(#[trigger] roots[i]),
        ensures
            Stage::first().instantiate_roots(self.nodes, roots, fuel) matches Some((after, ids)) ==> {
                &&& self.holds(after)
                &&& after.grew_from(Stage::first())
                &&& ids.len() == roots.len()
                &&& 0 <= at < roots.len() && found_at(roots[at], self.peer) == Some(self.version) && after.frames.len()
                    <= usize::MAX ==> self.groups_are_seated(after, roots[at], ids[at])
            },
        decreases roots.len(),
    {
        let first = Stage::first();
        if roots.len() == 0 {
            assert(first.is_referential(self.nodes));
        } else {
            let last = roots.len() - 1;
            let before = roots.drop_last();
            assert forall|i: int| 0 <= i < before.len() implies #[trigger] before[i] == roots[i] by {}
            assert(is_sound(self.nodes, before)) by {
                assert forall|i: int| 0 <= i < before.len() implies (#[trigger] before[i]).leads_into(self.nodes) by {
                    assert(roots[i].leads_into(self.nodes));
                }
            }
            assert(have_one_name(self.nodes, before, self.called)) by {
                assert forall|i: int| 0 <= i < before.len() implies are_called(
                    self.nodes,
                    self.called,
                    (#[trigger] before[i]).dependencies,
                ) && are_called(self.nodes, self.called, before[i].dev_dependencies) && are_called(
                    self.nodes,
                    self.called,
                    before[i].optional_dependencies,
                ) by {
                    assert(are_called(self.nodes, self.called, roots[i].dependencies));
                }
            }
            assert forall|i: int| 0 <= i < before.len() implies groups_finite(#[trigger] before[i]) by {
                assert(groups_finite(roots[i]));
            }
            self.roots_hold(before, at, fuel);
            if let Some((stage, ids)) = first.instantiate_roots(self.nodes, before, fuel) {
                assert(roots[last].leads_into(self.nodes) && groups_finite(roots[last]));
                assert(are_called(self.nodes, self.called, roots[last].dependencies));
                self.root_holds(stage, roots[last], fuel);
                if let Some((after, more)) = stage.instantiate_root(self.nodes, roots.last(), fuel) {
                    let all = ids.push(more);
                    if 0 <= at < last && found_at(roots[at], self.peer) == Some(self.version) && after.frames.len()
                        <= usize::MAX {
                        assert(all[at] == ids[at]);
                        self.seated_stay(stage, after, roots[at].dependencies, ids[at].dependencies);
                        self.seated_stay(stage, after, roots[at].dev_dependencies, ids[at].dev_dependencies);
                        self.seated_stay(stage, after, roots[at].optional_dependencies, ids[at].optional_dependencies);
                    }
                }
            }
        }
    }
}

/// All peers of `keys`.
spec fn peers_among(nodes: Map<Text, NodeView>, keys: Seq<Text>) -> Set<Text>
    decreases keys.len(),
{
    if keys.len() == 0 {
        Set::empty()
    } else {
        peers_among(nodes, keys.drop_last()).union(nodes[keys.last()].peers.dom())
    }
}

proof fn peers_are_finite(nodes: Map<Text, NodeView>, keys: Seq<Text>)
    requires
        forall|i: int| 0 <= i < keys.len() ==> nodes[#[trigger] keys[i]].peers.dom().finite(),
    ensures
        peers_among(nodes, keys).finite(),
        forall|i: int, name: Text|
            0 <= i < keys.len() && #[trigger] nodes[keys[i]].peers.contains_key(name) ==> peers_among(
                nodes,
                keys,
            ).contains(name),
    decreases keys.len(),
{
    if keys.len() > 0 {
        let shorter = keys.drop_last();
        assert forall|i: int| 0 <= i < shorter.len() implies nodes[#[trigger] shorter[i]].peers.dom().finite() by {
            assert(shorter[i] == keys[i]);
        }
        peers_are_finite(nodes, shorter);
        assert(nodes[keys[keys.len() - 1]].peers.dom().finite());
        assert forall|i: int, name: Text|
            0 <= i < keys.len() && #[trigger] nodes[keys[i]].peers.contains_key(name) implies peers_among(
            nodes,
            keys,
        ).contains(name) by {
            if i < shorter.len() {
                assert(nodes[shorter[i]].peers.contains_key(name));
            }
        }
    }
}

proof fn closures_are_finite(nodes: Map<Text, NodeView>)
    requires
        nodes.dom().finite(),
        forall|key: Text| #[trigger] nodes.contains_key(key) ==> nodes[key].peers.dom().finite(),
    ensures
        forall|key: Text| (#[trigger] closure_of(nodes, key)).finite(),
{
    let keys = sorted(nodes.dom());
    sorted_properties(nodes.dom());
    assert forall|i: int| 0 <= i < keys.len() implies nodes[#[trigger] keys[i]].peers.dom().finite() by {
        assert(keys.contains(keys[i]));
        assert(nodes.contains_key(keys[i]));
    }
    peers_are_finite(nodes, keys);
    let all = peers_among(nodes, keys);
    assert forall|key: Text| (#[trigger] closure_of(nodes, key)).finite() by {
        assert forall|name: Text| closure_of(nodes, key).contains(name) implies all.contains(name) by {
            closure_names_are_peers(nodes, key, name);
            let k = choose|k: Text| #[trigger] nodes.contains_key(k) && nodes[k].peers.contains_key(name);
            assert(keys.contains(k));
            assert(keys[keys.index_of(k)] == k);
        }
        assert(closure_of(nodes, key).subset_of(all));
        vstd::set_lib::lemma_len_subset(closure_of(nodes, key), all);
    }
}

/// `node` has the peer `peer`. Where it requires that, but it is an optional peer of some package, so that
/// something may stand in for it, that is said only if `version` was chosen for it too.
pub open spec fn takes_peer(nodes: Map<Text, NodeView>, node: NodeView, peer: Text, version: Text) -> bool {
    &&& node.peers.contains_key(peer)
    &&& !node.peers[peer] && is_optional_peer(nodes, peer) ==> node.auto_peers.contains_key(peer)
        && node.auto_peers[peer] == version && !node.optional_deps.contains_key(peer)
}

/// Every package that an importer has among `deps` as one of `ids` and that has the peer `peer` has the
/// same version of it as the importer, which has it as `own`.
pub open spec fn share_peer(
    nodes: Map<Text, NodeView>,
    packages: Map<Text, PackageView>,
    deps: Map<Text, Text>,
    ids: Map<Text, Text>,
    peer: Text,
    version: Text,
    own: Text,
) -> bool {
    forall|alias: Text| #[trigger]
        deps.contains_key(alias) && takes_peer(nodes, nodes[deps[alias]], peer, version) ==> {
            &&& ids.contains_key(alias)
            &&& packages.contains_key(ids[alias])
            &&& packages[ids[alias]].deps.contains_key(peer)
            &&& packages.contains_key(packages[ids[alias]].deps[peer])
            &&& packages[packages[ids[alias]].deps[peer]].name == packages[own].name
            &&& packages[packages[ids[alias]].deps[peer]].version == packages[own].version
        }
}

proof fn group_shares_peer(
    nodes: Map<Text, NodeView>,
    roots: Seq<GroupsView>,
    fuel: nat,
    called: Map<Text, Text>,
    at: int,
    peer: Text,
    group: int,
)
    requires
        is_sound(nodes, roots),
        is_finite(nodes),
        nodes.dom().finite(),
        forall|key: Text| #[trigger] nodes.contains_key(key) ==> nodes[key].peers.dom().finite(),
        forall|i: int| 0 <= i < roots.len() ==> groups_finite(#[trigger] roots[i]),
        keys_are_plain(nodes),
        have_one_name(nodes, roots, called),
        Stage::first().instantiate_roots(nodes, roots, fuel) matches Some((stage, _)) ==> stage.frames.len()
            <= usize::MAX,
        0 <= at < roots.len(),
        found_at(roots[at], peer) is Some,
        0 <= group < 3,
    ensures
        built_packages(nodes, roots, fuel) matches Some(Ok((packages, ids))) ==> found_at(ids[at], peer) is Some
            && share_peer(
            nodes,
            packages,
            group_of(roots[at], group),
            group_of(ids[at], group),
            peer,
            found_at(roots[at], peer)->0,
            found_at(ids[at], peer)->0,
        ),
{
    let version = found_at(roots[at], peer)->0;
    closures_are_finite(nodes);
    built_packages_stand(nodes, roots, fuel);
    if let Some(Ok((packages, ids))) = built_packages(nodes, roots, fuel) {
        let (stage, made) = Stage::first().instantiate_roots(nodes, roots, fuel)->0;
        let instances = stage.instances;
        let order = sorted(instances.dom());
        assert(roots[at].leads_into(nodes));
        assert(ids[at] == settled_groups(instances, made[at]));
        let own = found_at(ids[at], peer)->0;
        assert(are_packages_of(packages, ids[at].dependencies, nodes, roots[at].dependencies));
        assert(ids[at].dependencies.dom().contains(peer) == roots[at].dependencies.dom().contains(peer));
        assert(ids[at].dev_dependencies.dom().contains(peer) == roots[at].dev_dependencies.dom().contains(peer));
        assert(ids[at].optional_dependencies.dom().contains(peer) == roots[at].optional_dependencies.dom().contains(
            peer,
        ));
        assert(is_package_of(packages, own, nodes[version]));
        let (deps, got) = (group_of(roots[at], group), group_of(ids[at], group));
        assert forall|alias: Text| #[trigger]
            deps.contains_key(alias) && takes_peer(nodes, nodes[deps[alias]], peer, version) implies {
            &&& got.contains_key(alias)
            &&& packages.contains_key(got[alias])
            &&& packages[got[alias]].deps.contains_key(peer)
            &&& packages.contains_key(packages[got[alias]].deps[peer])
            &&& packages[packages[got[alias]].deps[peer]].name == packages[own].name
            &&& packages[packages[got[alias]].deps[peer]].version == packages[own].version
        } by {
            let seat = Seat { nodes, called, package: deps[alias], peer, version, parent: deps[alias], alias };
            assert(seat.is_fair());
            seat.roots_hold(roots, at, fuel);
            none_unhashed(nodes, instances, order);
            sorted_properties(instances.dom());
            assert forall|id: Text| #[trigger]
                instances.contains_key(id) implies nodes[instances[id].key].manifest.dist.integrity is Some by {
                assert(order.contains(id));
                assert(order[order.index_of(id)] == id);
            }
            let linked = group_of(made[at], group);
            assert(got == settled_edges(instances, linked));
            assert(got.dom().contains(alias));
            assert(linked.contains_key(alias));
            let id = linked[alias];
            assert(instances.contains_key(id) && seat.is_seated(instances[id]));
            assert(got[alias] == id);
            let data = instances[id];
            settled_stands(stage, nodes, data.deps[peer], version);
        }
    }
}

/// The group of dependencies at `group`.
pub open spec fn group_of(groups: GroupsView, group: int) -> Map<Text, Text> {
    if group == 0 {
        groups.dependencies
    } else if group == 1 {
        groups.dev_dependencies
    } else {
        groups.optional_dependencies
    }
}

/// A package that an importer depends on, in whichever group, and that has a peer, optional or not, gets
/// the same version of it as the importer, if the importer has it under that name in any group. For that, no
/// package may go by two names as far as peers are concerned, since its id would not tell which peer it
/// stands for. Nor may a key hold a bracket, which would tell where an id ends.
pub proof fn peers_come_from_importer(
    nodes: Map<Text, NodeView>,
    roots: Seq<GroupsView>,
    fuel: nat,
    called: Map<Text, Text>,
    at: int,
    peer: Text,
)
    requires
        is_sound(nodes, roots),
        is_finite(nodes),
        nodes.dom().finite(),
        forall|key: Text| #[trigger] nodes.contains_key(key) ==> nodes[key].peers.dom().finite(),
        forall|i: int| 0 <= i < roots.len() ==> groups_finite(#[trigger] roots[i]),
        keys_are_plain(nodes),
        have_one_name(nodes, roots, called),
        Stage::first().instantiate_roots(nodes, roots, fuel) matches Some((stage, _)) ==> stage.frames.len()
            <= usize::MAX,
        0 <= at < roots.len(),
        found_at(roots[at], peer) is Some,
    ensures
        built_packages(nodes, roots, fuel) matches Some(Ok((packages, ids))) ==> (found_at(ids[at], peer) matches Some(
            own,
        ) && {
            let version = found_at(roots[at], peer)->0;
            &&& share_peer(nodes, packages, roots[at].dependencies, ids[at].dependencies, peer, version, own)
            &&& share_peer(nodes, packages, roots[at].dev_dependencies, ids[at].dev_dependencies, peer, version, own)
            &&& share_peer(
                nodes,
                packages,
                roots[at].optional_dependencies,
                ids[at].optional_dependencies,
                peer,
                version,
                own,
            )
        }),
{
    group_shares_peer(nodes, roots, fuel, called, at, peer, 0);
    group_shares_peer(nodes, roots, fuel, called, at, peer, 1);
    group_shares_peer(nodes, roots, fuel, called, at, peer, 2);
}

/// A package whose parent has a dependency of its own under the name of one of its peers, optional or not,
/// gets that one for it, whatever importers have under that name. So does every instance of it that an
/// instance of the parent leads to. Only an instance that is still being made, within a circle of
/// dependencies, is referred to by the key of the package instead, and need not.
pub proof fn peers_come_from_parent(
    nodes: Map<Text, NodeView>,
    roots: Seq<GroupsView>,
    fuel: nat,
    called: Map<Text, Text>,
    parent: Text,
    alias: Text,
    peer: Text,
)
    requires
        is_sound(nodes, roots),
        is_finite(nodes),
        nodes.dom().finite(),
        forall|key: Text| #[trigger] nodes.contains_key(key) ==> nodes[key].peers.dom().finite(),
        forall|i: int| 0 <= i < roots.len() ==> groups_finite(#[trigger] roots[i]),
        keys_are_plain(nodes),
        have_one_name(nodes, roots, called),
        Stage::first().instantiate_roots(nodes, roots, fuel) matches Some((stage, _)) ==> stage.frames.len()
            <= usize::MAX,
        nodes.contains_key(parent),
        own_dependency(nodes[parent], alias) is Some,
        own_dependency(nodes[parent], peer) is Some,
        takes_peer(
            nodes,
            nodes[own_dependency(nodes[parent], alias)->0],
            peer,
            own_dependency(nodes[parent], peer)->0,
        ),
    ensures
        Stage::first().instantiate_roots(nodes, roots, fuel) matches Some((stage, _)) ==> forall|id: Text| #[trigger]
            stage.instances.contains_key(id) && stage.instances[id].key == parent ==> (instance_under(
                nodes[parent],
                stage.instances[id],
                alias,
            ) matches Some(child) && (child == own_dependency(nodes[parent], alias)->0 || (stage.instances.contains_key(
                child,
            ) && stage.instances[child].deps.contains_key(peer) && is_id_of(
                stage.instances[child].deps[peer],
                own_dependency(nodes[parent], peer)->0,
            )))),
{
    let package = own_dependency(nodes[parent], alias)->0;
    let version = own_dependency(nodes[parent], peer)->0;
    closures_are_finite(nodes);
    assert(nodes[parent].leads_into(nodes));
    let seat = Seat { nodes, called, package, peer, version, parent, alias };
    assert(seat.is_fair());
    seat.roots_hold(roots, 0, fuel);
    if let Some((stage, _)) = Stage::first().instantiate_roots(nodes, roots, fuel) {
        assert forall|id: Text| #[trigger]
            stage.instances.contains_key(id) && stage.instances[id].key == parent implies seat.is_fine_below(
            stage,
            stage.instances[id],
        ) by {}
    }
}

} // verus!
