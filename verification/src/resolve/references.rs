//! Whatever a resolved package or importer depends on is one of the resolved packages, and the one
//! that was chosen for it.
use vstd::prelude::*;

use crate::dict::{sorted, sorted_properties};
use crate::lock::PackageView;
use crate::resolve::chooser::{is_closed, is_sound, leads_into, GroupsView, NodeView};
use crate::resolve::closures::{closure_of, is_best_version, is_version_of};
use crate::resolve::peers::{
    built_packages, first_unhashed, is_first_instance, locked_packages, lookup, root_names, settled, settled_edges,
    settled_groups, suffix, FrameView, InstanceDataView, Links, MemoKeyView, Peers, Stage,
};
use crate::text::{text_less, text_less_irreflexive, text_less_total, Text};

pub mod ancestors;
pub mod brackets;

verus! {

/// No package key holds an opening bracket, which begins the peers in an id.
pub open spec fn keys_unbracketed(nodes: Map<Text, NodeView>) -> bool {
    forall|key: Text| #[trigger] nodes.contains_key(key) ==> !key.contains('(')
}

/// `id` is `key`, or `key` with peers in brackets.
pub open spec fn is_id_of(id: Text, key: Text) -> bool {
    exists|peers: Text| #[trigger] (key + peers) == id && (peers.len() == 0 || peers[0] == '(')
}

proof fn id_has_one_key(id: Text, a: Text, b: Text)
    requires
        is_id_of(id, a),
        is_id_of(id, b),
        !a.contains('('),
        !b.contains('('),
    ensures
        a == b,
{
    let p = choose|peers: Text| #[trigger] (a + peers) == id && (peers.len() == 0 || peers[0] == '(');
    let q = choose|peers: Text| #[trigger] (b + peers) == id && (peers.len() == 0 || peers[0] == '(');
    if a.len() < b.len() {
        assert((a + p)[a.len() as int] == p[0]);
        assert((b + q)[a.len() as int] == b[a.len() as int]);
        assert(b.contains('('));
    } else if b.len() < a.len() {
        assert((b + q)[b.len() as int] == q[0]);
        assert((a + p)[b.len() as int] == a[b.len() as int]);
        assert(a.contains('('));
    }
    assert forall|i: int| 0 <= i < a.len() implies a[i] == b[i] by {
        assert((a + p)[i] == a[i] && (b + q)[i] == b[i]);
    }
    assert(a =~= b);
}

/// The first `aliases` of the `children` of `node` are linked to ids of theirs.
spec fn links_stand(links: Links, node: NodeView, children: Map<Text, Text>, aliases: Set<Text>) -> bool {
    &&& links.optional_deps.dom().subset_of(node.optional_deps.dom())
    &&& forall|alias: Text| #[trigger]
        aliases.contains(alias) ==> if node.optional_deps.contains_key(alias) {
            links.optional_deps.contains_key(alias) && is_id_of(links.optional_deps[alias], children[alias])
        } else {
            links.deps.contains_key(alias) && is_id_of(links.deps[alias], children[alias])
        }
}

/// `alias` is a peer that `node` requires, for which a version was chosen.
pub open spec fn is_required_peer(node: NodeView, alias: Text) -> bool {
    node.peers.contains_key(alias) && !node.peers[alias] && node.auto_peers.contains_key(alias)
}

/// The dependencies of `node` that are no peers lead to ids of what was chosen for them, and the peers
/// that it requires are there.
spec fn deps_stand(node: NodeView, deps: Map<Text, Text>, optional_deps: Map<Text, Text>) -> bool {
    &&& forall|alias: Text| #[trigger]
        node.deps.contains_key(alias) && !node.optional_deps.contains_key(alias) && !node.peers.contains_key(alias)
            ==> deps.contains_key(alias) && is_id_of(deps[alias], node.deps[alias])
    &&& optional_deps.dom().subset_of(node.optional_deps.dom())
    &&& forall|alias: Text| #[trigger]
        node.optional_deps.contains_key(alias) && !node.peers.contains_key(alias) ==> optional_deps.contains_key(alias)
            && is_id_of(optional_deps[alias], node.optional_deps[alias])
    &&& forall|alias: Text| #[trigger]
        is_required_peer(node, alias) && !node.optional_deps.contains_key(alias) ==> deps.contains_key(alias)
}

/// `ids` are ids of what `edges` lead to, as far as `aliases` are concerned.
spec fn ids_stand(ids: Map<Text, Text>, edges: Map<Text, Text>, aliases: Set<Text>) -> bool {
    ids.dom() == aliases && forall|alias: Text| #[trigger]
        aliases.contains(alias) ==> is_id_of(ids[alias], edges[alias])
}

proof fn key_is_own_id(key: Text)
    ensures
        is_id_of(key, key),
{
    assert(key + Seq::<char>::empty() =~= key);
}

/// Every node has finitely many dependencies.
pub open spec fn is_finite(nodes: Map<Text, NodeView>) -> bool {
    forall|key: Text| #[trigger]
        nodes.contains_key(key) ==> nodes[key].deps.dom().finite() && nodes[key].optional_deps.dom().finite()
            && nodes[key].auto_peers.dom().finite()
}

proof fn children_finite(node: NodeView, peers: Peers)
    requires
        node.deps.dom().finite(),
        node.optional_deps.dom().finite(),
        node.auto_peers.dom().finite(),
    ensures
        peers.children(node).dom().finite(),
{
    let all = node.deps.dom().union(node.optional_deps.dom()).union(node.auto_peers.dom());
    assert(peers.children(node).dom().subset_of(all));
    vstd::set_lib::lemma_len_subset(peers.children(node).dom(), all);
}

impl Stage {
    /// The package `key` has an instance.
    spec fn has(self, key: Text) -> bool {
        exists|id: Text| #[trigger] self.instances.contains_key(id) && self.instances[id].key == key
    }

    spec fn in_hand(self, key: Text) -> bool {
        exists|choices: Seq<Option<Text>>| #[trigger] self.in_progress.contains((key, choices))
    }

    spec fn visited(self, key: Text) -> bool {
        exists|frame: usize| #[trigger] self.visiting.contains((key, frame))
    }

    /// `id` is an instance, or the key of a package that has one or is about to.
    spec fn is_reference(self, id: Text) -> bool {
        self.instances.contains_key(id) || self.has(id) || self.in_hand(id) || self.visited(id)
    }

    spec fn all_references(self, edges: Map<Text, Text>) -> bool {
        forall|alias: Text| #[trigger] edges.contains_key(alias) ==> self.is_reference(edges[alias])
    }

    spec fn is_referential(self, nodes: Map<Text, NodeView>) -> bool {
        &&& self.instances.dom().finite()
        &&& forall|id: Text| #[trigger]
            self.instances.contains_key(id) ==> {
                &&& nodes.contains_key(self.instances[id].key)
                &&& is_id_of(id, self.instances[id].key)
                &&& self.all_references(self.instances[id].deps)
                &&& self.all_references(self.instances[id].optional_deps)
                &&& deps_stand(nodes[self.instances[id].key], self.instances[id].deps, self.instances[id].optional_deps)
            }
        &&& forall|memo_key: MemoKeyView| #[trigger]
            self.memo.contains_key(memo_key) ==> self.instances.contains_key(self.memo[memo_key].id) && self.has(
                memo_key.0,
            ) && is_id_of(self.memo[memo_key].id, memo_key.0)
        &&& forall|i: int| 0 <= i < self.frames.len() ==> leads_into((#[trigger] self.frames[i]).names, nodes)
    }

    /// This stage has all instances of `before`, and is at the same packages.
    spec fn grew_from(self, before: Stage) -> bool {
        &&& self.visiting == before.visiting
        &&& self.in_progress == before.in_progress
        &&& forall|id: Text| #[trigger]
            before.instances.contains_key(id) ==> self.instances.contains_key(id) && self.instances[id]
                == before.instances[id]
    }

    proof fn reference_stays(self, before: Stage, id: Text)
        requires
            before.is_reference(id),
            forall|key: Text| #[trigger] before.visited(key) ==> self.is_reference(key),
            forall|key: Text| #[trigger] before.in_hand(key) ==> self.is_reference(key),
            forall|i: Text| #[trigger]
                before.instances.contains_key(i) ==> self.instances.contains_key(i) && self.instances[i]
                    == before.instances[i],
        ensures
            self.is_reference(id),
    {
        if before.has(id) {
            let i = choose|i: Text| #[trigger] before.instances.contains_key(i) && before.instances[i].key == id;
            assert(self.instances.contains_key(i) && self.instances[i].key == id);
        }
    }

    proof fn references_stay(self, before: Stage, edges: Map<Text, Text>)
        requires
            before.all_references(edges),
            forall|key: Text| #[trigger] before.visited(key) ==> self.is_reference(key),
            forall|key: Text| #[trigger] before.in_hand(key) ==> self.is_reference(key),
            forall|i: Text| #[trigger]
                before.instances.contains_key(i) ==> self.instances.contains_key(i) && self.instances[i]
                    == before.instances[i],
        ensures
            self.all_references(edges),
    {
        assert forall|alias: Text| #[trigger] edges.contains_key(alias) implies self.is_reference(edges[alias]) by {
            self.reference_stays(before, edges[alias]);
        }
    }

    proof fn grown_references(self, before: Stage)
        requires
            self.grew_from(before),
        ensures
            forall|id: Text| before.is_reference(id) ==> #[trigger] self.is_reference(id),
            forall|edges: Map<Text, Text>| before.all_references(edges) ==> #[trigger] self.all_references(edges),
            forall|key: Text| before.has(key) ==> #[trigger] self.has(key),
    {
        assert forall|key: Text| #[trigger] before.visited(key) implies self.is_reference(key) by {
            assert(self.visited(key));
        }
        assert forall|key: Text| #[trigger] before.in_hand(key) implies self.is_reference(key) by {
            assert(self.in_hand(key));
        }
        assert forall|id: Text| before.is_reference(id) implies #[trigger] self.is_reference(id) by {
            self.reference_stays(before, id);
        }
        assert forall|edges: Map<Text, Text>| before.all_references(edges) implies #[trigger] self.all_references(edges) by {
            self.references_stay(before, edges);
        }
        assert forall|key: Text| before.has(key) implies #[trigger] self.has(key) by {
            let i = choose|i: Text| #[trigger] before.instances.contains_key(i) && before.instances[i].key == key;
            assert(self.instances.contains_key(i) && self.instances[i].key == key);
        }
    }
}

proof fn first_and_rest(aliases: Seq<Text>)
    requires
        aliases.len() > 0,
    ensures
        aliases.to_set() == aliases.skip(1).to_set().insert(aliases[0]),
{
    let rest = aliases.skip(1);
    assert forall|alias: Text| aliases.contains(alias) implies rest.contains(alias) || alias == aliases[0] by {
        let i = aliases.index_of(alias);
        if i > 0 {
            assert(rest[i - 1] == alias);
        }
    }
    assert forall|alias: Text| rest.contains(alias) implies aliases.contains(alias) by {
        let i = rest.index_of(alias);
        assert(aliases[i + 1] == alias);
    }
    assert(aliases.to_set() =~= rest.to_set().insert(aliases[0]));
}

proof fn lookup_finds_node(frames: Seq<FrameView>, nodes: Map<Text, NodeView>, frame: usize, name: Text)
    requires
        forall|i: int| 0 <= i < frames.len() ==> leads_into((#[trigger] frames[i]).names, nodes),
    ensures
        lookup(frames, frame, name) matches Some((key, _)) ==> nodes.contains_key(key),
    decreases frame,
{
    if frame < frames.len() {
        assert(leads_into(frames[frame as int].names, nodes));
        if !frames[frame as int].names.contains_key(name) {
            if let Some(parent) = frames[frame as int].parent {
                if parent < frame {
                    lookup_finds_node(frames, nodes, parent, name);
                }
            }
        }
    }
}

proof fn child_is_node(nodes: Map<Text, NodeView>, node: NodeView, peers: Peers)
    requires
        node.leads_into(nodes),
    ensures
        leads_into(peers.children(node), nodes),
{
    let children = peers.children(node);
    assert forall|alias: Text| #[trigger] children.contains_key(alias) implies nodes.contains_key(children[alias]) by {
        if peers.automatic(node).contains_key(alias) {
            assert(node.auto_peers.contains_key(alias));
        } else if node.optional_deps.contains_key(alias) {
        } else {
            assert(node.deps.contains_key(alias));
        }
    }
}

proof fn suffix_is_bracketed(names: Seq<Text>, visible: Map<Text, Text>)
    ensures
        suffix(names, visible).len() == 0 || suffix(names, visible)[0] == '(',
    decreases names.len(),
{
    if names.len() > 0 {
        suffix_is_bracketed(names.drop_last(), visible);
        reveal_strlit("(");
        let before = suffix(names.drop_last(), visible);
        let last = "("@ + visible[names.last()] + ")"@;
        assert(last[0] == '(');
        if before.len() == 0 {
            assert((before + last)[0] == last[0]);
        } else {
            assert((before + last)[0] == before[0]);
        }
    }
}

impl Stage {
    proof fn instantiate_refers(self, nodes: Map<Text, NodeView>, key: Text, frame: usize, fuel: nat)
        requires
            is_closed(nodes),
            is_finite(nodes),
            keys_unbracketed(nodes),
            nodes.contains_key(key),
            self.is_referential(nodes),
        ensures
            self.instantiate(nodes, key, frame, fuel) matches Some((stage, instance)) ==> stage.is_referential(nodes)
                && stage.grew_from(self) && stage.is_reference(instance.id) && is_id_of(instance.id, key),
        decreases fuel, 0nat, 0nat,
    {
        key_is_own_id(key);
        if self.visiting.contains((key, frame)) {
            assert(self.visited(key));
        } else if fuel > 0 {
            let less = (fuel - 1) as nat;
            let inside = Stage { visiting: self.visiting.insert((key, frame)), ..self };
            assert(inside.is_referential(nodes)) by {
                assert forall|k: Text| #[trigger] self.visited(k) implies inside.is_reference(k) by {
                    let f = choose|f: usize| #[trigger] self.visiting.contains((k, f));
                    assert(inside.visiting.contains((k, f)));
                    assert(inside.visited(k));
                }
                assert forall|k: Text| #[trigger] self.in_hand(k) implies inside.is_reference(k) by {
                    assert(inside.in_hand(k));
                }
                assert forall|id: Text| #[trigger] inside.instances.contains_key(id) implies inside.all_references(
                    inside.instances[id].deps,
                ) && inside.all_references(inside.instances[id].optional_deps) by {
                    assert(self.instances.contains_key(id));
                    inside.references_stay(self, self.instances[id].deps);
                    inside.references_stay(self, self.instances[id].optional_deps);
                }
                assert forall|m: MemoKeyView| #[trigger] inside.memo.contains_key(m) implies inside.has(m.0) by {
                    assert(self.memo.contains_key(m));
                    let i = choose|i: Text| #[trigger] self.instances.contains_key(i) && self.instances[i].key == m.0;
                    assert(inside.instances.contains_key(i));
                }
            }
            inside.uncached_refers(nodes, key, frame, less);
            if let Some((made, instance)) = inside.instantiate_uncached(nodes, key, frame, less) {
                let after = Stage { visiting: made.visiting.remove((key, frame)), ..made };
                assert(after.visiting =~= self.visiting);
                assert(made.has(key) ==> after.has(key)) by {
                    if made.has(key) {
                        let i = choose|i: Text| #[trigger] made.instances.contains_key(i) && made.instances[i].key == key;
                        assert(after.instances.contains_key(i));
                    }
                }
                assert forall|k: Text| #[trigger] made.in_hand(k) implies after.in_hand(k) by {
                    let c = choose|c: Seq<Option<Text>>| #[trigger] made.in_progress.contains((k, c));
                    assert(after.in_progress.contains((k, c)));
                }
                assert forall|k: Text| #[trigger] made.visited(k) implies after.is_reference(k) by {
                    let f = choose|f: usize| #[trigger] made.visiting.contains((k, f));
                    if (k, f) != (key, frame) {
                        assert(after.visiting.contains((k, f)));
                        assert(after.visited(k));
                    }
                }
                assert forall|k: Text| #[trigger] made.in_hand(k) implies after.is_reference(k) by {
                    assert(after.in_hand(k));
                }
                assert forall|id: Text| #[trigger] after.instances.contains_key(id) implies after.all_references(
                    after.instances[id].deps,
                ) && after.all_references(after.instances[id].optional_deps) by {
                    assert(made.instances.contains_key(id));
                    after.references_stay(made, made.instances[id].deps);
                    after.references_stay(made, made.instances[id].optional_deps);
                }
                assert forall|m: MemoKeyView| #[trigger] after.memo.contains_key(m) implies after.has(m.0) by {
                    assert(made.memo.contains_key(m));
                    let i = choose|i: Text| #[trigger] made.instances.contains_key(i) && made.instances[i].key == m.0;
                    assert(after.instances.contains_key(i));
                }
                after.reference_stays(made, instance.id);
            }
        }
    }

    proof fn uncached_refers(self, nodes: Map<Text, NodeView>, key: Text, frame: usize, fuel: nat)
        requires
            is_closed(nodes),
            is_finite(nodes),
            keys_unbracketed(nodes),
            nodes.contains_key(key),
            self.is_referential(nodes),
        ensures
            self.instantiate_uncached(nodes, key, frame, fuel) matches Some((stage, instance)) ==> {
                &&& stage.is_referential(nodes)
                &&& stage.grew_from(self)
                &&& stage.is_reference(instance.id)
                &&& stage.has(key) || stage.in_hand(key)
                &&& is_id_of(instance.id, key)
            },
        decreases fuel, 2nat, 0nat,
    {
        key_is_own_id(key);
        let names = sorted(closure_of(nodes, key));
        self.see_peers_refers(nodes, key, frame, names, Peers::none(), fuel);
        if let Some((seen, peers)) = self.see_peers(nodes, key, frame, names, Peers::none(), fuel) {
            let memo_key = (key, peers.choices(names));
            let node = nodes[key];
            if seen.memo.contains_key(memo_key) {
            } else if seen.in_progress.contains(memo_key) {
                assert(seen.in_hand(key));
            } else {
                let children = peers.children(node);
                let entered = seen.entered(memo_key, children, frame);
                let first = Links {
                    externals: peers.resolved(node),
                    deps: Map::empty(),
                    optional_deps: Map::empty(),
                };
                child_is_node(nodes, node, peers);
                children_finite(node, peers);
                sorted_properties(children.dom());
                assert forall|i: int| 0 <= i < sorted(children.dom()).len() implies nodes.contains_key(
                    children[#[trigger] sorted(children.dom())[i]],
                ) by {
                    assert(sorted(children.dom()).contains(sorted(children.dom())[i]));
                    assert(children.contains_key(sorted(children.dom())[i]));
                }
                seen.entered_refers(nodes, memo_key, children, frame);
                entered.link_children_refers(
                    nodes,
                    node,
                    peers,
                    sorted(children.dom()),
                    seen.frames.len() as usize,
                    first,
                    Set::empty(),
                    fuel,
                );
                if let Some((linked, links)) = entered.link_children(
                    nodes,
                    node,
                    peers,
                    sorted(children.dom()),
                    seen.frames.len() as usize,
                    first,
                    fuel,
                ) {
                    linked.grown_references(entered);
                    assert(linked.all_references(peers.visible));
                    assert(Set::<Text>::empty().union(sorted(children.dom()).to_set()) =~= children.dom());
                    linked.left_refers(nodes, seen, memo_key, peers, node, links);
                }
            }
        }
    }

    proof fn entered_refers(
        self,
        nodes: Map<Text, NodeView>,
        memo_key: MemoKeyView,
        children: Map<Text, Text>,
        frame: usize,
    )
        requires
            self.is_referential(nodes),
            leads_into(children, nodes),
        ensures
            self.entered(memo_key, children, frame).is_referential(nodes),
            forall|edges: Map<Text, Text>|
                self.all_references(edges) ==> #[trigger] self.entered(memo_key, children, frame).all_references(edges),
    {
        let entered = self.entered(memo_key, children, frame);
        assert forall|k: Text| #[trigger] self.visited(k) implies entered.is_reference(k) by {
            let f = choose|f: usize| #[trigger] self.visiting.contains((k, f));
            assert(entered.visiting.contains((k, f)));
            assert(entered.visited(k));
        }
        assert forall|k: Text| #[trigger] self.in_hand(k) implies entered.is_reference(k) by {
            let c = choose|c: Seq<Option<Text>>| #[trigger] self.in_progress.contains((k, c));
            assert(entered.in_progress.contains((k, c)));
            assert(entered.in_hand(k));
        }
        assert forall|edges: Map<Text, Text>| self.all_references(edges) implies #[trigger] entered.all_references(edges) by {
            entered.references_stay(self, edges);
        }
        assert forall|id: Text| #[trigger] entered.instances.contains_key(id) implies entered.all_references(
            entered.instances[id].deps,
        ) && entered.all_references(entered.instances[id].optional_deps) by {
            assert(self.instances.contains_key(id));
        }
        assert forall|m: MemoKeyView| #[trigger] entered.memo.contains_key(m) implies entered.has(m.0) by {
            assert(self.memo.contains_key(m));
            let i = choose|i: Text| #[trigger] self.instances.contains_key(i) && self.instances[i].key == m.0;
            assert(entered.instances.contains_key(i));
        }
        assert forall|i: int| 0 <= i < entered.frames.len() implies leads_into(
            (#[trigger] entered.frames[i]).names,
            nodes,
        ) by {
            if i < self.frames.len() {
                assert(entered.frames[i] == self.frames[i]);
            }
        }
    }

    proof fn left_refers(
        self,
        nodes: Map<Text, NodeView>,
        seen: Stage,
        memo_key: MemoKeyView,
        peers: Peers,
        node: NodeView,
        links: Links,
    )
        requires
            keys_unbracketed(nodes),
            nodes.contains_key(memo_key.0),
            node == nodes[memo_key.0],
            links_stand(links, node, peers.children(node), peers.children(node).dom()),
            self.is_referential(nodes),
            self.visiting == seen.visiting,
            self.in_progress == seen.in_progress.insert(memo_key),
            !seen.in_progress.contains(memo_key),
            forall|id: Text| #[trigger]
                seen.instances.contains_key(id) ==> self.instances.contains_key(id) && self.instances[id]
                    == seen.instances[id],
            self.all_references(peers.visible),
            self.all_references(links.deps),
            self.all_references(links.optional_deps),
        ensures
            ({
                let (left, instance) = self.left(memo_key, peers, node, links);
                &&& left.is_referential(nodes)
                &&& left.grew_from(seen)
                &&& left.is_reference(instance.id)
                &&& left.has(memo_key.0)
                &&& is_id_of(instance.id, memo_key.0)
            }),
    {
        let (left, instance) = self.left(memo_key, peers, node, links);
        let key = memo_key.0;
        let peers_text = suffix(sorted(links.externals), peers.visible);
        let id = key + peers_text;
        suffix_is_bracketed(sorted(links.externals), peers.visible);
        assert(is_id_of(id, key)) by {
            assert(key + peers_text == id);
        }
        if self.instances.contains_key(id) {
            id_has_one_key(id, key, self.instances[id].key);
        }
        assert(left.instances.contains_key(id) && left.instances[id].key == key);
        assert(left.has(key));
        assert(left.in_progress =~= seen.in_progress);
        assert forall|k: Text| #[trigger] self.visited(k) implies left.is_reference(k) by {
            let f = choose|f: usize| #[trigger] self.visiting.contains((k, f));
            assert(left.visiting.contains((k, f)));
            assert(left.visited(k));
        }
        assert forall|k: Text| #[trigger] self.in_hand(k) implies left.is_reference(k) by {
            let c = choose|c: Seq<Option<Text>>| #[trigger] self.in_progress.contains((k, c));
            if (k, c) != memo_key {
                assert(left.in_progress.contains((k, c)));
                assert(left.in_hand(k));
            }
        }
        let data = InstanceDataView {
            key,
            deps: links.deps.union_prefer_right(peers.visible.restrict(peers.resolved(node))),
            optional_deps: links.optional_deps,
        };
        assert(self.all_references(data.deps)) by {
            assert forall|alias: Text| #[trigger] data.deps.contains_key(alias) implies self.is_reference(
                data.deps[alias],
            ) by {
                if peers.visible.restrict(peers.resolved(node)).contains_key(alias) {
                    assert(peers.visible.contains_key(alias));
                } else {
                    assert(links.deps.contains_key(alias));
                }
            }
        }
        assert(deps_stand(node, data.deps, data.optional_deps)) by {
            let children = peers.children(node);
            assert forall|alias: Text| #[trigger]
                node.deps.contains_key(alias) && !node.optional_deps.contains_key(alias) && !node.peers.contains_key(
                    alias,
                ) implies data.deps.contains_key(alias) && is_id_of(data.deps[alias], node.deps[alias]) by {
                assert(children.dom().contains(alias));
            }
            assert forall|alias: Text| #[trigger]
                node.optional_deps.contains_key(alias) && !node.peers.contains_key(
                    alias,
                ) implies data.optional_deps.contains_key(alias) && is_id_of(
                data.optional_deps[alias],
                node.optional_deps[alias],
            ) by {
                assert(children.dom().contains(alias));
            }
            assert forall|alias: Text| #[trigger]
                is_required_peer(node, alias) && !node.optional_deps.contains_key(
                    alias,
                ) implies data.deps.contains_key(alias) by {
                if peers.is_resolved(alias, false) {
                    assert(peers.resolved(node).contains(alias));
                } else {
                    assert(peers.automatic(node).contains_key(alias));
                    assert(children.dom().contains(alias));
                }
            }
        }
        assert forall|i: Text| #[trigger] left.instances.contains_key(i) implies {
            &&& nodes.contains_key(left.instances[i].key)
            &&& is_id_of(i, left.instances[i].key)
            &&& left.all_references(left.instances[i].deps)
            &&& left.all_references(left.instances[i].optional_deps)
            &&& deps_stand(nodes[left.instances[i].key], left.instances[i].deps, left.instances[i].optional_deps)
        } by {
            if self.instances.contains_key(i) {
                left.references_stay(self, self.instances[i].deps);
                left.references_stay(self, self.instances[i].optional_deps);
            } else {
                assert(i == id);
                left.references_stay(self, data.deps);
                left.references_stay(self, data.optional_deps);
            }
        }
        assert forall|m: MemoKeyView| #[trigger] left.memo.contains_key(m) implies left.instances.contains_key(
            left.memo[m].id,
        ) && left.has(m.0) && is_id_of(left.memo[m].id, m.0) by {
            if m != memo_key {
                assert(self.memo.contains_key(m));
                let i = choose|i: Text| #[trigger] self.instances.contains_key(i) && self.instances[i].key == m.0;
                assert(left.instances.contains_key(i) && left.instances[i].key == m.0);
            }
        }
    }

    proof fn see_peers_refers(
        self,
        nodes: Map<Text, NodeView>,
        key: Text,
        frame: usize,
        names: Seq<Text>,
        peers: Peers,
        fuel: nat,
    )
        requires
            is_closed(nodes),
            is_finite(nodes),
            keys_unbracketed(nodes),
            self.is_referential(nodes),
            self.all_references(peers.visible),
        ensures
            self.see_peers(nodes, key, frame, names, peers, fuel) matches Some((stage, seen)) ==> {
                &&& stage.is_referential(nodes)
                &&& stage.grew_from(self)
                &&& stage.all_references(seen.visible)
            },
        decreases fuel, 1nat, names.len(),
    {
        if names.len() > 0 {
            match self.source(nodes, key, frame, names[0]) {
                None => self.see_peers_refers(nodes, key, frame, names.skip(1), peers, fuel),
                Some((peer, at, fell_back)) => {
                    lookup_finds_node(self.frames, nodes, frame, names[0]);
                    if fell_back {
                        let best = choose|k: Text| is_best_version(nodes, nodes.dom(), names[0], k);
                        assert(is_version_of(nodes, nodes.dom(), names[0], best));
                    }
                    self.instantiate_refers(nodes, peer, at, fuel);
                    if let Some((stage, instance)) = self.instantiate(nodes, peer, at, fuel) {
                        stage.grown_references(self);
                        let more = peers.with(names[0], instance.id, fell_back);
                        assert(stage.all_references(peers.visible));
                        assert(stage.all_references(more.visible)) by {
                            assert forall|alias: Text| #[trigger] more.visible.contains_key(alias) implies stage.is_reference(
                                more.visible[alias],
                            ) by {
                                if alias != names[0] {
                                    assert(peers.visible.contains_key(alias));
                                }
                            }
                        }
                        stage.see_peers_refers(nodes, key, frame, names.skip(1), more, fuel);
                    }
                },
            }
        }
    }

    proof fn link_children_refers(
        self,
        nodes: Map<Text, NodeView>,
        node: NodeView,
        peers: Peers,
        aliases: Seq<Text>,
        frame: usize,
        links: Links,
        done: Set<Text>,
        fuel: nat,
    )
        requires
            is_closed(nodes),
            is_finite(nodes),
            keys_unbracketed(nodes),
            self.is_referential(nodes),
            links_stand(links, node, peers.children(node), done),
            leads_into(peers.children(node), nodes),
            forall|i: int| 0 <= i < aliases.len() ==> nodes.contains_key(peers.children(node)[#[trigger] aliases[i]]),
            self.all_references(links.deps),
            self.all_references(links.optional_deps),
        ensures
            self.link_children(nodes, node, peers, aliases, frame, links, fuel) matches Some((stage, made)) ==> {
                &&& stage.is_referential(nodes)
                &&& stage.grew_from(self)
                &&& stage.all_references(made.deps)
                &&& stage.all_references(made.optional_deps)
                &&& links_stand(made, node, peers.children(node), done.union(aliases.to_set()))
            },
        decreases fuel, 1nat, aliases.len(),
    {
        let children = peers.children(node);
        if aliases.len() == 0 {
            assert(done.union(aliases.to_set()) =~= done);
        } else {
            let alias = aliases[0];
            self.instantiate_refers(nodes, children[alias], frame, fuel);
            if let Some((stage, instance)) = self.instantiate(nodes, children[alias], frame, fuel) {
                stage.grown_references(self);
                assert(stage.all_references(links.deps));
                assert(stage.all_references(links.optional_deps));
                let more = links.with(node, children, peers.visible, alias, instance);
                assert(stage.all_references(more.deps)) by {
                    assert forall|a: Text| #[trigger] more.deps.contains_key(a) implies stage.is_reference(
                        more.deps[a],
                    ) by {
                        if !(a == alias && more.deps != links.deps) {
                            assert(links.deps.contains_key(a) || a == alias);
                        }
                    }
                }
                assert(stage.all_references(more.optional_deps)) by {
                    assert forall|a: Text| #[trigger] more.optional_deps.contains_key(a) implies stage.is_reference(
                        more.optional_deps[a],
                    ) by {
                        if !(a == alias && more.optional_deps != links.optional_deps) {
                            assert(links.optional_deps.contains_key(a) || a == alias);
                        }
                    }
                }
                assert forall|i: int| 0 <= i < aliases.skip(1).len() implies nodes.contains_key(
                    children[#[trigger] aliases.skip(1)[i]],
                ) by {
                    assert(nodes.contains_key(children[aliases[i + 1]]));
                }
                assert(links_stand(more, node, children, done.insert(alias)));
                assert(done.insert(alias).union(aliases.skip(1).to_set()) =~= done.union(aliases.to_set())) by {
                    first_and_rest(aliases);
                }
                stage.link_children_refers(nodes, node, peers, aliases.skip(1), frame, more, done.insert(alias), fuel);
            }
        }
    }
}

impl Stage {
    proof fn link_group_refers(
        self,
        nodes: Map<Text, NodeView>,
        deps: Map<Text, Text>,
        aliases: Seq<Text>,
        ids: Map<Text, Text>,
        done: Set<Text>,
        fuel: nat,
    )
        requires
            is_closed(nodes),
            is_finite(nodes),
            keys_unbracketed(nodes),
            self.is_referential(nodes),
            ids_stand(ids, deps, done),
            forall|i: int| 0 <= i < aliases.len() ==> nodes.contains_key(deps[#[trigger] aliases[i]]),
            self.all_references(ids),
        ensures
            self.link_group(nodes, deps, aliases, ids, fuel) matches Some((stage, made)) ==> {
                &&& stage.is_referential(nodes)
                &&& stage.grew_from(self)
                &&& stage.all_references(made)
                &&& ids_stand(made, deps, done.union(aliases.to_set()))
            },
        decreases aliases.len(),
    {
        if aliases.len() == 0 {
            assert(done.union(aliases.to_set()) =~= done);
        } else {
            self.instantiate_refers(nodes, deps[aliases[0]], self.root_frame, fuel);
            if let Some((stage, instance)) = self.instantiate(nodes, deps[aliases[0]], self.root_frame, fuel) {
                stage.grown_references(self);
                assert(stage.all_references(ids));
                let more = ids.insert(aliases[0], instance.id);
                assert forall|a: Text| #[trigger] more.contains_key(a) implies stage.is_reference(more[a]) by {
                    if a != aliases[0] {
                        assert(ids.contains_key(a));
                    }
                }
                assert forall|i: int| 0 <= i < aliases.skip(1).len() implies nodes.contains_key(
                    deps[#[trigger] aliases.skip(1)[i]],
                ) by {
                    assert(nodes.contains_key(deps[aliases[i + 1]]));
                }
                assert(more.dom() =~= done.insert(aliases[0]));
                assert(done.insert(aliases[0]).union(aliases.skip(1).to_set()) =~= done.union(aliases.to_set())) by {
                    first_and_rest(aliases);
                }
                stage.link_group_refers(nodes, deps, aliases.skip(1), more, done.insert(aliases[0]), fuel);
            }
        }
    }

    spec fn all_group_references(self, groups: GroupsView) -> bool {
        &&& self.all_references(groups.dependencies)
        &&& self.all_references(groups.dev_dependencies)
        &&& self.all_references(groups.optional_dependencies)
    }

    /// `ids` are ids of all that `groups` lead to.
    spec fn groups_stand(ids: GroupsView, groups: GroupsView) -> bool {
        &&& ids_stand(ids.dependencies, groups.dependencies, groups.dependencies.dom())
        &&& ids_stand(ids.dev_dependencies, groups.dev_dependencies, groups.dev_dependencies.dom())
        &&& ids_stand(ids.optional_dependencies, groups.optional_dependencies, groups.optional_dependencies.dom())
    }

    proof fn root_refers(self, nodes: Map<Text, NodeView>, groups: GroupsView, fuel: nat)
        requires
            is_closed(nodes),
            is_finite(nodes),
            keys_unbracketed(nodes),
            self.is_referential(nodes),
            groups.leads_into(nodes),
            groups_finite(groups),
        ensures
            self.instantiate_root(nodes, groups, fuel) matches Some((stage, ids)) ==> {
                &&& stage.is_referential(nodes)
                &&& stage.grew_from(self)
                &&& stage.all_group_references(ids)
                &&& Stage::groups_stand(ids, groups)
            },
    {
        let rooted = self.rooted(groups);
        let names = root_names(groups);
        let none = Map::<Text, Text>::empty();
        let (a, b, c) = (groups.dependencies, groups.dev_dependencies, groups.optional_dependencies);
        assert(leads_into(names, nodes)) by {
            assert forall|alias: Text| #[trigger] names.contains_key(alias) implies nodes.contains_key(names[alias]) by {
                if a.contains_key(alias) {
                } else if c.contains_key(alias) {
                } else {
                    assert(b.contains_key(alias));
                }
            }
        }
        assert(rooted.is_referential(nodes)) by {
            rooted.grown_references(self);
            assert forall|i: int| 0 <= i < rooted.frames.len() implies leads_into(
                (#[trigger] rooted.frames[i]).names,
                nodes,
            ) by {
                if i < self.frames.len() {
                    assert(rooted.frames[i] == self.frames[i]);
                }
            }
            assert forall|id: Text| #[trigger] rooted.instances.contains_key(id) implies rooted.all_references(
                rooted.instances[id].deps,
            ) && rooted.all_references(rooted.instances[id].optional_deps) by {
                assert(self.instances.contains_key(id));
            }
            assert forall|m: MemoKeyView| #[trigger] rooted.memo.contains_key(m) implies rooted.has(m.0) by {
                assert(self.memo.contains_key(m));
                assert(self.has(m.0));
            }
        }
        edges_in_order(a, nodes);
        edges_in_order(b, nodes);
        edges_in_order(c, nodes);
        let nothing = Set::<Text>::empty();
        assert(none.dom() =~= nothing);
        rooted.link_group_refers(nodes, a, sorted(a.dom()), none, nothing, fuel);
        if let Some((one, a_ids)) = rooted.link_group(nodes, a, sorted(a.dom()), none, fuel) {
            one.link_group_refers(nodes, b, sorted(b.dom()), none, nothing, fuel);
            if let Some((two, b_ids)) = one.link_group(nodes, b, sorted(b.dom()), none, fuel) {
                two.grown_references(one);
                assert(two.all_references(a_ids));
                two.link_group_refers(nodes, c, sorted(c.dom()), none, nothing, fuel);
                if let Some((three, c_ids)) = two.link_group(nodes, c, sorted(c.dom()), none, fuel) {
                    three.grown_references(two);
                    assert(three.all_references(a_ids));
                    assert(three.all_references(b_ids));
                    assert(nothing.union(sorted(a.dom()).to_set()) =~= a.dom());
                    assert(nothing.union(sorted(b.dom()).to_set()) =~= b.dom());
                    assert(nothing.union(sorted(c.dom()).to_set()) =~= c.dom());
                }
            }
        }
    }

    proof fn roots_refer(self, nodes: Map<Text, NodeView>, roots: Seq<GroupsView>, fuel: nat)
        requires
            is_sound(nodes, roots),
            is_finite(nodes),
            keys_unbracketed(nodes),
            self.is_referential(nodes),
            forall|i: int| 0 <= i < roots.len() ==> groups_finite(#[trigger] roots[i]),
        ensures
            self.instantiate_roots(nodes, roots, fuel) matches Some((stage, ids)) ==> {
                &&& stage.is_referential(nodes)
                &&& stage.grew_from(self)
                &&& ids.len() == roots.len()
                &&& forall|i: int|
                    0 <= i < ids.len() ==> stage.all_group_references(#[trigger] ids[i]) && Stage::groups_stand(
                        ids[i],
                        roots[i],
                    )
            },
        decreases roots.len(),
    {
        if roots.len() > 0 {
            let before = roots.drop_last();
            assert forall|i: int| 0 <= i < before.len() implies (#[trigger] before[i]).leads_into(nodes) && groups_finite(
                before[i],
            ) by {
                assert(roots[i].leads_into(nodes) && groups_finite(roots[i]));
            }
            self.roots_refer(nodes, before, fuel);
            if let Some((stage, ids)) = self.instantiate_roots(nodes, before, fuel) {
                let last = roots.len() - 1;
                assert(roots[last].leads_into(nodes) && groups_finite(roots[last]));
                stage.root_refers(nodes, roots.last(), fuel);
                if let Some((after, more)) = stage.instantiate_root(nodes, roots.last(), fuel) {
                    after.grown_references(stage);
                    let all = ids.push(more);
                    assert forall|i: int| 0 <= i < all.len() implies after.all_group_references(#[trigger] all[i])
                        && Stage::groups_stand(all[i], roots[i]) by {
                        if i < ids.len() {
                            assert(roots[i] == before[i]);
                            assert(stage.all_group_references(ids[i]));
                            assert(after.all_references(ids[i].dependencies));
                            assert(after.all_references(ids[i].dev_dependencies));
                            assert(after.all_references(ids[i].optional_dependencies));
                        }
                    }
                }
            }
        }
    }
}

/// An importer has finitely many dependencies.
pub open spec fn groups_finite(groups: GroupsView) -> bool {
    groups.dependencies.dom().finite() && groups.dev_dependencies.dom().finite()
        && groups.optional_dependencies.dom().finite()
}

proof fn edges_in_order(edges: Map<Text, Text>, nodes: Map<Text, NodeView>)
    requires
        edges.dom().finite(),
        leads_into(edges, nodes),
    ensures
        forall|i: int| 0 <= i < sorted(edges.dom()).len() ==> nodes.contains_key(edges[#[trigger] sorted(edges.dom())[i]]),
        sorted(edges.dom()).to_set() == edges.dom(),
{
    let keys = sorted(edges.dom());
    sorted_properties(edges.dom());
    assert forall|i: int| 0 <= i < keys.len() implies nodes.contains_key(edges[#[trigger] keys[i]]) by {
        assert(keys.contains(keys[i]));
        assert(edges.contains_key(keys[i]));
    }
}

proof fn first_instance_exists(instances: Map<Text, InstanceDataView>, id: Text) -> (first: Text)
    requires
        instances.dom().finite(),
        instances.contains_key(id),
    ensures
        is_first_instance(instances, instances[id].key, first),
{
    let key = instances[id].key;
    let same_key = instances.dom().filter(|other: Text| instances[other].key == key);
    instances.dom().lemma_len_filter(|other: Text| instances[other].key == key);
    sorted_properties(same_key);
    let order = sorted(same_key);
    assert(same_key.contains(id));
    assert(order.contains(id));
    let first = order[0];
    assert(order.contains(first));
    assert forall|other: Text| #[trigger]
        instances.contains_key(other) && instances[other].key == key implies !text_less(other, first) by {
        assert(same_key.contains(other));
        assert(order.contains(other));
        let i = order.index_of(other);
        text_less_irreflexive(first);
        if i > 0 {
            assert(text_less(order[0], order[i]));
            text_less_total(first, other);
        }
    }
    first
}

/// Every edge leads to a package.
pub open spec fn refers_into(edges: Map<Text, Text>, packages: Map<Text, PackageView>) -> bool {
    forall|alias: Text| #[trigger] edges.contains_key(alias) ==> packages.contains_key(edges[alias])
}

proof fn settled_refers(stage: Stage, nodes: Map<Text, NodeView>, edges: Map<Text, Text>)
    requires
        stage.is_referential(nodes),
        stage.visiting == Set::<(Text, usize)>::empty(),
        stage.in_progress == Set::<MemoKeyView>::empty(),
        stage.all_references(edges),
    ensures
        refers_into(settled_edges(stage.instances, edges), locked_packages(nodes, stage.instances)),
{
    let instances = stage.instances;
    let made = settled_edges(instances, edges);
    assert forall|alias: Text| #[trigger] made.contains_key(alias) implies instances.contains_key(made[alias]) by {
        let id = edges[alias];
        assert(edges.contains_key(alias));
        assert(stage.is_reference(id));
        assert(!stage.visited(id)) by {
            assert forall|f: usize| !#[trigger] stage.visiting.contains((id, f)) by {}
        }
        assert(!stage.in_hand(id)) by {
            assert forall|c: Seq<Option<Text>>| !#[trigger] stage.in_progress.contains((id, c)) by {}
        }
        if !instances.contains_key(id) {
            let other = choose|i: Text| #[trigger] instances.contains_key(i) && instances[i].key == id;
            let first = first_instance_exists(instances, other);
            assert(is_first_instance(instances, id, first));
            assert(is_first_instance(instances, id, settled(instances, id)));
        }
        assert(made[alias] == settled(instances, id));
    }
}

/// Every dependency of a built package, and every dependency of an importer, leads to a built
/// package. Only where a package key held an opening bracket could two packages share an id, and one
/// of them be lost.
pub proof fn built_packages_refer(nodes: Map<Text, NodeView>, roots: Seq<GroupsView>, fuel: nat)
    requires
        is_sound(nodes, roots),
        is_finite(nodes),
        forall|i: int| 0 <= i < roots.len() ==> groups_finite(#[trigger] roots[i]),
        keys_unbracketed(nodes),
    ensures
        built_packages(nodes, roots, fuel) matches Some(Ok((packages, ids))) ==> {
            &&& forall|id: Text| #[trigger]
                packages.contains_key(id) ==> refers_into(packages[id].deps, packages) && refers_into(
                    packages[id].optional_deps,
                    packages,
                )
            &&& ids.len() == roots.len()
            &&& forall|i: int|
                0 <= i < ids.len() ==> refers_into((#[trigger] ids[i]).dependencies, packages) && refers_into(
                    ids[i].dev_dependencies,
                    packages,
                ) && refers_into(ids[i].optional_dependencies, packages)
        },
{
    let first = Stage::first();
    assert(first.is_referential(nodes));
    first.roots_refer(nodes, roots, fuel);
    if let Some((stage, made)) = first.instantiate_roots(nodes, roots, fuel) {
        let instances = stage.instances;
        let packages = locked_packages(nodes, instances);
        if first_unhashed(nodes, instances, sorted(instances.dom())) is None {
            assert forall|id: Text| #[trigger] packages.contains_key(id) implies refers_into(
                packages[id].deps,
                packages,
            ) && refers_into(packages[id].optional_deps, packages) by {
                assert(instances.contains_key(id));
                settled_refers(stage, nodes, instances[id].deps);
                settled_refers(stage, nodes, instances[id].optional_deps);
            }
            let ids = made.map_values(|groups: GroupsView| settled_groups(instances, groups));
            assert forall|i: int| 0 <= i < ids.len() implies refers_into((#[trigger] ids[i]).dependencies, packages)
                && refers_into(ids[i].dev_dependencies, packages) && refers_into(
                ids[i].optional_dependencies,
                packages,
            ) by {
                assert(stage.all_group_references(made[i]));
                settled_refers(stage, nodes, made[i].dependencies);
                settled_refers(stage, nodes, made[i].dev_dependencies);
                settled_refers(stage, nodes, made[i].optional_dependencies);
            }
        }
    }
}

/// The package `id` is the version `node`, with the tarball that its manifest gives and with what that
/// says of where it runs and of what it provides.
pub open spec fn is_package_of(packages: Map<Text, PackageView>, id: Text, node: NodeView) -> bool {
    &&& packages.contains_key(id)
    &&& packages[id].name == node.name
    &&& packages[id].version == node.version
    &&& packages[id].url == node.manifest.dist.tarball
    &&& node.manifest.dist.integrity == Some(packages[id].integrity)
    &&& packages[id].os == node.manifest.os
    &&& packages[id].cpu == node.manifest.cpu
    &&& packages[id].libc == node.manifest.libc
    &&& packages[id].has_bin == node.manifest.provides_bin()
    &&& packages[id].install_script == node.manifest.has_install_script
}

/// `ids` lead to packages of what `edges` lead to, and `ids` has nothing else.
pub open spec fn are_packages_of(
    packages: Map<Text, PackageView>,
    ids: Map<Text, Text>,
    nodes: Map<Text, NodeView>,
    edges: Map<Text, Text>,
) -> bool {
    ids.dom() == edges.dom() && forall|alias: Text| #[trigger]
        edges.contains_key(alias) ==> is_package_of(packages, ids[alias], nodes[edges[alias]])
}

/// The dependencies of `package` lead to packages of what was chosen for `node`. The peers that it
/// requires are there too, but which versions they are depends on what stands around it.
pub open spec fn has_packages_of(
    packages: Map<Text, PackageView>,
    package: PackageView,
    nodes: Map<Text, NodeView>,
    node: NodeView,
) -> bool {
    &&& forall|alias: Text| #[trigger]
        node.deps.contains_key(alias) && !node.optional_deps.contains_key(alias) && !node.peers.contains_key(alias)
            ==> package.deps.contains_key(alias) && is_package_of(
            packages,
            package.deps[alias],
            nodes[node.deps[alias]],
        )
    &&& package.optional_deps.dom().subset_of(node.optional_deps.dom())
    &&& forall|alias: Text| #[trigger]
        node.optional_deps.contains_key(alias) && !node.peers.contains_key(alias)
            ==> package.optional_deps.contains_key(alias) && is_package_of(
            packages,
            package.optional_deps[alias],
            nodes[node.optional_deps[alias]],
        )
    &&& forall|alias: Text| #[trigger]
        is_required_peer(node, alias) && !node.optional_deps.contains_key(alias) ==> package.deps.contains_key(alias)
}

/// Every instance has an integrity hash.
spec fn all_hashed(nodes: Map<Text, NodeView>, instances: Map<Text, InstanceDataView>) -> bool {
    forall|id: Text| #[trigger]
        instances.contains_key(id) ==> nodes[instances[id].key].manifest.dist.integrity is Some
}

proof fn none_unhashed(nodes: Map<Text, NodeView>, instances: Map<Text, InstanceDataView>, ids: Seq<Text>)
    requires
        first_unhashed(nodes, instances, ids) is None,
    ensures
        forall|i: int| 0 <= i < ids.len() ==> nodes[instances[#[trigger] ids[i]].key].manifest.dist.integrity is Some,
    decreases ids.len(),
{
    if ids.len() > 0 {
        none_unhashed(nodes, instances, ids.skip(1));
        assert forall|i: int| 0 <= i < ids.len() implies nodes[instances[#[trigger] ids[i]].key].manifest.dist.integrity is Some by {
            if i > 0 {
                assert(ids.skip(1)[i - 1] == ids[i]);
            }
        }
    }
}

proof fn settled_stands(stage: Stage, nodes: Map<Text, NodeView>, id: Text, key: Text)
    requires
        keys_unbracketed(nodes),
        stage.is_referential(nodes),
        stage.visiting == Set::<(Text, usize)>::empty(),
        stage.in_progress == Set::<MemoKeyView>::empty(),
        all_hashed(nodes, stage.instances),
        stage.is_reference(id),
        nodes.contains_key(key),
        is_id_of(id, key),
    ensures
        is_package_of(locked_packages(nodes, stage.instances), settled(stage.instances, id), nodes[key]),
{
    let instances = stage.instances;
    assert(!stage.visited(id)) by {
        assert forall|f: usize| !#[trigger] stage.visiting.contains((id, f)) by {}
    }
    assert(!stage.in_hand(id)) by {
        assert forall|c: Seq<Option<Text>>| !#[trigger] stage.in_progress.contains((id, c)) by {}
    }
    if instances.contains_key(id) {
        id_has_one_key(id, key, instances[id].key);
    } else {
        let other = choose|i: Text| #[trigger] instances.contains_key(i) && instances[i].key == id;
        key_is_own_id(id);
        id_has_one_key(id, key, id);
        let first = first_instance_exists(instances, other);
        assert(is_first_instance(instances, id, first));
        assert(is_first_instance(instances, id, settled(instances, id)));
    }
}

proof fn settled_edges_stand(stage: Stage, nodes: Map<Text, NodeView>, ids: Map<Text, Text>, edges: Map<Text, Text>)
    requires
        keys_unbracketed(nodes),
        stage.is_referential(nodes),
        stage.visiting == Set::<(Text, usize)>::empty(),
        stage.in_progress == Set::<MemoKeyView>::empty(),
        all_hashed(nodes, stage.instances),
        stage.all_references(ids),
        leads_into(edges, nodes),
        ids_stand(ids, edges, edges.dom()),
    ensures
        are_packages_of(
            locked_packages(nodes, stage.instances),
            settled_edges(stage.instances, ids),
            nodes,
            edges,
        ),
{
    let made = settled_edges(stage.instances, ids);
    assert(made.dom() =~= edges.dom());
    assert forall|alias: Text| #[trigger] edges.contains_key(alias) implies is_package_of(
        locked_packages(nodes, stage.instances),
        made[alias],
        nodes[edges[alias]],
    ) by {
        assert(edges.dom().contains(alias));
        assert(ids.contains_key(alias));
        settled_stands(stage, nodes, ids[alias], edges[alias]);
    }
}

/// Every built package is one of the versions that were chosen, and it and the importers depend on
/// packages of the very versions that were chosen for them.
pub proof fn built_packages_stand(nodes: Map<Text, NodeView>, roots: Seq<GroupsView>, fuel: nat)
    requires
        is_sound(nodes, roots),
        is_finite(nodes),
        forall|i: int| 0 <= i < roots.len() ==> groups_finite(#[trigger] roots[i]),
        keys_unbracketed(nodes),
    ensures
        built_packages(nodes, roots, fuel) matches Some(Ok((packages, ids))) ==> {
            &&& ids.len() == roots.len()
            &&& forall|i: int|
                0 <= i < ids.len() ==> {
                    &&& are_packages_of(packages, (#[trigger] ids[i]).dependencies, nodes, roots[i].dependencies)
                    &&& are_packages_of(packages, ids[i].dev_dependencies, nodes, roots[i].dev_dependencies)
                    &&& are_packages_of(packages, ids[i].optional_dependencies, nodes, roots[i].optional_dependencies)
                }
            &&& forall|id: Text| #[trigger]
                packages.contains_key(id) ==> exists|key: Text| #[trigger]
                    nodes.contains_key(key) && is_package_of(packages, id, nodes[key]) && has_packages_of(
                        packages,
                        packages[id],
                        nodes,
                        nodes[key],
                    )
        },
{
    let first = Stage::first();
    assert(first.is_referential(nodes));
    first.roots_refer(nodes, roots, fuel);
    if let Some((stage, made)) = first.instantiate_roots(nodes, roots, fuel) {
        let instances = stage.instances;
        let packages = locked_packages(nodes, instances);
        if first_unhashed(nodes, instances, sorted(instances.dom())) is None {
            let order = sorted(instances.dom());
            none_unhashed(nodes, instances, order);
            sorted_properties(instances.dom());
            assert forall|id: Text| #[trigger]
                instances.contains_key(id) implies nodes[instances[id].key].manifest.dist.integrity is Some by {
                assert(order.contains(id));
                assert(order[order.index_of(id)] == id);
            }
            let ids = made.map_values(|groups: GroupsView| settled_groups(instances, groups));
            assert forall|i: int| 0 <= i < ids.len() implies {
                &&& are_packages_of(packages, (#[trigger] ids[i]).dependencies, nodes, roots[i].dependencies)
                &&& are_packages_of(packages, ids[i].dev_dependencies, nodes, roots[i].dev_dependencies)
                &&& are_packages_of(packages, ids[i].optional_dependencies, nodes, roots[i].optional_dependencies)
            } by {
                assert(stage.all_group_references(made[i]) && Stage::groups_stand(made[i], roots[i]));
                assert(roots[i].leads_into(nodes));
                settled_edges_stand(stage, nodes, made[i].dependencies, roots[i].dependencies);
                settled_edges_stand(stage, nodes, made[i].dev_dependencies, roots[i].dev_dependencies);
                settled_edges_stand(stage, nodes, made[i].optional_dependencies, roots[i].optional_dependencies);
            }
            assert forall|id: Text| #[trigger] packages.contains_key(id) implies exists|key: Text| #[trigger]
                nodes.contains_key(key) && is_package_of(packages, id, nodes[key]) && has_packages_of(
                    packages,
                    packages[id],
                    nodes,
                    nodes[key],
                ) by {
                let data = instances[id];
                let node = nodes[data.key];
                assert(instances.contains_key(id));
                assert(nodes.contains_key(data.key));
                assert(node.leads_into(nodes));
                assert(has_packages_of(packages, packages[id], nodes, node)) by {
                    assert forall|alias: Text| #[trigger]
                        node.deps.contains_key(alias) && !node.optional_deps.contains_key(alias)
                            && !node.peers.contains_key(alias) implies packages[id].deps.contains_key(alias)
                        && is_package_of(packages, packages[id].deps[alias], nodes[node.deps[alias]]) by {
                        assert(data.deps.contains_key(alias));
                        settled_stands(stage, nodes, data.deps[alias], node.deps[alias]);
                    }
                    assert(packages[id].optional_deps.dom() =~= data.optional_deps.dom());
                    assert forall|alias: Text| #[trigger]
                        node.optional_deps.contains_key(alias) && !node.peers.contains_key(
                            alias,
                        ) implies packages[id].optional_deps.contains_key(alias) && is_package_of(
                        packages,
                        packages[id].optional_deps[alias],
                        nodes[node.optional_deps[alias]],
                    ) by {
                        assert(data.optional_deps.contains_key(alias));
                        settled_stands(stage, nodes, data.optional_deps[alias], node.optional_deps[alias]);
                    }
                }
            }
        }
    }
}

/// Only a package without an integrity hash keeps packages from being built.
pub proof fn hashed_packages_are_built(nodes: Map<Text, NodeView>, roots: Seq<GroupsView>, fuel: nat)
    requires
        is_sound(nodes, roots),
        is_finite(nodes),
        forall|i: int| 0 <= i < roots.len() ==> groups_finite(#[trigger] roots[i]),
        keys_unbracketed(nodes),
        forall|key: Text| #[trigger] nodes.contains_key(key) ==> nodes[key].manifest.dist.integrity is Some,
    ensures
        built_packages(nodes, roots, fuel) matches Some(built) ==> built is Ok,
{
    let first = Stage::first();
    assert(first.is_referential(nodes));
    first.roots_refer(nodes, roots, fuel);
    if let Some((stage, _)) = first.instantiate_roots(nodes, roots, fuel) {
        let ids = sorted(stage.instances.dom());
        sorted_properties(stage.instances.dom());
        assert forall|i: int| 0 <= i < ids.len() implies nodes[stage.instances[#[trigger] ids[i]].key].manifest.dist.integrity is Some by {
            assert(ids.contains(ids[i]));
            assert(stage.instances.contains_key(ids[i]));
        }
        hashed_pass(nodes, stage.instances, ids);
    }
}

proof fn hashed_pass(nodes: Map<Text, NodeView>, instances: Map<Text, InstanceDataView>, ids: Seq<Text>)
    requires
        forall|i: int| 0 <= i < ids.len() ==> nodes[instances[#[trigger] ids[i]].key].manifest.dist.integrity is Some,
    ensures
        first_unhashed(nodes, instances, ids) is None,
    decreases ids.len(),
{
    if ids.len() > 0 {
        let rest = ids.skip(1);
        assert(nodes[instances[ids[0]].key].manifest.dist.integrity is Some);
        assert forall|i: int| 0 <= i < rest.len() implies nodes[instances[#[trigger] rest[i]].key].manifest.dist.integrity is Some by {
            assert(rest[i] == ids[i + 1]);
        }
        hashed_pass(nodes, instances, rest);
    }
}

} // verus!
