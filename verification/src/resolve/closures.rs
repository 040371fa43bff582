//! Which peers a package may need from outside, and what stands in for the optional ones.
use vstd::prelude::*;

use crate::dict::{sorted, sorted_properties, taken_one_more, Dict, Names};
use crate::resolve::chooser::{is_closed, leads_into, Node, NodeView};
use crate::text::{text_less, text_less_irreflexive, text_less_total, Text};
use crate::version::{
    parsed_version, version_less, version_less_irreflexive, version_less_total, version_less_transitive, Version,
    VersionView,
};

verus! {

impl NodeView {
    /// `child` is a dependency of this node.
    pub open spec fn has_child(self, child: Text) -> bool {
        self.deps.values().contains(child) || self.optional_deps.values().contains(child)
            || self.auto_peers.values().contains(child)
    }

    /// This node has a dependency of its own under `name`.
    pub open spec fn provides(self, name: Text) -> bool {
        self.deps.contains_key(name) || self.optional_deps.contains_key(name)
    }
}

/// `path` goes down from dependency to dependency to a package with the peer `name`, which none on
/// the way to it provides.
pub open spec fn is_peer_path(nodes: Map<Text, NodeView>, path: Seq<Text>, name: Text) -> bool {
    &&& path.len() > 0
    &&& forall|i: int| 0 <= i < path.len() ==> nodes.contains_key(#[trigger] path[i])
    &&& forall|i: int|
        0 <= i < path.len() - 1 ==> nodes[#[trigger] path[i]].has_child(path[i + 1]) && !nodes[path[i]].provides(name)
    &&& nodes[path.last()].peers.contains_key(name)
}

/// The peer names that `key` and what is below it may take from outside.
pub open spec fn closure_of(nodes: Map<Text, NodeView>, key: Text) -> Set<Text> {
    Set::new(|name: Text| exists|path: Seq<Text>| path.len() > 0 && path[0] == key && is_peer_path(nodes, path, name))
}

/// The peer names that each node may take from outside.
pub open spec fn closures_of(nodes: Map<Text, NodeView>) -> Map<Text, Set<Text>> {
    Map::new(|key: Text| nodes.contains_key(key), |key: Text| closure_of(nodes, key))
}

proof fn peer_in_closure(nodes: Map<Text, NodeView>, key: Text, name: Text)
    requires
        nodes.contains_key(key),
        nodes[key].peers.contains_key(name),
    ensures
        closure_of(nodes, key).contains(name),
{
    let path = seq![key];
    assert(is_peer_path(nodes, path, name));
}

proof fn child_closure_in_closure(nodes: Map<Text, NodeView>, key: Text, child: Text, name: Text)
    requires
        nodes.contains_key(key),
        nodes[key].has_child(child),
        !nodes[key].provides(name),
        closure_of(nodes, child).contains(name),
    ensures
        closure_of(nodes, key).contains(name),
{
    let below = choose|path: Seq<Text>| path.len() > 0 && path[0] == child && is_peer_path(nodes, path, name);
    let path = seq![key] + below;
    assert forall|i: int| 0 <= i < path.len() implies nodes.contains_key(#[trigger] path[i]) by {
        if i > 0 {
            assert(path[i] == below[i - 1]);
        }
    }
    assert forall|i: int| 0 <= i < path.len() - 1 implies nodes[#[trigger] path[i]].has_child(path[i + 1])
        && !nodes[path[i]].provides(name) by {
        if i > 0 {
            assert(path[i] == below[i - 1] && path[i + 1] == below[i]);
        }
    }
    assert(path.last() == below.last());
    assert(path[0] == key && is_peer_path(nodes, path, name));
}

/// Nothing can be added to `closures`.
spec fn is_full(nodes: Map<Text, NodeView>, closures: Map<Text, Set<Text>>) -> bool {
    forall|key: Text, child: Text, name: Text|
        nodes.contains_key(key) && nodes.contains_key(child) && #[trigger] nodes[key].has_child(child)
            && #[trigger] closures[child].contains(name) && !nodes[key].provides(name) ==> closures[key].contains(
            name,
        )
}

proof fn full_holds_path(
    nodes: Map<Text, NodeView>,
    closures: Map<Text, Set<Text>>,
    path: Seq<Text>,
    name: Text,
)
    requires
        is_full(nodes, closures),
        forall|key: Text, name: Text|
            nodes.contains_key(key) && nodes[key].peers.contains_key(name) ==> #[trigger] closures[key].contains(name),
        is_peer_path(nodes, path, name),
    ensures
        closures[path[0]].contains(name),
    decreases path.len(),
{
    if path.len() > 1 {
        let below = path.skip(1);
        assert forall|i: int| 0 <= i < below.len() implies nodes.contains_key(#[trigger] below[i]) by {
            assert(nodes.contains_key(path[i + 1]));
        }
        assert forall|i: int| 0 <= i < below.len() - 1 implies nodes[#[trigger] below[i]].has_child(below[i + 1])
            && !nodes[below[i]].provides(name) by {
            assert(nodes[path[i + 1]].has_child(path[i + 2]) && !nodes[path[i + 1]].provides(name));
        }
        assert(below.last() == path.last());
        full_holds_path(nodes, closures, below, name);
        assert(nodes[path[0]].has_child(path[1]));
        assert(closures[path[1]].contains(name));
    }
}

/// How much is missing from `closures` at most.
spec fn missing(keys: Seq<Text>, closures: Map<Text, Set<Text>>, all: Set<Text>) -> nat
    decreases keys.len(),
{
    if keys.len() == 0 {
        0
    } else {
        missing(keys.drop_last(), closures, all) + all.difference(closures[keys.last()]).len()
    }
}

proof fn missing_unchanged(keys: Seq<Text>, closures: Map<Text, Set<Text>>, all: Set<Text>, key: Text, more: Set<Text>)
    requires
        !keys.contains(key),
    ensures
        missing(keys, closures.insert(key, more), all) == missing(keys, closures, all),
    decreases keys.len(),
{
    if keys.len() > 0 {
        assert(keys.last() != key) by {
            assert(keys[keys.len() - 1] == keys.last());
        }
        assert forall|x: Text| keys.drop_last().contains(x) implies keys.contains(x) by {
            assert(keys[keys.drop_last().index_of(x)] == x);
        }
        missing_unchanged(keys.drop_last(), closures, all, key, more);
    }
}

proof fn missing_less(keys: Seq<Text>, closures: Map<Text, Set<Text>>, all: Set<Text>, key: Text, more: Set<Text>)
    requires
        keys.no_duplicates(),
        keys.contains(key),
        all.finite(),
        closures[key].subset_of(more),
        exists|name: Text| more.contains(name) && !closures[key].contains(name) && all.contains(name),
    ensures
        missing(keys, closures.insert(key, more), all) < missing(keys, closures, all),
    decreases keys.len(),
{
    let shorter = keys.drop_last();
    assert forall|x: Text| shorter.contains(x) implies keys.contains(x) by {
        assert(keys[shorter.index_of(x)] == x);
    }
    if keys.last() == key {
        assert(!shorter.contains(key));
        missing_unchanged(shorter, closures, all, key, more);
        let name = choose|name: Text| more.contains(name) && !closures[key].contains(name) && all.contains(name);
        let (left, right) = (all.difference(more), all.difference(closures[key]));
        assert(left.subset_of(right.remove(name)));
        vstd::set_lib::lemma_len_subset(left, right.remove(name));
    } else {
        let at = keys.index_of(key);
        assert(shorter[at] == key);
        assert(shorter.no_duplicates());
        missing_less(shorter, closures, all, key, more);
    }
}

/// The names in the closures that `edges` lead to, without what `node` provides and what it has.
spec fn gathered(
    closures: Map<Text, Set<Text>>,
    node: NodeView,
    edges: Map<Text, Text>,
    own: Set<Text>,
    name: Text,
) -> bool {
    &&& exists|alias: Text| #[trigger] edges.contains_key(alias) && closures[edges[alias]].contains(name)
    &&& !node.provides(name)
    &&& !own.contains(name)
}

fn gather(closures: &Dict<Names>, node: &Node, edges: &Dict<String>, own: &Names, additions: &mut Names)
    requires
        forall|alias: Text| #[trigger] edges@.contains_key(alias) ==> closures@.contains_key(edges@[alias]),
    ensures
        forall|name: Text| #[trigger]
            final(additions)@.contains(name) <==> old(additions)@.contains(name) || gathered(
                closures@,
                node@,
                edges@,
                own@,
                name,
            ),
{
    let ghost before = additions@;
    let ghost aliases = sorted(edges@.dom());
    let n: usize = edges.len();
    proof {
        sorted_properties(edges@.dom());
    }
    let mut i: usize = 0;
    while i < n
        invariant
            i <= n,
            n == aliases.len(),
            aliases == sorted(edges@.dom()),
            forall|alias: Text| #[trigger] edges@.contains_key(alias) ==> closures@.contains_key(edges@[alias]),
            forall|x: Text| #[trigger] aliases.contains(x) == edges@.dom().contains(x),
            forall|name: Text| #[trigger]
                additions@.contains(name) ==> before.contains(name) || gathered(closures@, node@, edges@, own@, name),
            forall|name: Text| before.contains(name) ==> #[trigger] additions@.contains(name),
            forall|j: int, name: Text|
                0 <= j < i && closures@[edges@[#[trigger] aliases[j]]].contains(name) && !node@.provides(name)
                    && !own@.contains(name) ==> #[trigger] additions@.contains(name),
        decreases n - i,
    {
        let child = edges.value(i);
        let ghost alias = aliases[i as int];
        assert(aliases.contains(alias));
        assert(edges@.contains_key(alias));
        if let Some(names) = closures.get(child.as_str()) {
            let m: usize = names.len();
            let ghost list = sorted(names@);
            proof {
                sorted_properties(names@);
            }
            let mut k: usize = 0;
            while k < m
                invariant
                    k <= m,
                    m == list.len(),
                    list == sorted(names@),
                    i < n,
                    n == aliases.len(),
                    alias == aliases[i as int],
                    edges@.contains_key(alias),
                    names@ == closures@[edges@[alias]],
                    forall|x: Text| #[trigger] list.contains(x) == names@.contains(x),
                    forall|name: Text| #[trigger]
                        additions@.contains(name) ==> before.contains(name) || gathered(
                            closures@,
                            node@,
                            edges@,
                            own@,
                            name,
                        ),
                    forall|name: Text| before.contains(name) ==> #[trigger] additions@.contains(name),
                    forall|j: int, name: Text|
                        0 <= j < i && closures@[edges@[#[trigger] aliases[j]]].contains(name) && !node@.provides(name)
                            && !own@.contains(name) ==> #[trigger] additions@.contains(name),
                    forall|l: int|
                        0 <= l < k && !node@.provides(#[trigger] list[l]) && !own@.contains(list[l])
                            ==> additions@.contains(list[l]),
                decreases m - k,
            {
                let name = names.at(k);
                assert(list.contains(list[k as int]));
                if !node.deps.contains_key(name.as_str()) && !node.optional_deps.contains_key(name.as_str())
                    && !own.contains(name.as_str()) {
                    assert(gathered(closures@, node@, edges@, own@, name@));
                    additions.insert(name.clone());
                }
                k += 1;
            }
            assert forall|name: Text|
                closures@[edges@[alias]].contains(name) && !node@.provides(name) && !own@.contains(
                    name,
                ) implies #[trigger] additions@.contains(name) by {
                assert(list.contains(name));
                let l = list.index_of(name);
                assert(list[l] == name);
            }
        }
        i += 1;
    }
    assert forall|name: Text| gathered(closures@, node@, edges@, own@, name) implies #[trigger] additions@.contains(
        name,
    ) by {
        let alias = choose|alias: Text| #[trigger]
            edges@.contains_key(alias) && closures@[edges@[alias]].contains(name);
        assert(aliases.contains(alias));
        let j = aliases.index_of(alias);
        assert(aliases[j] == alias);
    }
}

spec fn is_partial(nodes: Map<Text, NodeView>, closures: Map<Text, Set<Text>>) -> bool {
    &&& closures.dom() == nodes.dom()
    &&& forall|key: Text, name: Text|
        nodes.contains_key(key) && #[trigger] closures[key].contains(name) ==> closure_of(nodes, key).contains(name)
    &&& forall|key: Text, name: Text|
        nodes.contains_key(key) && nodes[key].peers.contains_key(name) ==> #[trigger] closures[key].contains(name)
}

spec fn all_in(nodes: Map<Text, NodeView>, closures: Map<Text, Set<Text>>, all: Set<Text>) -> bool {
    forall|key: Text, name: Text| nodes.contains_key(key) && #[trigger] closures[key].contains(name) ==> all.contains(name)
}

/// The peer names that each node has itself.
fn own_peers(nodes: &Dict<Node>) -> (result: (Dict<Names>, Ghost<Set<Text>>))
    ensures
        is_partial(nodes@, result.0@),
        result.1@.finite(),
        all_in(nodes@, result.0@, result.1@),
{
    let mut closures: Dict<Names> = Dict::new();
    let ghost mut all: Set<Text> = Set::empty();
    let n: usize = nodes.len();
    let ghost keys = sorted(nodes@.dom());
    proof {
        sorted_properties(nodes@.dom());
        assert(keys.take(0).to_set() =~= Set::<Text>::empty());
        assert(closures@.dom() =~= keys.take(0).to_set());
    }
    let mut i: usize = 0;
    while i < n
        invariant
            i <= n,
            n == keys.len(),
            keys == sorted(nodes@.dom()),
            keys.no_duplicates(),
            forall|x: Text| #[trigger] keys.contains(x) == nodes@.dom().contains(x),
            closures@.dom() == keys.take(i as int).to_set(),
            all.finite(),
            forall|key: Text| #[trigger] closures@.contains_key(key) ==> closures@[key] == nodes@[key].peers.dom(),
            forall|key: Text, name: Text|
                closures@.contains_key(key) && #[trigger] closures@[key].contains(name) ==> all.contains(name),
        decreases n - i,
    {
        let node = nodes.value(i);
        let mut names = Names::new();
        let m: usize = node.peers.len();
        let ghost peers = sorted(node@.peers.dom());
        proof {
            sorted_properties(node@.peers.dom());
            assert(peers.take(0).to_set() =~= Set::<Text>::empty());
        }
        let mut k: usize = 0;
        while k < m
            invariant
                k <= m,
                m == peers.len(),
                peers == sorted(node@.peers.dom()),
                names@ == peers.take(k as int).to_set(),
            decreases m - k,
        {
            names.insert(node.peers.key(k).clone());
            proof {
                taken_one_more(peers, k as int);
            }
            k += 1;
        }
        proof {
            assert(peers.take(k as int) =~= peers);
            assert(names@ =~= node@.peers.dom());
            taken_one_more(keys, i as int);
        }
        let _ = names.len();
        let ghost before = closures@;
        let ghost meaning = names@;
        closures.insert(nodes.key(i).clone(), names);
        proof {
            all = all.union(meaning);
            assert(closures@.dom() =~= keys.take(i + 1).to_set());
            assert forall|key: Text, name: Text|
                closures@.contains_key(key) && #[trigger] closures@[key].contains(name) implies all.contains(name) by {
                if key != keys[i as int] {
                    assert(before.contains_key(key) && before[key].contains(name));
                }
            }
        }
        i += 1;
    }
    proof {
        assert(keys.take(i as int) =~= keys);
        assert(closures@.dom() =~= nodes@.dom());
        assert forall|key: Text, name: Text|
            nodes@.contains_key(key) && #[trigger] closures@[key].contains(name) implies closure_of(
            nodes@,
            key,
        ).contains(name) by {
            assert(closures@.contains_key(key));
            peer_in_closure(nodes@, key, name);
        }
        assert forall|key: Text, name: Text|
            nodes@.contains_key(key) && nodes@[key].peers.contains_key(name) implies #[trigger] closures@[key].contains(
            name,
        ) by {
            assert(closures@.contains_key(key));
        }
    }
    (closures, Ghost(all))
}

/// Adds to the closure of the node at place `i` what its dependencies bring, and tells whether that
/// was anything.
fn grow(nodes: &Dict<Node>, closures: &mut Dict<Names>, i: usize, Ghost(all): Ghost<Set<Text>>) -> (result: bool)
    requires
        is_closed(nodes@),
        i < sorted(nodes@.dom()).len(),
        is_partial(nodes@, old(closures)@),
        all_in(nodes@, old(closures)@, all),
        all.finite(),
    ensures
        is_partial(nodes@, final(closures)@),
        all_in(nodes@, final(closures)@, all),
        result ==> missing(sorted(nodes@.dom()), final(closures)@, all) < missing(
            sorted(nodes@.dom()),
            old(closures)@,
            all,
        ),
        !result ==> final(closures)@ == old(closures)@ && forall|child: Text, name: Text|
            nodes@.contains_key(child) && #[trigger] nodes@[sorted(nodes@.dom())[i as int]].has_child(child)
                && #[trigger] final(closures)@[child].contains(name) && !nodes@[sorted(
                nodes@.dom(),
            )[i as int]].provides(name) ==> final(closures)@[sorted(nodes@.dom())[i as int]].contains(name),
{
    let ghost keys = sorted(nodes@.dom());
    let _ = nodes.len();
    proof {
        sorted_properties(nodes@.dom());
    }
    let key = nodes.key(i);
    let node = nodes.value(i);
    let ghost before = closures@;
    let ghost had = before[key@];
    let mut additions = Names::new();
    assert(node@.leads_into(nodes@));
    {
        let own = closures.get(key.as_str()).unwrap();
        gather(closures, node, &node.deps, own, &mut additions);
        gather(closures, node, &node.optional_deps, own, &mut additions);
        gather(closures, node, &node.auto_peers, own, &mut additions);
    }
    proof {
        assert forall|child: Text, name: Text|
            nodes@.contains_key(child) && #[trigger] node@.has_child(child) && #[trigger] before[child].contains(name)
                && !node@.provides(name) && !had.contains(name) implies additions@.contains(name) by {
            if node@.deps.values().contains(child) {
                let alias = choose|alias: Text| #[trigger]
                    node@.deps.dom().contains(alias) && node@.deps[alias] == child;
                assert(node@.deps.contains_key(alias));
                assert(gathered(before, node@, node@.deps, had, name));
            } else if node@.optional_deps.values().contains(child) {
                let alias = choose|alias: Text| #[trigger]
                    node@.optional_deps.dom().contains(alias) && node@.optional_deps[alias] == child;
                assert(node@.optional_deps.contains_key(alias));
                assert(gathered(before, node@, node@.optional_deps, had, name));
            } else {
                let alias = choose|alias: Text| #[trigger]
                    node@.auto_peers.dom().contains(alias) && node@.auto_peers[alias] == child;
                assert(node@.auto_peers.contains_key(alias));
                assert(gathered(before, node@, node@.auto_peers, had, name));
            }
        }
        assert forall|name: Text| #[trigger] additions@.contains(name) implies !had.contains(name) && all.contains(
            name,
        ) && closure_of(nodes@, key@).contains(name) by {
            let child = bringer(nodes@, before, node@, had, name);
            child_closure_in_closure(nodes@, key@, child, name);
        }
    }
    let n: usize = additions.len();
    if n == 0 {
        assert forall|child: Text, name: Text|
            nodes@.contains_key(child) && #[trigger] node@.has_child(child) && #[trigger] closures@[child].contains(
                name,
            ) && !node@.provides(name) implies closures@[key@].contains(name) by {
            if !had.contains(name) {
                assert(additions@.contains(name));
            }
        }
        return false;
    }
    let ghost list = sorted(additions@);
    let mut own = closures.remove(key.as_str()).unwrap();
    proof {
        sorted_properties(additions@);
        assert(list.take(0).to_set() =~= Set::<Text>::empty());
        assert(had.union(list.take(0).to_set()) =~= had);
    }
    let mut k: usize = 0;
    while k < n
        invariant
            k <= n,
            n == list.len(),
            list == sorted(additions@),
            own@ == had.union(list.take(k as int).to_set()),
        decreases n - k,
    {
        own.insert(additions.at(k).clone());
        proof {
            taken_one_more(list, k as int);
            assert(own@ =~= had.union(list.take(k + 1).to_set()));
        }
        k += 1;
    }
    assert(list.take(k as int) =~= list);
    let ghost more = own@;
    assert(more =~= had.union(additions@));
    closures.insert(key.clone(), own);
    proof {
        assert(closures@ =~= before.insert(key@, more));
        assert(keys.contains(key@));
        assert(list.contains(list[0]));
        assert(additions@.contains(list[0]));
        missing_less(keys, before, all, key@, more);
        assert(closures@.dom() =~= nodes@.dom());
        assert forall|k: Text, name: Text|
            nodes@.contains_key(k) && #[trigger] closures@[k].contains(name) implies closure_of(nodes@, k).contains(
            name,
        ) && all.contains(name) by {
            if k != key@ {
                assert(before[k].contains(name));
            } else if had.contains(name) {
                assert(before[k].contains(name));
            } else {
                assert(additions@.contains(name));
            }
        }
        assert forall|k: Text, name: Text|
            nodes@.contains_key(k) && nodes@[k].peers.contains_key(name) implies #[trigger] closures@[k].contains(
            name,
        ) by {
            assert(before[k].contains(name));
        }
    }
    true
}

proof fn bringer(
    nodes: Map<Text, NodeView>,
    closures: Map<Text, Set<Text>>,
    node: NodeView,
    own: Set<Text>,
    name: Text,
) -> (child: Text)
    requires
        is_partial(nodes, closures),
        node.leads_into(nodes),
        gathered(closures, node, node.deps, own, name) || gathered(closures, node, node.optional_deps, own, name)
            || gathered(closures, node, node.auto_peers, own, name),
    ensures
        nodes.contains_key(child),
        node.has_child(child),
        closures[child].contains(name),
        closure_of(nodes, child).contains(name),
        !node.provides(name),
        !own.contains(name),
{
    let edges = if gathered(closures, node, node.deps, own, name) {
        node.deps
    } else if gathered(closures, node, node.optional_deps, own, name) {
        node.optional_deps
    } else {
        node.auto_peers
    };
    let alias = choose|alias: Text| #[trigger] edges.contains_key(alias) && closures[edges[alias]].contains(name);
    assert(edges.dom().contains(alias));
    edges[alias]
}

/// Peer names that what is below a node may resolve from outside it.
pub fn peer_closures(nodes: &Dict<Node>) -> (result: Dict<Names>)
    requires
        is_closed(nodes@),
    ensures
        result@ == closures_of(nodes@),
{
    let (mut closures, all) = own_peers(nodes);
    let ghost all = all@;
    let n: usize = nodes.len();
    let ghost keys = sorted(nodes@.dom());
    proof {
        sorted_properties(nodes@.dom());
    }
    loop
        invariant
            is_closed(nodes@),
            n == keys.len(),
            keys == sorted(nodes@.dom()),
            forall|x: Text| #[trigger] keys.contains(x) == nodes@.dom().contains(x),
            is_partial(nodes@, closures@),
            all_in(nodes@, closures@, all),
            all.finite(),
        decreases missing(keys, closures@, all),
    {
        let mut changed = false;
        let ghost before = closures@;
        let mut i: usize = 0;
        while i < n
            invariant
                i <= n,
                is_closed(nodes@),
                n == keys.len(),
                keys == sorted(nodes@.dom()),
                is_partial(nodes@, closures@),
                all_in(nodes@, closures@, all),
                all.finite(),
                changed ==> missing(keys, closures@, all) < missing(keys, before, all),
                !changed ==> closures@ == before,
                !changed ==> forall|j: int, child: Text, name: Text|
                    0 <= j < i && nodes@.contains_key(child) && #[trigger] nodes@[keys[j]].has_child(child)
                        && #[trigger] closures@[child].contains(name) && !nodes@[keys[j]].provides(name)
                        ==> closures@[keys[j]].contains(name),
            decreases n - i,
        {
            let ghost here = closures@;
            if grow(nodes, &mut closures, i, Ghost(all)) {
                changed = true;
            }
            i += 1;
        }
        if !changed {
            proof {
                assert forall|key: Text, child: Text, name: Text|
                    nodes@.contains_key(key) && nodes@.contains_key(child) && #[trigger] nodes@[key].has_child(child)
                        && #[trigger] closures@[child].contains(name) && !nodes@[key].provides(
                        name,
                    ) implies closures@[key].contains(name) by {
                    assert(keys.contains(key));
                    let j = keys.index_of(key);
                    assert(nodes@[keys[j]].has_child(child));
                }
                assert(is_full(nodes@, closures@));
                let expected = closures_of(nodes@);
                assert forall|key: Text| nodes@.contains_key(key) implies #[trigger] closures@[key] == expected[key] by {
                    assert forall|name: Text| closure_of(nodes@, key).contains(name) implies closures@[key].contains(
                        name,
                    ) by {
                        let path = choose|path: Seq<Text>|
                            path.len() > 0 && path[0] == key && is_peer_path(nodes@, path, name);
                        full_holds_path(nodes@, closures@, path, name);
                    }
                    assert(closures@[key] =~= closure_of(nodes@, key));
                }
                assert(closures@ =~= expected);
            }
            return closures;
        }
    }
}

/// `name` is an optional peer of some node.
pub open spec fn is_optional_peer(nodes: Map<Text, NodeView>, name: Text) -> bool {
    exists|key: Text| #[trigger]
        nodes.contains_key(key) && nodes[key].peers.contains_key(name) && nodes[key].peers[name]
}

/// `key`, one of `keys`, is a version of `name`.
pub open spec fn is_version_of(nodes: Map<Text, NodeView>, keys: Set<Text>, name: Text, key: Text) -> bool {
    keys.contains(key) && nodes[key].name == name && parsed_version(nodes[key].version) is Some
}

/// The version of a node that has one.
pub open spec fn node_version(nodes: Map<Text, NodeView>, key: Text) -> VersionView {
    parsed_version(nodes[key].version)->0
}

/// `key` is the highest version of `name` among `keys`, or the first of several as high.
pub open spec fn is_best_version(nodes: Map<Text, NodeView>, keys: Set<Text>, name: Text, key: Text) -> bool {
    &&& is_version_of(nodes, keys, name, key)
    &&& forall|other: Text| #[trigger]
        is_version_of(nodes, keys, name, other) ==> !version_less(node_version(nodes, key), node_version(nodes, other))
            && (version_less(node_version(nodes, other), node_version(nodes, key)) || !text_less(other, key))
}

/// Optional peers that no ancestor provides fall back to the highest version anywhere in the graph.
pub open spec fn fallbacks_of(nodes: Map<Text, NodeView>) -> Map<Text, Text> {
    Map::new(
        |name: Text| is_optional_peer(nodes, name) && exists|key: Text| is_best_version(nodes, nodes.dom(), name, key),
        |name: Text| choose|key: Text| is_best_version(nodes, nodes.dom(), name, key),
    )
}

/// No two nodes are the best version of a name.
pub proof fn best_version_is_unique(nodes: Map<Text, NodeView>, keys: Set<Text>, name: Text, a: Text, b: Text)
    requires
        is_best_version(nodes, keys, name, a),
        is_best_version(nodes, keys, name, b),
    ensures
        a == b,
{
    version_less_total(node_version(nodes, a), node_version(nodes, b));
    text_less_total(a, b);
}

proof fn best_version_grows(nodes: Map<Text, NodeView>, keys: Set<Text>, name: Text, best: Option<Text>, key: Text)
    requires
        forall|other: Text| #[trigger] keys.contains(other) ==> text_less(other, key),
        match best {
            Some(best) => is_best_version(nodes, keys, name, best),
            None => forall|other: Text| !#[trigger] is_version_of(nodes, keys, name, other),
        },
    ensures
        !is_version_of(nodes, keys.insert(key), name, key) ==> match best {
            Some(best) => is_best_version(nodes, keys.insert(key), name, best),
            None => forall|other: Text| !#[trigger] is_version_of(nodes, keys.insert(key), name, other),
        },
        is_version_of(nodes, keys.insert(key), name, key) ==> match best {
            Some(best) => if version_less(node_version(nodes, best), node_version(nodes, key)) {
                is_best_version(nodes, keys.insert(key), name, key)
            } else {
                is_best_version(nodes, keys.insert(key), name, best)
            },
            None => is_best_version(nodes, keys.insert(key), name, key),
        },
{
    let more = keys.insert(key);
    text_less_irreflexive(key);
    version_less_irreflexive(node_version(nodes, key));
    assert forall|other: Text| #[trigger] is_version_of(nodes, more, name, other) && other != key implies is_version_of(
        nodes,
        keys,
        name,
        other,
    ) && text_less(other, key) by {
        assert(keys.contains(other));
    }
    if let Some(best) = best {
        assert(is_version_of(nodes, keys, name, best));
        let v = node_version(nodes, best);
        let w = node_version(nodes, key);
        text_less_total(best, key);
        version_less_total(v, w);
        if version_less(v, w) {
            assert forall|other: Text| #[trigger] is_version_of(nodes, more, name, other) && other != key implies !version_less(
                w,
                node_version(nodes, other),
            ) && version_less(node_version(nodes, other), w) by {
                let u = node_version(nodes, other);
                assert(is_version_of(nodes, keys, name, other));
                assert(!version_less(v, u));
                version_less_total(v, u);
                version_less_total(u, w);
                if version_less(u, v) {
                    version_less_transitive(u, v, w);
                }
            }
        }
    }
}

fn optional_peer_names(nodes: &Dict<Node>) -> (result: Names)
    ensures
        forall|name: Text| #[trigger] result@.contains(name) <==> is_optional_peer(nodes@, name),
{
    let mut names = Names::new();
    let n: usize = nodes.len();
    let ghost keys = sorted(nodes@.dom());
    proof {
        sorted_properties(nodes@.dom());
    }
    let mut i: usize = 0;
    while i < n
        invariant
            i <= n,
            n == keys.len(),
            keys == sorted(nodes@.dom()),
            forall|x: Text| #[trigger] keys.contains(x) == nodes@.dom().contains(x),
            forall|name: Text| #[trigger] names@.contains(name) ==> is_optional_peer(nodes@, name),
            forall|j: int, name: Text|
                0 <= j < i && nodes@[#[trigger] keys[j]].peers.contains_key(name) && nodes@[keys[j]].peers[name]
                    ==> #[trigger] names@.contains(name),
        decreases n - i,
    {
        let node = nodes.value(i);
        let ghost key = keys[i as int];
        assert(keys.contains(key));
        let m: usize = node.peers.len();
        let ghost peers = sorted(node@.peers.dom());
        proof {
            sorted_properties(node@.peers.dom());
        }
        let mut k: usize = 0;
        while k < m
            invariant
                k <= m,
                m == peers.len(),
                peers == sorted(node@.peers.dom()),
                0 <= i < n,
                n == keys.len(),
                key == keys[i as int],
                nodes@.contains_key(key),
                node@ == nodes@[key],
                forall|x: Text| #[trigger] peers.contains(x) == node@.peers.dom().contains(x),
                forall|name: Text| #[trigger] names@.contains(name) ==> is_optional_peer(nodes@, name),
                forall|j: int, name: Text|
                    0 <= j < i && nodes@[#[trigger] keys[j]].peers.contains_key(name) && nodes@[keys[j]].peers[name]
                        ==> #[trigger] names@.contains(name),
                forall|l: int| 0 <= l < k && node@.peers[#[trigger] peers[l]] ==> names@.contains(peers[l]),
            decreases m - k,
        {
            assert(peers.contains(peers[k as int]));
            if *node.peers.value(k) {
                assert(nodes@.contains_key(key) && nodes@[key].peers.contains_key(peers[k as int]));
                names.insert(node.peers.key(k).clone());
            }
            k += 1;
        }
        assert forall|name: Text| node@.peers.contains_key(name) && node@.peers[name] implies #[trigger] names@.contains(
            name,
        ) by {
            assert(peers.contains(name));
            assert(peers[peers.index_of(name)] == name);
        }
        i += 1;
    }
    assert forall|name: Text| is_optional_peer(nodes@, name) implies #[trigger] names@.contains(name) by {
        let key = choose|key: Text| #[trigger]
            nodes@.contains_key(key) && nodes@[key].peers.contains_key(name) && nodes@[key].peers[name];
        assert(keys.contains(key));
        assert(keys[keys.index_of(key)] == key);
    }
    names
}

/// What optional peers that no ancestor provides fall back to.
pub fn optional_peer_fallbacks(nodes: &Dict<Node>) -> (result: Dict<String>)
    ensures
        result@ == fallbacks_of(nodes@),
{
    let optional = optional_peer_names(nodes);
    let mut best: Dict<String> = Dict::new();
    let n: usize = nodes.len();
    let ghost keys = sorted(nodes@.dom());
    proof {
        sorted_properties(nodes@.dom());
        assert(keys.take(0).to_set() =~= Set::<Text>::empty());
    }
    let mut i: usize = 0;
    while i < n
        invariant
            i <= n,
            n == keys.len(),
            keys == sorted(nodes@.dom()),
            crate::dict::ascending(keys),
            forall|x: Text| #[trigger] keys.contains(x) == nodes@.dom().contains(x),
            forall|name: Text| #[trigger]
                best@.contains_key(name) ==> optional@.contains(name) && is_best_version(
                    nodes@,
                    keys.take(i as int).to_set(),
                    name,
                    best@[name],
                ),
            forall|name: Text|
                optional@.contains(name) && !#[trigger] best@.contains_key(name) ==> forall|other: Text|
                    !#[trigger] is_version_of(nodes@, keys.take(i as int).to_set(), name, other),
        decreases n - i,
    {
        let key = nodes.key(i);
        let node = nodes.value(i);
        let ghost seen = keys.take(i as int).to_set();
        let ghost more = keys.take(i + 1).to_set();
        let ghost before = best@;
        proof {
            taken_one_more(keys, i as int);
            assert forall|other: Text| #[trigger] seen.contains(other) implies text_less(other, key@) by {
                let k = keys.take(i as int).index_of(other);
                assert(text_less(keys[k], keys[i as int]));
            }
            assert forall|name: Text| optional@.contains(name) implies match (if before.contains_key(name) {
                Some(before[name])
            } else {
                None
            }) {
                Some(b) => is_best_version(nodes@, seen, name, b),
                None => forall|other: Text| !#[trigger] is_version_of(nodes@, seen, name, other),
            } by {
                if !before.contains_key(name) {
                    assert(!before.contains_key(name));
                }
            }
            assert forall|name: Text| #[trigger] before.contains_key(name) && optional@.contains(name) implies {
                &&& !is_version_of(nodes@, more, name, key@) ==> is_best_version(nodes@, more, name, before[name])
                &&& is_version_of(nodes@, more, name, key@) ==> if version_less(
                    node_version(nodes@, before[name]),
                    node_version(nodes@, key@),
                ) {
                    is_best_version(nodes@, more, name, key@)
                } else {
                    is_best_version(nodes@, more, name, before[name])
                }
            } by {
                best_version_grows(nodes@, seen, name, Some(before[name]), key@);
            }
            assert forall|name: Text| !#[trigger] before.contains_key(name) && optional@.contains(name) implies {
                &&& !is_version_of(nodes@, more, name, key@) ==> forall|other: Text|
                    !#[trigger] is_version_of(nodes@, more, name, other)
                &&& is_version_of(nodes@, more, name, key@) ==> is_best_version(nodes@, more, name, key@)
            } by {
                best_version_grows(nodes@, seen, name, None, key@);
            }
        }
        if let Some(version) = Version::parse(node.version.as_str()) {
            assert(is_version_of(nodes@, more, node@.name, key@));
            if optional.contains(node.name.as_str()) {
                let better = match best.get(node.name.as_str()) {
                    Some(current) => {
                        assert(is_version_of(nodes@, seen, node@.name, current@));
                        assert(keys.contains(current@)) by {
                            assert(keys[keys.take(i as int).index_of(current@)] == current@);
                        }
                        match nodes.get(current.as_str()) {
                            Some(other) => match Version::parse(other.version.as_str()) {
                                Some(current) => current.precedes(&version),
                                None => false,
                            },
                            None => false,
                        }
                    },
                    None => true,
                };
                if better {
                    best.insert(node.name.clone(), key.clone());
                }
            }
        }
        i += 1;
    }
    proof {
        assert(keys.take(i as int) =~= keys);
        assert(keys.to_set() =~= nodes@.dom());
        let expected = fallbacks_of(nodes@);
        assert forall|name: Text| expected.contains_key(name) == #[trigger] best@.contains_key(name) by {
            if best@.contains_key(name) {
                assert(is_best_version(nodes@, nodes@.dom(), name, best@[name]));
            } else if expected.contains_key(name) {
                let key = choose|key: Text| is_best_version(nodes@, nodes@.dom(), name, key);
                assert(optional@.contains(name));
                assert(is_version_of(nodes@, nodes@.dom(), name, key));
            }
        }
        assert forall|name: Text| #[trigger] best@.contains_key(name) implies best@[name] == expected[name] by {
            best_version_is_unique(nodes@, nodes@.dom(), name, best@[name], expected[name]);
        }
        assert(best@ =~= expected);
    }
    best
}

} // verus!
