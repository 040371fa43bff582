//! Strongly connected components of a graph whose nodes are numbers.
use vstd::prelude::*;

verus! {

/// Every step of `walk` is an edge.
pub open spec fn is_walk(edges: Seq<(usize, usize)>, walk: Seq<usize>) -> bool {
    forall|i: int| 0 <= i < walk.len() - 1 ==> edges.contains((#[trigger] walk[i], walk[i + 1]))
}

/// `walk` goes from `a` to `b`.
pub open spec fn walks(edges: Seq<(usize, usize)>, walk: Seq<usize>, a: usize, b: usize) -> bool {
    walk.len() > 0 && walk[0] == a && walk.last() == b && is_walk(edges, walk)
}

/// There is a walk from `a` to `b`, of any length.
pub open spec fn leads(edges: Seq<(usize, usize)>, a: usize, b: usize) -> bool {
    exists|walk: Seq<usize>| walks(edges, walk, a, b)
}

/// Each of `a` and `b` leads to the other.
pub open spec fn mutual(edges: Seq<(usize, usize)>, a: usize, b: usize) -> bool {
    leads(edges, a, b) && leads(edges, b, a)
}

/// `node` is an end of an edge.
pub open spec fn touched(edges: Seq<(usize, usize)>, node: usize) -> bool {
    exists|i: int| 0 <= i < edges.len() && ((#[trigger] edges[i]).0 == node || edges[i].1 == node)
}

/// `petgraph::algo::tarjan_scc` on the graph of `edges`, with nodes below `count`: it parts the
/// nodes into the largest groups within which each node leads to every other. Claimed is that every
/// node of an edge is in a group, that a group holds what its members are mutually connected with
/// and nothing else, and that it holds nothing twice.
#[verifier::external_body]
pub(crate) fn components(count: usize, edges: &Vec<(usize, usize)>) -> (result: Vec<Vec<usize>>)
    requires
        forall|i: int| 0 <= i < edges@.len() ==> (#[trigger] edges@[i]).0 < count && edges@[i].1 < count,
    ensures
        forall|node: usize|
            #[trigger] touched(edges@, node) ==> exists|k: int|
                0 <= k < result@.len() && (#[trigger] result@[k])@.contains(node),
        forall|k: int, a: usize, b: usize|
            0 <= k < result@.len() && #[trigger] result@[k]@.contains(a) ==> (#[trigger] result@[k]@.contains(b)
                <==> mutual(edges@, a, b)),
        forall|k: int| 0 <= k < result@.len() ==> (#[trigger] result@[k])@.no_duplicates(),
{
    let mut graph = petgraph::graph::DiGraph::<(), (), usize>::default();
    graph.extend_with_edges(edges.iter());
    petgraph::algo::tarjan_scc(&graph)
        .into_iter()
        .map(|component| component.into_iter().map(|node| node.index()).collect())
        .collect()
}

/// A node that leads to another is an end of an edge.
pub proof fn leads_from_edge(edges: Seq<(usize, usize)>, a: usize, b: usize)
    requires
        leads(edges, a, b),
        a != b,
    ensures
        touched(edges, a),
        touched(edges, b),
{
    let walk = choose|walk: Seq<usize>| walks(edges, walk, a, b);
    assert(edges.contains((walk[0], walk[1])));
    let i = choose|i: int| 0 <= i < edges.len() && edges[i] == (walk[0], walk[1]);
    assert(edges[i].0 == a);
    let n = walk.len() - 2;
    assert(edges.contains((walk[n], walk[n + 1])));
    let j = choose|j: int| 0 <= j < edges.len() && edges[j] == (walk[n], walk[n + 1]);
    assert(edges[j].1 == b);
}

} // verus!
