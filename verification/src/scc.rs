//! Strongly connected components of a directed graph over integer-indexed
//! nodes, computed by petgraph's Tarjan implementation behind a trusted
//! wrapper whose contract is stated over plain edge lists.

use vstd::prelude::*;

verus! {

/// Whether the edge list has an edge from `a` to `b`.
pub open spec fn edge_step(edges: Seq<(usize, usize)>, a: int, b: int) -> bool {
    exists|i: int| 0 <= i < edges.len() && edges[i].0 == a && edges[i].1 == b
}

/// Whether `p` is a walk from `a` to `b` along the edge list.
pub open spec fn is_walk(edges: Seq<(usize, usize)>, p: Seq<int>, a: int, b: int) -> bool {
    &&& p.len() >= 1
    &&& p[0] == a
    &&& p.last() == b
    &&& forall|i: int| 0 <= i < p.len() - 1 ==> edge_step(edges, #[trigger] p[i], p[i + 1])
}

/// Whether `b` is reachable from `a` along the edge list; every node
/// reaches itself by the one-node walk.
pub open spec fn reaches(edges: Seq<(usize, usize)>, a: int, b: int) -> bool {
    exists|p: Seq<int>| is_walk(edges, p, a, b)
}

/// Whether nodes `u` and `v` share one of the components.
pub open spec fn in_same_component(comps: Seq<Vec<usize>>, u: int, v: int) -> bool {
    exists|i: int|
        0 <= i < comps.len() && (#[trigger] comps[i])@.contains(u as usize) && comps[i]@.contains(
            v as usize,
        )
}

/// Relies on petgraph's tarjan_scc: the returned vectors are exactly the
/// strongly connected components of the directed graph with nodes
/// 0..n and the given edges. Each node lies in exactly one component,
/// listed once, and two nodes share a component precisely when each is
/// reachable from the other. The graph uses the default 32-bit indices for
/// nodes and edges, and its add_node and add_edge panic at the index
/// limits, so both counts must stay below them.
#[verifier::external_body]
pub(crate) fn tarjan_components(n: usize, edges: &Vec<(usize, usize)>) -> (r: Vec<Vec<usize>>)
    requires
        n < u32::MAX as usize,
        edges@.len() < u32::MAX as usize,
        forall|i: int| 0 <= i < edges@.len() ==> (#[trigger] edges@[i]).0 < n && edges@[i].1 < n,
    ensures
        forall|i: int, j: int|
            0 <= i < r@.len() && 0 <= j < r@[i]@.len() ==> (#[trigger] r@[i]@[j]) < n,
        forall|i: int, j1: int, j2: int|
            0 <= i < r@.len() && 0 <= j1 < r@[i]@.len() && 0 <= j2 < r@[i]@.len() && j1 != j2
                ==> (#[trigger] r@[i]@[j1]) != (#[trigger] r@[i]@[j2]),
        forall|i1: int, i2: int, u: usize|
            0 <= i1 < r@.len() && 0 <= i2 < r@.len() && i1 != i2 && (#[trigger] r@[i1]@.contains(u))
                ==> !(#[trigger] r@[i2]@.contains(u)),
        forall|u: usize| u < n ==> in_same_component(r@, u as int, u as int),
        forall|u: int, v: int|
            0 <= u < n && 0 <= v < n ==> (in_same_component(r@, u, v) <==> (reaches(edges@, u, v)
                && reaches(edges@, v, u))),
{
    let mut g = petgraph::graph::Graph::<(), ()>::new();
    for _ in 0..n {
        g.add_node(());
    }
    for &(a, b) in edges.iter() {
        g.add_edge(petgraph::graph::NodeIndex::new(a), petgraph::graph::NodeIndex::new(b), ());
    }
    let comps = petgraph::algo::tarjan_scc(&g);
    comps.into_iter().map(|c| c.into_iter().map(|ix| ix.index()).collect()).collect()
}

} // verus!
