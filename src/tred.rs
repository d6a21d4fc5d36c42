//! Topological order, transitive reduction and transitive closure of a
//! directed graph, computed by `petgraph`.
//!
//! A graph is given by its node count and its list of edges.
use vstd::prelude::*;

use petgraph::algo::tred::{dag_to_toposorted_adjacency_list, dag_transitive_reduction_closure};
use petgraph::adj::List;
use petgraph::graph::{DiGraph, NodeIndex};
use petgraph::visit::IntoNeighbors;

verus! {

/// Every edge joins two of the `n` nodes.
pub open spec fn edges_in(n: nat, es: Seq<(usize, usize)>) -> bool {
    forall|t: int| 0 <= t < es.len() ==> (#[trigger] es[t]).0 < n && es[t].1 < n
}

/// `path` follows edges of `es`.
pub open spec fn walk(es: Seq<(usize, usize)>, path: Seq<int>) -> bool {
    &&& path.len() >= 1
    &&& forall|t: int|
        0 <= t < path.len() - 1 ==> es.contains(
            ((#[trigger] path[t]) as usize, path[t + 1] as usize),
        )
    &&& forall|t: int| 0 <= t < path.len() ==> 0 <= #[trigger] path[t] <= usize::MAX
}

/// A walk of at least `k` nodes leads from `i` to `j`.
pub open spec fn linked(es: Seq<(usize, usize)>, i: int, j: int, k: nat) -> bool {
    exists|path: Seq<int>| #[trigger] walk(es, path) && path.len() >= k && path[0] == i && path.last() == j
}

/// No walk of two or more nodes returns to its start.
pub open spec fn acyclic(es: Seq<(usize, usize)>) -> bool {
    forall|path: Seq<int>| #[trigger] walk(es, path) && path.len() >= 2 ==> path[0] != path.last()
}

/// `order` lists each of the `n` nodes once, and every edge goes forward in it.
pub open spec fn topo_order(n: nat, es: Seq<(usize, usize)>, order: Seq<usize>) -> bool {
    &&& order.len() == n
    &&& forall|a: int| 0 <= a < n ==> (#[trigger] order[a]) < n
    &&& forall|a: int, b: int| 0 <= a < b < n ==> order[a] != order[b]
    &&& forall|a: int, b: int| 0 <= a < b < n ==> !es.contains((#[trigger] order[b], #[trigger] order[a]))
}

/// Relies on `petgraph::algo::toposort`: for an acyclic graph, the nodes in
/// an order where each comes before its successors; `Err` exactly for a
/// graph with a cycle.
#[verifier::external_body]
pub(crate) fn topological_order(n: usize, es: &Vec<(usize, usize)>) -> (r: Option<Vec<usize>>)
    requires
        edges_in(n as nat, es@),
    ensures
        r is Some <==> acyclic(es@),
        r matches Some(o) ==> topo_order(n as nat, es@, o@),
{
    let mut g = DiGraph::<(), (), usize>::with_capacity(n, 0);
    for _ in 0..n {
        g.add_node(());
    }
    g.extend_with_edges(es);
    let order = petgraph::algo::toposort(&g, None).ok()?;
    Some(order.into_iter().map(|x: NodeIndex<usize>| x.index()).collect())
}

/// Relies on `petgraph::algo::tred::dag_transitive_reduction_closure`, fed
/// the topologically sorted adjacency list that its documentation asks for
/// (`dag_to_toposorted_adjacency_list`): the transitive reduction (the edges
/// with no longer walk between their ends) and the transitive closure (the
/// pairs joined by a walk), with node indices mapped back through `order`.
#[verifier::external_body]
pub(crate) fn reduction_closure(n: usize, es: &Vec<(usize, usize)>, order: &Vec<usize>) -> (r: (
    Vec<(usize, usize)>,
    Vec<(usize, usize)>,
))
    requires
        edges_in(n as nat, es@),
        topo_order(n as nat, es@, order@),
    ensures
        edges_in(n as nat, r.0@),
        edges_in(n as nat, r.1@),
        forall|i: usize, j: usize|
            i < n && j < n ==> (#[trigger] r.0@.contains((i, j)) <==> (es@.contains((i, j)) && !linked(
                es@,
                i as int,
                j as int,
                3,
            ))),
        forall|i: usize, j: usize|
            i < n && j < n ==> (#[trigger] r.1@.contains((i, j)) <==> linked(es@, i as int, j as int, 2)),
{
    let mut g = DiGraph::<(), (), usize>::with_capacity(n, 0);
    for _ in 0..n {
        g.add_node(());
    }
    g.extend_with_edges(es);
    let topo: Vec<_> = order.iter().map(|&a| NodeIndex::new(a)).collect();
    let (list, _) = dag_to_toposorted_adjacency_list::<_, usize>(&g, &topo);
    let (tred, tclos) = dag_transitive_reduction_closure(&list);
    let back = |l: &List<(), usize>| l.node_indices().flat_map(|a| l.neighbors(a).map(move |b| (order[a], order[b]))).collect();
    (back(&tred), back(&tclos))
}

} // verus!
