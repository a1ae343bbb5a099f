//! The dependency graph over layer ids.
//!
//! The graph is a `daggy::Dag` whose nodes are created in layer-id order, so
//! that node index `i` stands for layer `i`.  Its contents are modeled by
//! two names: the number of nodes and the set of directed edges; a third
//! name tracks the physical edge count, which bounds when the underlying
//! index type would overflow.  Cycle-freedom and topological order are
//! stated over the edge set.

use vstd::prelude::*;

use daggy::petgraph::graph::NodeIndex;

verus! {

use vstd::set_lib::{lemma_int_range, lemma_subset_equality, set_int_range};

/// The dependency graph: one node per layer, holding the layer id.  The
/// `daggy::Dag` inside is opaque here; the trusted functions below are its
/// only doors, and the names `dag_node_count`, `dag_edges` and
/// `dag_edge_total` its only description.
#[verifier::external_body]
pub struct LayerDag {
    inner: daggy::Dag<u32, (), u32>,
}

/// How many nodes the graph holds.
pub uninterp spec fn dag_node_count(d: LayerDag) -> nat;

/// The set of directed edges `(from, to)` the graph holds, as node indices.
pub uninterp spec fn dag_edges(d: LayerDag) -> Set<(int, int)>;

/// How many edges the graph physically holds (parallel edges counted).
pub uninterp spec fn dag_edge_total(d: LayerDag) -> nat;

/// `p` walks along edges of `edges` (it has at least two nodes).
pub open spec fn is_path(edges: Set<(int, int)>, p: Seq<int>) -> bool {
    p.len() >= 2 && forall|k: int|
        0 <= k < p.len() - 1 ==> #[trigger] edges.contains((p[k], p[k + 1]))
}

/// Some node reaches itself along the edges: the graph is cyclic.
pub open spec fn has_cycle(edges: Set<(int, int)>) -> bool {
    exists|p: Seq<int>| is_path(edges, p) && p.first() == p.last()
}

/// An empty edge set has no cycle.
pub proof fn lemma_no_cycle_empty()
    ensures
        !has_cycle(Set::<(int, int)>::empty()),
{
    if has_cycle(Set::<(int, int)>::empty()) {
        let p = choose|p: Seq<int>|
            is_path(Set::<(int, int)>::empty(), p) && p.first() == p.last();
        assert(0 <= 0 < p.len() - 1);
        assert(Set::<(int, int)>::empty().contains((p[0int], p[0int + 1])));
    }
}

/// A cycle in a subset is a cycle in the whole set.
pub proof fn lemma_cycle_monotone(e1: Set<(int, int)>, e2: Set<(int, int)>)
    requires
        has_cycle(e1),
        e1.subset_of(e2),
    ensures
        has_cycle(e2),
{
    let p = choose|p: Seq<int>| is_path(e1, p) && p.first() == p.last();
    assert(is_path(e2, p)) by {
        assert forall|k: int|
            0 <= k < p.len() - 1 implies #[trigger] e2.contains((p[k], p[k + 1])) by {
            assert(e1.contains((p[k], p[k + 1])));
        }
    }
}

/// `order` is a topological order of `n` nodes under `edges`: every node
/// once, and no edge from a later position to an earlier or equal one.
pub open spec fn valid_topo(order: Seq<usize>, edges: Set<(int, int)>, n: int) -> bool {
    &&& order.len() == n
    &&& forall|k: int| 0 <= k < order.len() ==> (#[trigger] order[k]) < n
    &&& order.no_duplicates()
    &&& forall|p: int, q: int|
        0 <= p <= q < order.len() ==> !edges.contains((order[q] as int, order[p] as int))
}

/// In a valid topological order of `n` nodes, every node below `n` occurs.
pub proof fn lemma_topo_complete(order: Seq<usize>, edges: Set<(int, int)>, n: int)
    requires
        valid_topo(order, edges, n),
    ensures
        forall|v: usize| (v as int) < n ==> #[trigger] order.contains(v),
{
    let f = |u: usize| u as int;
    let iorder = order.map_values(f);
    order.lemma_no_duplicates_injective(f);
    iorder.unique_seq_to_set();
    let range = set_int_range(0, n);
    lemma_int_range(0, n);
    assert(iorder.to_set().subset_of(range)) by {
        assert forall|v: int| iorder.to_set().contains(v) implies range.contains(v) by {
            let k = choose|k: int| 0 <= k < iorder.len() && iorder[k] == v;
            assert(order[k] < n);
        }
    }
    lemma_subset_equality(iorder.to_set(), range);
    assert forall|v: usize| (v as int) < n implies #[trigger] order.contains(v) by {
        assert(range.contains(v as int));
        assert(iorder.to_set().contains(v as int));
        let k = choose|k: int| 0 <= k < iorder.len() && iorder[k] == v as int;
        assert(order[k] == v);
    }
}

/// Relies on `daggy::Dag::new`: a new graph has no nodes and no edges.
#[verifier::external_body]
pub fn dag_new() -> (d: LayerDag)
    ensures
        dag_node_count(d) == 0,
        dag_edges(d) == Set::<(int, int)>::empty(),
        dag_edge_total(d) == 0,
{
    LayerDag { inner: daggy::Dag::new() }
}

/// Relies on `daggy::Dag::add_node` (petgraph's `Graph::add_node`): node
/// indices are assigned compactly in insertion order, so the new node's
/// index equals the previous node count; edges are untouched.
#[verifier::external_body]
pub fn dag_add_node(d: &mut LayerDag, weight: u32) -> (ix: usize)
    requires
        dag_node_count(*old(d)) < 0xffff_fffe,
    ensures
        dag_node_count(*final(d)) == dag_node_count(*old(d)) + 1,
        dag_edges(*final(d)) == dag_edges(*old(d)),
        dag_edge_total(*final(d)) == dag_edge_total(*old(d)),
        ix == dag_node_count(*old(d)),
{
    d.inner.add_node(weight).index()
}

/// Relies on `daggy::Dag::add_edge`: the edge `a -> b` is added and `Ok`
/// returned, unless that edge would close a cycle, in which case the edge
/// set is left as it was and `Err(WouldCycle)` returned; a `Dag` is acyclic
/// at all times.
#[verifier::external_body]
pub fn dag_add_edge(d: &mut LayerDag, a: usize, b: usize) -> (ok: bool)
    requires
        a < dag_node_count(*old(d)),
        b < dag_node_count(*old(d)),
        dag_edge_total(*old(d)) < 0xffff_fffe,
    ensures
        dag_node_count(*final(d)) == dag_node_count(*old(d)),
        ok ==> dag_edges(*final(d)) == dag_edges(*old(d)).insert((a as int, b as int))
            && !has_cycle(dag_edges(*final(d))) && dag_edge_total(*final(d))
            == dag_edge_total(*old(d)) + 1,
        !ok ==> dag_edges(*final(d)) == dag_edges(*old(d)) && dag_edge_total(*final(d))
            == dag_edge_total(*old(d)) && has_cycle(
            dag_edges(*old(d)).insert((a as int, b as int)),
        ),
{
    d.inner.add_edge(NodeIndex::new(a), NodeIndex::new(b), ()).is_ok()
}

/// Relies on `petgraph::algo::toposort`: for an acyclic graph it yields
/// every node exactly once, each node placed before its successors.
#[verifier::external_body]
pub fn dag_topo_order(d: &LayerDag) -> (r: Vec<usize>)
    requires
        !has_cycle(dag_edges(*d)),
    ensures
        valid_topo(r@, dag_edges(*d), dag_node_count(*d) as int),
{
    match daggy::petgraph::algo::toposort(d.inner.graph(), None) {
        Ok(order) => order.into_iter().map(|n| n.index()).collect(),
        Err(_) => Vec::new(),
    }
}

/// Relies on `petgraph::dot::Dot`: a textual dump of the graph's nodes and
/// edges, for diagnostics only.
#[verifier::external_body]
pub fn dag_dot_string(d: &LayerDag) -> String {
    format!(
        "{:?}",
        daggy::petgraph::dot::Dot::with_config(
            d.inner.graph(),
            &[daggy::petgraph::dot::Config::EdgeNoLabel],
        ),
    )
}

} // verus!
