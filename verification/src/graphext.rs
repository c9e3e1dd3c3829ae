//! Trusted interface to the petgraph graph that stores the transfers.
//!
//! The settlement graph is a `petgraph` stable directed graph whose nodes
//! carry no data (a node is identified by its index) and whose edge weights
//! are amounts in minor units. The graphs this crate builds only ever gain
//! nodes and edges or clear all edges at once, so node indices are handed
//! out densely, in insertion order, and edge iteration yields the edges in
//! the order they were added.

use vstd::prelude::*;

use petgraph::stable_graph::StableDiGraph;
use petgraph::visit::EdgeRef;
use petgraph::visit::IntoEdgeReferences;

verus! {

#[verifier::external_type_specification]
#[verifier::external_body]
#[verifier::reject_recursive_types(N)]
#[verifier::reject_recursive_types(E)]
#[verifier::reject_recursive_types(Ty)]
#[verifier::reject_recursive_types(Ix)]
pub struct ExStableGraph<N, E, Ty, Ix>(petgraph::stable_graph::StableGraph<N, E, Ty, Ix>);

#[verifier::external_type_specification]
#[verifier::external_body]
pub struct ExDirected(petgraph::Directed);

/// Whether the graph's storage is dense: it has never lost a node, and its
/// edge slots hold exactly the edges added since the last full clear, in
/// insertion order. Every graph this crate builds stays in this state.
pub uninterp spec fn sg_dense(g: StableDiGraph<(), i64>) -> bool;

/// The number of nodes the graph holds.
pub uninterp spec fn sg_node_count(g: StableDiGraph<(), i64>) -> nat;

/// The edges of the graph in insertion order, each as
/// (source index, target index, weight).
pub uninterp spec fn sg_edges(g: StableDiGraph<(), i64>) -> Seq<(usize, usize, i64)>;

/// Relies on `StableGraph::new`: creates a graph with no nodes and no edges.
#[verifier::external_body]
pub(crate) fn sg_new() -> (g: StableDiGraph<(), i64>)
    ensures
        sg_dense(g),
        sg_node_count(g) == 0,
        sg_edges(g) == Seq::<(usize, usize, i64)>::empty(),
{
    StableDiGraph::new()
}

/// Relies on `StableGraph::add_node` and `NodeIndex::index`: with no vacant
/// slot, the new node is stored behind the existing ones and its index is
/// the previous node count.
#[verifier::external_body]
pub(crate) fn sg_add_node(g: &mut StableDiGraph<(), i64>) -> (idx: usize)
    requires
        sg_dense(*old(g)),
        sg_node_count(*old(g)) < 0xFFFF_FFFE,
    ensures
        sg_dense(*final(g)),
        idx == sg_node_count(*old(g)),
        sg_node_count(*final(g)) == sg_node_count(*old(g)) + 1,
        sg_edges(*final(g)) == sg_edges(*old(g)),
{
    g.add_node(()).index()
}

/// Relies on `StableGraph::add_edge` and `NodeIndex::new`: both endpoints
/// exist, so the call cannot fail, and the new edge is stored behind the
/// existing ones.
#[verifier::external_body]
pub(crate) fn sg_add_edge(g: &mut StableDiGraph<(), i64>, a: usize, b: usize, w: i64)
    requires
        sg_dense(*old(g)),
        a < sg_node_count(*old(g)),
        b < sg_node_count(*old(g)),
        sg_edges(*old(g)).len() < 0xFFFF_FFFE,
    ensures
        sg_dense(*final(g)),
        sg_node_count(*final(g)) == sg_node_count(*old(g)),
        sg_edges(*final(g)) == sg_edges(*old(g)).push((a, b, w)),
{
    g.add_edge(
        petgraph::stable_graph::NodeIndex::new(a),
        petgraph::stable_graph::NodeIndex::new(b),
        w,
    );
}

/// Relies on `StableGraph::clear_edges`: removes every edge, resets the edge
/// storage and free list, and keeps all nodes.
#[verifier::external_body]
pub(crate) fn sg_clear_edges(g: &mut StableDiGraph<(), i64>)
    requires
        sg_dense(*old(g)),
    ensures
        sg_dense(*final(g)),
        sg_node_count(*final(g)) == sg_node_count(*old(g)),
        sg_edges(*final(g)) == Seq::<(usize, usize, i64)>::empty(),
{
    g.clear_edges()
}

/// Relies on `StableGraph::edge_references` and `EdgeRef::{source, target,
/// weight}`: yields the stored edges in index order, which for a dense graph
/// is insertion order.
#[verifier::external_body]
pub(crate) fn sg_edge_list(g: &StableDiGraph<(), i64>) -> (r: Vec<(usize, usize, i64)>)
    requires
        sg_dense(*g),
    ensures
        r@ == sg_edges(*g),
{
    g.edge_references().map(|e| (e.source().index(), e.target().index(), *e.weight())).collect()
}

} // verus!
