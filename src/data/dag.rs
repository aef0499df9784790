//! The graph that holds a taxonomy tree: a `daggy::Dag` of nodes, with `u32`
//! edge weights and `u32` indices. What the library relies on of it is stated
//! here over two names: the nodes in the order of their indices, and the
//! edges, each as (source, target, weight), in the order of theirs.
use vstd::prelude::*;

use daggy::petgraph::visit::Walker;
use daggy::{Dag, EdgeIndex, NodeIndex};

use crate::data::tree::IndentedTaxon;

verus! {

/// The graph, hidden from the verifier: what is known of it is what the
/// functions below state over `dag_nodes` and `dag_edges`.
#[verifier::external_body]
#[derive(Debug)]
pub struct TaxonDag {
    dag: Dag<IndentedTaxon, u32, u32>,
}

/// The nodes of the graph, in the order of their indices.
pub uninterp spec fn dag_nodes(d: TaxonDag) -> Seq<IndentedTaxon>;

/// The edges of the graph as (source, target, weight), in the order of their indices.
pub uninterp spec fn dag_edges(d: TaxonDag) -> Seq<(usize, usize, u32)>;

/// The targets of the edges that leave `n`, the latest edge first.
pub open spec fn children_latest_first(edges: Seq<(usize, usize, u32)>, n: usize) -> Seq<usize>
    decreases edges.len(),
{
    if edges.len() == 0 {
        Seq::empty()
    } else {
        let rest = children_latest_first(edges.drop_last(), n);
        if edges.last().0 == n {
            seq![edges.last().1] + rest
        } else {
            rest
        }
    }
}

/// Relies on `Dag::new`: a graph without nodes or edges.
#[verifier::external_body]
pub(crate) fn dag_new() -> (d: TaxonDag)
    ensures
        dag_nodes(d) == Seq::<IndentedTaxon>::empty(),
        dag_edges(d) == Seq::<(usize, usize, u32)>::empty(),
{
    TaxonDag { dag: Dag::new() }
}

/// Relies on `Dag::add_node`: the node is appended, and its index returned.
/// It panics when the indices are used up.
#[verifier::external_body]
pub(crate) fn dag_add_node(d: &mut TaxonDag, node: IndentedTaxon) -> (r: usize)
    requires
        dag_nodes(*old(d)).len() < u32::MAX,
    ensures
        r == dag_nodes(*old(d)).len(),
        dag_nodes(*final(d)) == dag_nodes(*old(d)).push(node),
        dag_edges(*final(d)) == dag_edges(*old(d)),
{
    d.dag.add_node(node).index()
}

/// Relies on `Dag::add_child`: the node is appended together with an edge
/// from `parent` to it, and its index returned. It panics where `parent` is
/// no node or the indices are used up.
#[verifier::external_body]
pub(crate) fn dag_add_child(
    d: &mut TaxonDag,
    parent: usize,
    weight: u32,
    node: IndentedTaxon,
) -> (r: usize)
    requires
        parent < dag_nodes(*old(d)).len(),
        dag_nodes(*old(d)).len() < u32::MAX,
        dag_edges(*old(d)).len() < u32::MAX,
    ensures
        r == dag_nodes(*old(d)).len(),
        dag_nodes(*final(d)) == dag_nodes(*old(d)).push(node),
        dag_edges(*final(d)) == dag_edges(*old(d)).push((parent, r, weight)),
{
    let (_, child) = d.dag.add_child(NodeIndex::new(parent), weight, node);
    child.index()
}

/// Relies on `Dag::node_weight`: the node at an index, if there is one.
#[verifier::external_body]
pub(crate) fn dag_node_weight(d: &TaxonDag, i: usize) -> (r: Option<&IndentedTaxon>)
    requires
        i < u32::MAX,
    ensures
        i < dag_nodes(*d).len() ==> r == Some(&dag_nodes(*d)[i as int]),
        i >= dag_nodes(*d).len() ==> r.is_none(),
{
    d.dag.node_weight(NodeIndex::new(i))
}

/// Relies on `Dag::raw_edges`: the edge at an index, as (source, target, weight).
#[verifier::external_body]
pub(crate) fn dag_raw_edge(d: &TaxonDag, k: usize) -> (r: (usize, usize, u32))
    requires
        k < dag_edges(*d).len(),
    ensures
        r == dag_edges(*d)[k as int],
{
    let edge = &d.dag.raw_edges()[k];
    (edge.source().index(), edge.target().index(), edge.weight)
}

/// Relies on `Dag::node_count`.
#[verifier::external_body]
pub(crate) fn dag_node_count(d: &TaxonDag) -> (r: usize)
    ensures
        r == dag_nodes(*d).len(),
{
    d.dag.node_count()
}

/// Relies on `Dag::edge_count`.
#[verifier::external_body]
pub(crate) fn dag_edge_count(d: &TaxonDag) -> (r: usize)
    ensures
        r == dag_edges(*d).len(),
{
    d.dag.edge_count()
}

/// Relies on `Dag::find_edge`: the index of an edge from `a` to `b`, if there is one.
#[verifier::external_body]
pub(crate) fn dag_find_edge(d: &TaxonDag, a: usize, b: usize) -> (r: Option<usize>)
    requires
        a < u32::MAX,
        b < u32::MAX,
    ensures
        match r {
            Some(e) => e < dag_edges(*d).len() && dag_edges(*d)[e as int].0 == a
                && dag_edges(*d)[e as int].1 == b,
            None => forall|k: int|
                0 <= k < dag_edges(*d).len() ==> !(#[trigger] dag_edges(*d)[k].0 == a
                    && dag_edges(*d)[k].1 == b),
        },
{
    d.dag.find_edge(NodeIndex::new(a), NodeIndex::new(b)).map(|e| e.index())
}

/// Relies on indexing a `Dag` by an edge index, which panics where there is
/// no such edge: the weight of the edge is replaced.
#[verifier::external_body]
pub(crate) fn dag_set_edge_weight(d: &mut TaxonDag, e: usize, weight: u32)
    requires
        e < dag_edges(*old(d)).len(),
    ensures
        dag_nodes(*final(d)) == dag_nodes(*old(d)),
        dag_edges(*final(d)) == dag_edges(*old(d)).update(
            e as int,
            (dag_edges(*old(d))[e as int].0, dag_edges(*old(d))[e as int].1, weight),
        ),
{
    d.dag[EdgeIndex::new(e)] = weight;
}

/// Relies on `Dag::children`: the walk goes through the edges that leave
/// `n`, the latest edge first.
#[verifier::external_body]
pub(crate) fn dag_children(d: &TaxonDag, n: usize) -> (r: Vec<usize>)
    requires
        n < u32::MAX,
    ensures
        r@ == children_latest_first(dag_edges(*d), n),
{
    d.dag.children(NodeIndex::new(n)).iter(&d.dag).map(|(_, c)| c.index()).collect()
}

/// Relies on `Dag::parents`: the walk goes through the edges that enter `n`,
/// the latest edge first, so its last step is the earliest edge.
#[verifier::external_body]
pub(crate) fn dag_first_parent(d: &TaxonDag, n: usize) -> (r: Option<usize>)
    requires
        n < u32::MAX,
    ensures
        match r {
            Some(p) => exists|k: int|
                0 <= k < dag_edges(*d).len() && dag_edges(*d)[k].1 == n && dag_edges(*d)[k].0 == p
                    && forall|j: int| 0 <= j < k ==> (#[trigger] dag_edges(*d)[j]).1 != n,
            None => forall|k: int| 0 <= k < dag_edges(*d).len() ==> (#[trigger] dag_edges(*d)[k]).1 != n,
        },
{
    d.dag.parents(NodeIndex::new(n)).iter(&d.dag).last().map(|(_, p)| p.index())
}

} // verus!
