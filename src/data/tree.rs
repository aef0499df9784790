//! Taxonomy trees: built from indented nodes, and merged.
use vstd::prelude::*;

use crate::data::dag::{
    dag_add_child, dag_add_node, dag_set_edge_weight, dag_children, children_latest_first, dag_edge_count, dag_edges, dag_find_edge, dag_first_parent, dag_new,
    dag_node_count, dag_node_weight, dag_nodes, dag_raw_edge, TaxonDag,
};
use crate::errors::{outcome, Failure, SpideogError};
use crate::kraken::{
    adapt_record, first_rank_error, node_from, rank_codes, rank_context, ReportRecord, Taxon,
    TaxonView,
};
use crate::taxonomy::{level_of, Rank};

verus! {

/// A taxon with the depth at which its report line was indented.
#[derive(Debug)]
pub struct IndentedTaxon {
    pub indent: usize,
    pub taxon: Taxon,
}

/// The name that indented taxa had in earlier releases.
pub type IndentOrganism = IndentedTaxon;

/// An indented taxon with its name seen as characters.
pub struct IndentedTaxonView {
    pub indent: usize,
    pub taxon: TaxonView,
}

impl View for IndentedTaxon {
    type V = IndentedTaxonView;

    open spec fn view(&self) -> IndentedTaxonView {
        IndentedTaxonView { indent: self.indent, taxon: self.taxon@ }
    }
}

impl PartialEq for IndentedTaxon {
    fn eq(&self, other: &IndentedTaxon) -> (r: bool)
        ensures
            r == (self@ == other@),
    {
        self.indent == other.indent && self.taxon == other.taxon
    }
}

impl vstd::std_specs::cmp::PartialEqSpecImpl for IndentedTaxon {
    open spec fn obeys_eq_spec() -> bool {
        true
    }

    open spec fn eq_spec(&self, other: &IndentedTaxon) -> bool {
        self@ == other@
    }
}

impl Eq for IndentedTaxon {}

impl Clone for IndentedTaxon {
    fn clone(&self) -> (r: IndentedTaxon)
        ensures
            r == *self,
    {
        IndentedTaxon { indent: self.indent, taxon: self.taxon.clone() }
    }
}

impl IndentedTaxon {
    /// Whether `self` is less indented than `than`.
    pub fn inferior_indent(&self, than: &Self) -> (r: bool)
        ensures
            r == (self.indent < than.indent),
    {
        self.indent < than.indent
    }
}

/// What a tree is: its nodes by index, its edges as (parent, child, weight)
/// by index, its root and the node added last.
pub struct TreeModel {
    pub nodes: Seq<IndentedTaxonView>,
    pub edges: Seq<(usize, usize, u32)>,
    pub origin: Option<usize>,
    pub last: Option<usize>,
}

/// The tree without nodes.
pub open spec fn empty_model() -> TreeModel {
    TreeModel { nodes: Seq::empty(), edges: Seq::empty(), origin: None, last: None }
}

/// A tree whose only node is `root`.
pub open spec fn rooted_model(root: IndentedTaxonView) -> TreeModel {
    TreeModel { nodes: seq![root], edges: Seq::empty(), origin: Some(0), last: Some(0) }
}

/// `m` with `node` added as a child of `parent`, on an edge of weight `w`.
pub open spec fn add_child_model(m: TreeModel, parent: usize, node: IndentedTaxonView, w: u32) -> TreeModel {
    TreeModel {
        nodes: m.nodes.push(node),
        edges: m.edges.push((parent, m.nodes.len() as usize, w)),
        origin: m.origin,
        last: Some(m.nodes.len() as usize),
    }
}

/// A well-formed tree. Nodes are only ever appended, the first being the
/// root, and each later node `k + 1` together with edge `k`, its only
/// incoming edge, from a parent added before it; weights are positive.
pub open spec fn model_wf(m: TreeModel) -> bool {
    &&& m.nodes.len() <= u32::MAX
    &&& if m.nodes.len() == 0 {
        m.edges.len() == 0 && m.origin.is_none() && m.last.is_none()
    } else {
        &&& m.origin == Some(0usize)
        &&& m.last == Some((m.nodes.len() - 1) as usize)
        &&& m.edges.len() + 1 == m.nodes.len()
        &&& forall|k: int|
            0 <= k < m.edges.len() ==> (#[trigger] m.edges[k]).1 == k + 1 && m.edges[k].0 <= k
                && m.edges[k].2 >= 1
    }
}

/// The nearest proper ancestor of node `cur` that is less indented than
/// `indent`, walking up from parent to parent.
pub open spec fn lower_ancestor(m: TreeModel, cur: int, indent: usize) -> Option<usize>
    decreases cur,
{
    if cur <= 0 || cur > m.edges.len() {
        None
    } else {
        let p = m.edges[cur - 1].0;
        if p >= cur {
            None
        } else if m.nodes[p as int].indent < indent {
            Some(p)
        } else {
            lower_ancestor(m, p as int, indent)
        }
    }
}

/// The parent that a new node takes: the node added last if it is less
/// indented; else its nearest ancestor that is; else the root, for a rank
/// no deeper than a domain (unclassified, root or domain), such as the
/// unindented root line that follows the unindented unclassified line at
/// the head of a report.
pub open spec fn valid_parent(m: TreeModel, node: IndentedTaxonView) -> Result<usize, Failure> {
    if m.nodes.len() == 0 {
        Err(Failure::TreeNotInitialized)
    } else {
        let last = (m.nodes.len() - 1) as usize;
        if m.nodes[last as int].indent < node.indent {
            Ok(last)
        } else {
            match lower_ancestor(m, last as int, node.indent) {
                Some(p) => Ok(p),
                None => if level_of(node.taxon.taxonomy_level) <= 2 {
                    Ok(0usize)
                } else {
                    Err(
                        Failure::NoSuitableParent(
                            node.taxon.name,
                            node.indent,
                            node.taxon.taxonomy_level,
                        ),
                    )
                },
            }
        }
    }
}

/// `m` with `node` inserted under the parent that it takes.
pub open spec fn insert_model(m: TreeModel, node: IndentedTaxonView) -> Result<TreeModel, Failure> {
    match valid_parent(m, node) {
        Ok(p) => Ok(add_child_model(m, p, node, 1)),
        Err(e) => Err(e),
    }
}

/// The tree that a sequence of nodes builds: the first, unindented, is the
/// root, and each next one is inserted in turn.
pub open spec fn build_model(nodes: Seq<IndentedTaxonView>) -> Result<TreeModel, Failure>
    decreases nodes.len(),
{
    if nodes.len() == 0 {
        Err(Failure::EmptyFile)
    } else if nodes.len() == 1 {
        if nodes[0].indent == 0 {
            Ok(rooted_model(nodes[0]))
        } else {
            Err(Failure::NonZeroIndentRoot(nodes[0].indent))
        }
    } else {
        match build_model(nodes.drop_last()) {
            Ok(m) => insert_model(m, nodes.last()),
            Err(e) => Err(e),
        }
    }
}

/// Once a prefix of the nodes fails to build, so do all the nodes, with the same failure.
proof fn lemma_build_failure_persists(vs: Seq<IndentedTaxonView>, i: int)
    requires
        1 <= i <= vs.len(),
        build_model(vs.subrange(0, i)) is Err,
    ensures
        build_model(vs) == build_model(vs.subrange(0, i)),
    decreases vs.len(),
{
    if vs.len() > i {
        assert(vs.drop_last().subrange(0, i) =~= vs.subrange(0, i));
        lemma_build_failure_persists(vs.drop_last(), i);
    } else {
        assert(vs.subrange(0, i) =~= vs);
    }
}

/// The index of the first node equal to `x`, if there is one.
pub open spec fn find_first(nodes: Seq<IndentedTaxonView>, x: IndentedTaxonView) -> Option<usize>
    decreases nodes.len(),
{
    if nodes.len() == 0 {
        None
    } else {
        match find_first(nodes.drop_last(), x) {
            Some(i) => Some(i),
            None => if nodes.last() == x {
                Some((nodes.len() - 1) as usize)
            } else {
                None
            },
        }
    }
}

/// One more, but no more than the largest weight.
pub open spec fn saturating_inc(w: u32) -> u32 {
    if w == u32::MAX {
        w
    } else {
        (w + 1) as u32
    }
}

/// `m` with the edge from `source` to `target` of another tree merged in.
/// Nodes are matched to the first equal node of `m`. Where both ends match,
/// the edge between them counts one more; where only the source matches,
/// the target is grafted under it; anything else fails.
pub open spec fn merge_edge(m: TreeModel, source: IndentedTaxonView, target: IndentedTaxonView) -> Result<TreeModel, Failure> {
    match (find_first(m.nodes, source), find_first(m.nodes, target)) {
        (Some(s), Some(t)) => if 1 <= t < m.nodes.len() && m.edges[t - 1].0 == s {
            Ok(
                TreeModel {
                    edges: m.edges.update(
                        t - 1,
                        (m.edges[t - 1].0, m.edges[t - 1].1, saturating_inc(m.edges[t - 1].2)),
                    ),
                    ..m
                },
            )
        } else {
            Err(Failure::EdgeNotFound(m.nodes[s as int], m.nodes[t as int]))
        },
        (Some(s), None) => Ok(add_child_model(m, s, target, 1)),
        (None, Some(_)) => Err(Failure::ParentNotFound(target)),
        (None, None) => Err(Failure::NodeNotFound),
    }
}

/// `base` with the first `k` edges of `rhs` merged in, in order.
pub open spec fn merge_prefix(base: TreeModel, rhs: TreeModel, k: int) -> Result<TreeModel, Failure>
    decreases k,
{
    if k <= 0 {
        Ok(base)
    } else {
        match merge_prefix(base, rhs, k - 1) {
            Ok(m) => merge_edge(
                m,
                rhs.nodes[rhs.edges[k - 1].0 as int],
                rhs.nodes[rhs.edges[k - 1].1 as int],
            ),
            Err(e) => Err(e),
        }
    }
}

/// The merge of two trees: `rhs` itself where `base` has no root, else
/// `base` with every edge of `rhs` merged in, in order.
pub open spec fn merge_model(base: TreeModel, rhs: TreeModel) -> Result<TreeModel, Failure> {
    if base.origin.is_none() {
        Ok(rhs)
    } else {
        merge_prefix(base, rhs, rhs.edges.len() as int)
    }
}

proof fn lemma_merge_failure_persists(base: TreeModel, rhs: TreeModel, k: int, n: int)
    requires
        0 <= k <= n,
        merge_prefix(base, rhs, k) is Err,
    ensures
        merge_prefix(base, rhs, n) == merge_prefix(base, rhs, k),
    decreases n,
{
    if n > k {
        lemma_merge_failure_persists(base, rhs, k, n - 1);
    }
}

proof fn lemma_find_first_prefix(nodes: Seq<IndentedTaxonView>, x: IndentedTaxonView, i: int)
    requires
        0 <= i <= nodes.len(),
        find_first(nodes.subrange(0, i), x) is Some,
    ensures
        find_first(nodes, x) == find_first(nodes.subrange(0, i), x),
    decreases nodes.len(),
{
    if nodes.len() > i {
        assert(nodes.drop_last().subrange(0, i) =~= nodes.subrange(0, i));
        lemma_find_first_prefix(nodes.drop_last(), x, i);
    } else {
        assert(nodes.subrange(0, i) =~= nodes);
    }
}

/// The children of a node come after it: each edge `k` leads to node `k + 1`
/// from a node no later than `k`.
proof fn lemma_children_after(edges: Seq<(usize, usize, u32)>, n: usize)
    requires
        forall|k: int| 0 <= k < edges.len() ==> (#[trigger] edges[k]).1 == k + 1 && edges[k].0 <= k,
    ensures
        forall|i: int|
            0 <= i < children_latest_first(edges, n).len() ==> n < (
            #[trigger] children_latest_first(edges, n)[i]) <= edges.len(),
    decreases edges.len(),
{
    if edges.len() > 0 {
        let prefix = edges.drop_last();
        assert forall|k: int| 0 <= k < prefix.len() implies (#[trigger] prefix[k]).1 == k + 1
            && prefix[k].0 <= k by {
            assert(prefix[k] == edges[k]);
        }
        lemma_children_after(prefix, n);
        let last = edges[edges.len() - 1];
        let rest = children_latest_first(prefix, n);
        if last.0 == n {
            let all = seq![last.1] + rest;
            assert(all == children_latest_first(edges, n));
            assert forall|i: int| 0 <= i < all.len() implies n < #[trigger] all[i] <= edges.len() by {
                if i > 0 {
                    assert(all[i] == rest[i - 1]);
                }
            }
        }
    }
}

/// A rooted tree of taxa whose edges count how often a parent-child link
/// was seen among the trees merged into it.
#[derive(Debug)]
pub struct Tree {
    tree: TaxonDag,
    origin: Option<usize>,
    last_node_added_id: Option<usize>,
}

impl View for Tree {
    type V = TreeModel;

    closed spec fn view(&self) -> TreeModel {
        TreeModel {
            nodes: dag_nodes(self.tree).map_values(|n: IndentedTaxon| n@),
            edges: dag_edges(self.tree),
            origin: self.origin,
            last: self.last_node_added_id,
        }
    }
}

impl Tree {
    pub open spec fn wf(&self) -> bool {
        model_wf(self@)
    }

    /// An empty tree.
    pub fn new() -> (r: Tree)
        ensures
            r.wf(),
            r@ == empty_model(),
    {
        let t = Tree { tree: dag_new(), origin: None, last_node_added_id: None };
        assert(t@.nodes == Seq::<IndentedTaxonView>::empty());
        t
    }

    /// The number of nodes.
    pub fn node_count(&self) -> (r: usize)
        ensures
            r == self@.nodes.len(),
    {
        dag_node_count(&self.tree)
    }

    /// The number of edges.
    pub fn edge_count(&self) -> (r: usize)
        ensures
            r == self@.edges.len(),
    {
        dag_edge_count(&self.tree)
    }

    /// The index of the root, if the tree has one.
    pub fn origin(&self) -> (r: Option<usize>)
        ensures
            r == self@.origin,
    {
        self.origin
    }

    /// The index of the node added last, if any.
    pub fn last_added(&self) -> (r: Option<usize>)
        ensures
            r == self@.last,
    {
        self.last_node_added_id
    }

    /// The node at index `i`, if there is one.
    pub fn node(&self, i: usize) -> (r: Option<&IndentedTaxon>)
        requires
            self.wf(),
        ensures
            i < self@.nodes.len() ==> r.is_some() && r.unwrap()@ == self@.nodes[i as int],
            i >= self@.nodes.len() ==> r.is_none(),
    {
        if i >= dag_node_count(&self.tree) {
            return None;
        }
        dag_node_weight(&self.tree, i)
    }

    /// The edge at index `k` as (parent, child, weight), if there is one.
    pub fn edge(&self, k: usize) -> (r: Option<(usize, usize, u32)>)
        ensures
            k < self@.edges.len() ==> r == Some(self@.edges[k as int]),
            k >= self@.edges.len() ==> r.is_none(),
    {
        if k >= dag_edge_count(&self.tree) {
            return None;
        }
        Some(dag_raw_edge(&self.tree, k))
    }

    /// The weight of the edge from `parent` to `child`, if there is one.
    pub fn find_edge(&self, parent: usize, child: usize) -> (r: Option<u32>)
        requires
            self.wf(),
        ensures
            match r {
                Some(w) => 1 <= child < self@.nodes.len() && self@.edges[child - 1].0 == parent
                    && self@.edges[child - 1].2 == w,
                None => !(1 <= child < self@.nodes.len() && self@.edges[child - 1].0 == parent),
            },
    {
        if parent >= dag_node_count(&self.tree) || child >= dag_node_count(&self.tree) {
            return None;
        }
        match dag_find_edge(&self.tree, parent, child) {
            Some(e) => Some(dag_raw_edge(&self.tree, e).2),
            None => {
                if child >= 1 {
                    assert(self@.edges[child - 1].1 == child);
                }
                None
            },
        }
    }

    /// The parent of node `i`, if it has one.
    pub fn parent_of(&self, i: usize) -> (r: Option<usize>)
        requires
            self.wf(),
            i < self@.nodes.len(),
        ensures
            i == 0 ==> r.is_none(),
            i > 0 ==> r == Some(self@.edges[i - 1].0),
    {
        let r = dag_first_parent(&self.tree, i);
        if i > 0 {
            assert(self@.edges[i - 1].1 == i);
        }
        r
    }

    /// The children of node `n`, the latest added first.
    pub fn children(&self, n: usize) -> (r: Vec<usize>)
        requires
            self.wf(),
            n < self@.nodes.len(),
        ensures
            r@ == children_latest_first(self@.edges, n),
            forall|i: int| 0 <= i < r@.len() ==> n < #[trigger] r@[i] < self@.nodes.len(),
    {
        proof {
            lemma_children_after(self@.edges, n);
        }
        dag_children(&self.tree, n)
    }

    /// Makes `origin`, which must not be indented, the root of the empty
    /// tree. An indented node is refused and the tree left empty.
    pub fn with_origin(&mut self, origin: IndentedTaxon) -> (r: Result<(), SpideogError>)
        requires
            old(self)@.nodes.len() == 0,
            old(self).wf(),
        ensures
            final(self).wf(),
            origin.indent == 0 ==> r.is_ok() && final(self)@ == rooted_model(origin@),
            origin.indent != 0 ==> r == Err::<(), SpideogError>(SpideogError::NonZeroIndentRoot(origin.indent))
                && final(self)@ == old(self)@,
    {
        if origin.indent != 0 {
            return Err(SpideogError::NonZeroIndentRoot(origin.indent));
        }
        let ghost node = origin;
        let id = dag_add_node(&mut self.tree, origin);
        self.origin = Some(id);
        self.last_node_added_id = Some(id);
        assert(self@.nodes =~= seq![node@]);
        assert(self@.edges =~= Seq::<(usize, usize, u32)>::empty());
        Ok(())
    }

    /// Adds `node` as a child of `parent`, on an edge of weight 1.
    pub fn child(&mut self, parent: usize, node: IndentedTaxon) -> (r: &mut Self)
        requires
            old(self).wf(),
            parent < old(self)@.nodes.len(),
            old(self)@.nodes.len() < u32::MAX,
        ensures
            r.wf(),
            r@ == add_child_model(old(self)@, parent, node@, 1),
            *final(self) == *final(r),
    {
        self.child_with_weight(parent, node, 1)
    }

    /// Adds `node` as a child of `parent`, on an edge of the given weight.
    pub fn child_with_weight(&mut self, parent: usize, node: IndentedTaxon, weight: u32) -> (r: &mut Self)
        requires
            old(self).wf(),
            parent < old(self)@.nodes.len(),
            old(self)@.nodes.len() < u32::MAX,
            weight >= 1,
        ensures
            r.wf(),
            r@ == add_child_model(old(self)@, parent, node@, weight),
            *final(self) == *final(r),
    {
        let ghost before = self@;
        let ghost n = node;
        let id = dag_add_child(&mut self.tree, parent, weight, node);
        self.last_node_added_id = Some(id);
        assert(self@.nodes =~= before.nodes.push(n@));
        assert(self@ == add_child_model(before, parent, n@, weight));
        self
    }

    /// The parent that `taxon` takes if inserted now (see `valid_parent`).
    pub fn find_valid_parent_for(&self, taxon: &IndentedTaxon) -> (r: Result<usize, SpideogError>)
        requires
            self.wf(),
        ensures
            r matches Ok(p) ==> p < self@.nodes.len(),
            outcome_index(r) == valid_parent(self@, taxon@),
    {
        let count = dag_node_count(&self.tree);
        if count == 0 {
            return Err(SpideogError::TreeNotInitialized);
        }
        let last = count - 1;
        let last_node = dag_node_weight(&self.tree, last).unwrap();
        assert(last_node@ == self@.nodes[last as int]);
        if last_node.inferior_indent(taxon) {
            return Ok(last);
        }
        let mut cur = last;
        loop
            invariant
                self.wf(),
                count == self@.nodes.len(),
                cur < count,
                lower_ancestor(self@, cur as int, taxon.indent) == lower_ancestor(
                    self@,
                    last as int,
                    taxon.indent,
                ),
                last == count - 1,
                self@.nodes[last as int].indent >= taxon.indent,
            ensures
                lower_ancestor(self@, last as int, taxon.indent).is_none(),
            decreases cur,
        {
            match self.parent_of(cur) {
                None => {
                    break ;
                },
                Some(p) => {
                    assert(self@.edges[cur - 1].1 == cur);
                    let parent = dag_node_weight(&self.tree, p).unwrap();
                    assert(parent@ == self@.nodes[p as int]);
                    if parent.inferior_indent(taxon) {
                        return Ok(p);
                    }
                    cur = p;
                },
            }
        }
        if taxon.taxon.taxonomy_level.level() <= 2 {
            Ok(0)
        } else {
            Err(
                SpideogError::NoSuitableParent(
                    taxon.taxon.name.clone(),
                    taxon.indent,
                    taxon.taxon.taxonomy_level,
                ),
            )
        }
    }
}

impl Tree {
    /// Inserts `node` under the parent that it takes (see `valid_parent`).
    /// On failure the tree is left as it was.
    pub fn insert(&mut self, node: IndentedTaxon) -> (r: Result<(), SpideogError>)
        requires
            old(self).wf(),
            old(self)@.nodes.len() < u32::MAX,
        ensures
            final(self).wf(),
            match insert_model(old(self)@, node@) {
                Ok(m) => r.is_ok() && final(self)@ == m,
                Err(f) => (r matches Err(e) && e@ == f) && final(self)@ == old(self)@,
            },
    {
        let parent = self.find_valid_parent_for(&node)?;
        self.child(parent, node);
        Ok(())
    }

    /// Builds the tree of a sequence of nodes (see `build_model`).
    pub fn build(nodes: &Vec<IndentedTaxon>) -> (r: Result<Tree, SpideogError>)
        requires
            nodes@.len() < u32::MAX,
        ensures
            outcome(r) == build_model(nodes@.map_values(|n: IndentedTaxon| n@)),
            r matches Ok(t) ==> t.wf(),
    {
        let ghost views = nodes@.map_values(|n: IndentedTaxon| n@);
        if nodes.len() == 0 {
            return Err(SpideogError::EmptyFile);
        }
        let mut tree = Tree::new();
        let first = nodes[0].clone();
        assert(views.subrange(0, 1).drop_last() =~= Seq::<IndentedTaxonView>::empty());
        match tree.with_origin(first) {
            Ok(()) => {},
            Err(e) => {
                proof {
                    lemma_build_failure_persists(views, 1);
                }
                return Err(e);
            },
        }
        let mut i: usize = 1;
        while i < nodes.len()
            invariant
                1 <= i <= nodes@.len(),
                nodes@.len() < u32::MAX,
                views == nodes@.map_values(|n: IndentedTaxon| n@),
                tree.wf(),
                tree@.nodes.len() == i,
                build_model(views.subrange(0, i as int)) == Ok::<TreeModel, Failure>(tree@),
            decreases nodes@.len() - i,
        {
            let node = nodes[i].clone();
            assert(views.subrange(0, i + 1).drop_last() =~= views.subrange(0, i as int));
            match tree.insert(node) {
                Ok(()) => {},
                Err(e) => {
                    proof {
                        lemma_build_failure_persists(views, i + 1);
                    }
                    return Err(e);
                },
            }
            i = i + 1;
        }
        assert(views.subrange(0, nodes@.len() as int) =~= views);
        Ok(tree)
    }
}

impl Tree {
    /// The index of the first node equal to `x`, if there is one.
    pub fn position(&self, x: &IndentedTaxon) -> (r: Option<usize>)
        requires
            self.wf(),
        ensures
            r == find_first(self@.nodes, x@),
            r matches Some(i) ==> i < self@.nodes.len() && self@.nodes[i as int] == x@,
    {
        let count = dag_node_count(&self.tree);
        let mut i: usize = 0;
        while i < count
            invariant
                self.wf(),
                count == self@.nodes.len(),
                i <= count,
                find_first(self@.nodes.subrange(0, i as int), x@).is_none(),
            decreases count - i,
        {
            let node = dag_node_weight(&self.tree, i).unwrap();
            assert(node@ == self@.nodes[i as int]);
            assert(self@.nodes.subrange(0, i + 1).drop_last() =~= self@.nodes.subrange(0, i as int));
            if node.eq(x) {
                proof {
                    lemma_find_first_prefix(self@.nodes, x@, i + 1);
                }
                return Some(i);
            }
            i = i + 1;
        }
        assert(self@.nodes.subrange(0, count as int) =~= self@.nodes);
        None
    }

    /// Merges `rhs` into `self` (see `merge_model`): matched edges count
    /// one more, unmatched children are grafted.
    pub fn try_combine_with(self, rhs: Tree) -> (r: Result<Tree, SpideogError>)
        requires
            self.wf(),
            rhs.wf(),
            self@.nodes.len() + rhs@.nodes.len() <= u32::MAX,
        ensures
            outcome(r) == merge_model(self@, rhs@),
            r matches Ok(t) ==> t.wf() && t@.nodes.len() <= self@.nodes.len() + rhs@.nodes.len(),
    {
        if self.origin.is_none() {
            return Ok(rhs);
        }
        let ghost start = self@;
        let mut base = self;
        let n_edges = dag_edge_count(&rhs.tree);
        let mut k: usize = 0;
        while k < n_edges
            invariant
                base.wf(),
                rhs.wf(),
                n_edges == rhs@.edges.len(),
                k <= n_edges,
                start.nodes.len() + rhs@.nodes.len() <= u32::MAX,
                start.origin.is_some(),
                start == self@,
                base@.nodes.len() <= start.nodes.len() + k,
                merge_prefix(start, rhs@, k as int) == Ok::<TreeModel, Failure>(base@),
            decreases n_edges - k,
        {
            let (s_idx, t_idx, _) = dag_raw_edge(&rhs.tree, k);
            let source = dag_node_weight(&rhs.tree, s_idx).unwrap();
            let target = dag_node_weight(&rhs.tree, t_idx).unwrap();
            assert(source@ == rhs@.nodes[s_idx as int]);
            assert(target@ == rhs@.nodes[t_idx as int]);
            let s = base.position(source);
            let t = base.position(target);
            match (s, t) {
                (Some(s), Some(t)) => {
                    match dag_find_edge(&base.tree, s, t) {
                        Some(e) => {
                            assert(base@.edges[e as int].1 == e + 1);
                            let (_, _, w) = dag_raw_edge(&base.tree, e);
                            let w2 = if w == u32::MAX {
                                w
                            } else {
                                w + 1
                            };
                            let ghost before = base@;
                            dag_set_edge_weight(&mut base.tree, e, w2);
                            assert(base@.nodes == before.nodes);
                        },
                        None => {
                            if t >= 1 {
                                assert(base@.edges[t - 1].1 == t);
                            }
                            let a = dag_node_weight(&base.tree, s).unwrap().clone();
                            let b = dag_node_weight(&base.tree, t).unwrap().clone();
                            let err = SpideogError::EdgeNotFound(a, b);
                            assert(err@ == Failure::EdgeNotFound(base@.nodes[s as int], base@.nodes[t as int]));
                            assert(merge_edge(base@, source@, target@) == Err::<TreeModel, Failure>(err@));
                            assert(merge_prefix(start, rhs@, k + 1) == Err::<TreeModel, Failure>(err@));
                            proof {
                                lemma_merge_failure_persists(start, rhs@, k + 1, n_edges as int);
                            }
                            return Err(err);
                        },
                    }
                },
                (Some(s), None) => {
                    base.child(s, target.clone());
                },
                (None, Some(_)) => {
                    let err = SpideogError::ParentNotFound(target.clone());
                    assert(merge_edge(base@, source@, target@) == Err::<TreeModel, Failure>(err@));
                    assert(merge_prefix(start, rhs@, k + 1) == Err::<TreeModel, Failure>(err@));
                    proof {
                        lemma_merge_failure_persists(start, rhs@, k + 1, n_edges as int);
                    }
                    return Err(err);
                },
                (None, None) => {
                    assert(merge_edge(base@, source@, target@) == Err::<TreeModel, Failure>(Failure::NodeNotFound));
                    assert(merge_prefix(start, rhs@, k + 1) == Err::<TreeModel, Failure>(Failure::NodeNotFound));
                    proof {
                        lemma_merge_failure_persists(start, rhs@, k + 1, n_edges as int);
                    }
                    return Err(SpideogError::NodeNotFound);
                },
            }
            k = k + 1;
        }
        Ok(base)
    }
}

/// The number of nodes of the first `k` trees.
pub open spec fn total_nodes(trees: Seq<TreeModel>, k: int) -> int
    decreases k,
{
    if k <= 0 {
        0
    } else {
        total_nodes(trees, k - 1) + trees[k - 1].nodes.len()
    }
}

proof fn lemma_total_nodes_grows(trees: Seq<TreeModel>, k: int, n: int)
    requires
        0 <= k <= n,
    ensures
        total_nodes(trees, k) <= total_nodes(trees, n),
    decreases n,
{
    if n > k {
        lemma_total_nodes_grows(trees, k, n - 1);
    }
}

/// The first `k` trees merged in turn into an empty tree (see `merge_model`).
pub open spec fn merge_fold(trees: Seq<TreeModel>, k: int) -> Result<TreeModel, Failure>
    decreases k,
{
    if k <= 0 {
        Ok(empty_model())
    } else {
        match merge_fold(trees, k - 1) {
            Ok(m) => merge_model(m, trees[k - 1]),
            Err(e) => Err(e),
        }
    }
}

proof fn lemma_merge_fold_failure_persists(trees: Seq<TreeModel>, k: int, n: int)
    requires
        0 <= k <= n,
        merge_fold(trees, k) is Err,
    ensures
        merge_fold(trees, n) == merge_fold(trees, k),
    decreases n,
{
    if n > k {
        lemma_merge_fold_failure_persists(trees, k, n - 1);
    }
}

/// Merges trees in turn, starting from an empty tree (see `merge_fold`).
pub fn merge_all(trees: Vec<Tree>) -> (r: Result<Tree, SpideogError>)
    requires
        forall|i: int| 0 <= i < trees@.len() ==> (#[trigger] trees@[i]).wf(),
        total_nodes(trees@.map_values(|t: Tree| t@), trees@.len() as int) <= u32::MAX,
    ensures
        outcome(r) == merge_fold(trees@.map_values(|t: Tree| t@), trees@.len() as int),
        r matches Ok(t) ==> t.wf(),
{
    let ghost all = trees@;
    let ghost views = trees@.map_values(|t: Tree| t@);
    let ghost n = trees@.len() as int;
    let mut rest = trees;
    let mut merged = Tree::new();
    let count = rest.len();
    let mut i: usize = 0;
    while i < count
        invariant
            n == count,
            count == all.len(),
            i <= count,
            views == all.map_values(|t: Tree| t@),
            all == trees@,
            forall|k: int| 0 <= k < all.len() ==> (#[trigger] all[k]).wf(),
            total_nodes(views, n) <= u32::MAX,
            rest@ == all.subrange(i as int, n),
            merged.wf(),
            merged@.nodes.len() <= total_nodes(views, i as int),
            merge_fold(views, i as int) == Ok::<TreeModel, Failure>(merged@),
        decreases count - i,
    {
        let tree = rest.remove(0);
        assert(tree == all[i as int]);
        assert(views[i as int] == tree@);
        proof {
            lemma_total_nodes_grows(views, i + 1, n);
        }
        match merged.try_combine_with(tree) {
            Ok(t) => {
                merged = t;
            },
            Err(e) => {
                assert(merge_fold(views, i + 1) == Err::<TreeModel, Failure>(e@));
                proof {
                    lemma_merge_fold_failure_persists(views, i + 1, n);
                }
                return Err(e);
            },
        }
        assert(rest@ =~= all.subrange(i + 1, n));
        i = i + 1;
    }
    Ok(merged)
}

/// The tree that the first `k` records build. Record by record, in order,
/// the rank code is read after the one before it, then the node is placed:
/// the first as the root, which must not be indented, each next one under
/// the parent that it takes. The first record that fails gives the failure.
pub open spec fn records_tree(records: Seq<ReportRecord>, k: int) -> Result<TreeModel, Failure>
    decreases k,
{
    if k <= 0 {
        Err(Failure::EmptyFile)
    } else {
        let prev = if k == 1 {
            Ok(empty_model())
        } else {
            records_tree(records, k - 1)
        };
        match prev {
            Err(e) => Err(e),
            Ok(m) => match rank_context(rank_codes(records), k) {
                None => Err(Failure::RankParsing),
                Some(rank) => {
                    let node = node_from(records[k - 1], rank);
                    if k == 1 {
                        if node.indent == 0 {
                            Ok(rooted_model(node))
                        } else {
                            Err(Failure::NonZeroIndentRoot(node.indent))
                        }
                    } else {
                        insert_model(m, node)
                    }
                },
            },
        }
    }
}

proof fn lemma_records_failure_persists(records: Seq<ReportRecord>, k: int, n: int)
    requires
        1 <= k <= n,
        records_tree(records, k) is Err,
    ensures
        records_tree(records, n) == records_tree(records, k),
    decreases n,
{
    if n > k {
        lemma_records_failure_persists(records, k, n - 1);
    }
}

/// Builds the tree of a report's records (see `records_tree`).
pub fn parse_tree(records: &Vec<ReportRecord>) -> (r: Result<Tree, SpideogError>)
    requires
        records@.len() < u32::MAX,
    ensures
        outcome(r) == records_tree(records@, records@.len() as int),
        r matches Err(SpideogError::RankParsing(e)) ==> first_rank_error(records@, e),
        r matches Ok(t) ==> t.wf(),
{
    if records.len() == 0 {
        return Err(SpideogError::EmptyFile);
    }
    let ghost codes = rank_codes(records@);
    let ghost n = records@.len() as int;
    let mut tree = Tree::new();
    let mut last: Option<Rank> = None;
    let mut i: usize = 0;
    while i < records.len()
        invariant
            i <= records@.len() < u32::MAX,
            n == records@.len(),
            codes == rank_codes(records@),
            tree.wf(),
            tree@.nodes.len() == i,
            last == rank_context(codes, i as int),
            forall|j: int| 0 <= j < i ==> (#[trigger] rank_context(codes, j + 1)).is_some(),
            i == 0 ==> tree@ == empty_model(),
            i > 0 ==> records_tree(records@, i as int) == Ok::<TreeModel, Failure>(tree@),
        decreases records@.len() - i,
    {
        assert(codes[i as int] == records@[i as int].3@);
        let node = match adapt_record(&records[i], last) {
            Ok(node) => node,
            Err(e) => {
                assert(e matches SpideogError::RankParsing(re) && first_rank_error(records@, re));
                assert(records_tree(records@, i + 1) == Err::<TreeModel, Failure>(e@));
                proof {
                    lemma_records_failure_persists(records@, i + 1, n);
                }
                return Err(e);
            },
        };
        last = Some(node.taxon.taxonomy_level);
        let placed = if i == 0 {
            tree.with_origin(node)
        } else {
            tree.insert(node)
        };
        match placed {
            Ok(()) => {},
            Err(e) => {
                assert(records_tree(records@, i + 1) == Err::<TreeModel, Failure>(e@));
                proof {
                    lemma_records_failure_persists(records@, i + 1, n);
                }
                return Err(e);
            },
        }
        i = i + 1;
    }
    Ok(tree)
}

/// The view of a result that holds an index.
pub open spec fn outcome_index(r: Result<usize, SpideogError>) -> Result<usize, Failure> {
    match r {
        Ok(i) => Ok(i),
        Err(e) => Err(e@),
    }
}

} // verus!

verus! {

proof fn lemma_find_first_some(nodes: Seq<IndentedTaxonView>, x: IndentedTaxonView)
    requires
        nodes.len() <= usize::MAX,
    ensures
        find_first(nodes, x) matches Some(j) ==> j < nodes.len() && nodes[j as int] == x,
    decreases nodes.len(),
{
    if nodes.len() > 0 {
        lemma_find_first_some(nodes.drop_last(), x);
        if find_first(nodes.drop_last(), x) is Some {
            let j = find_first(nodes.drop_last(), x)->Some_0 as int;
            assert(nodes.drop_last()[j] == nodes[j]);
        }
    }
}

proof fn lemma_find_first_distinct(nodes: Seq<IndentedTaxonView>, i: int)
    requires
        0 <= i < nodes.len(),
        forall|a: int, b: int| 0 <= a < b < nodes.len() ==> nodes[a] != nodes[b],
        nodes.len() <= usize::MAX,
    ensures
        find_first(nodes, nodes[i]) == Some(i as usize),
    decreases nodes.len(),
{
    let prefix = nodes.drop_last();
    if i < nodes.len() - 1 {
        assert(prefix[i] == nodes[i]);
        lemma_find_first_distinct(prefix, i);
    } else {
        lemma_find_first_some(prefix, nodes[i]);
        if find_first(prefix, nodes[i]) is Some {
            let j = find_first(prefix, nodes[i])->Some_0 as int;
            assert(prefix[j] == nodes[j]);
        }
    }
}

/// What a successful build holds: the nodes given, in order, each after the
/// first under one edge, the last one added last.
proof fn lemma_build_shape(nodes: Seq<IndentedTaxonView>)
    requires
        build_model(nodes) is Ok,
    ensures
        build_model(nodes)->Ok_0.nodes == nodes,
        build_model(nodes)->Ok_0.edges.len() + 1 == nodes.len(),
        build_model(nodes)->Ok_0.last == Some((nodes.len() - 1) as usize),
    decreases nodes.len(),
{
    if nodes.len() > 1 {
        lemma_build_shape(nodes.drop_last());
        assert(nodes.drop_last().push(nodes.last()) =~= nodes);
    } else {
        assert(seq![nodes[0]] =~= nodes);
    }
}

proof fn lemma_records_tree_shape(records: Seq<ReportRecord>, k: int)
    requires
        1 <= k,
        records_tree(records, k) is Ok,
    ensures
        records_tree(records, k)->Ok_0.nodes.len() == k,
        records_tree(records, k)->Ok_0.edges.len() + 1 == k,
    decreases k,
{
    if k > 1 {
        lemma_records_tree_shape(records, k - 1);
    }
}

/// A report whose records all build into a tree gives one node per record
/// and one edge less than nodes.
pub proof fn lemma_build_counts(records: Seq<ReportRecord>)
    requires
        records_tree(records, records.len() as int) is Ok,
    ensures
        records_tree(records, records.len() as int)->Ok_0.nodes.len() == records.len(),
        records_tree(records, records.len() as int)->Ok_0.edges.len() + 1 == records.len(),
{
    lemma_records_tree_shape(records, records.len() as int);
}

/// Where every node is more indented than the one before it, starting from
/// an unindented root, the nodes form a chain: the parent of each node is
/// the node just before it.
pub proof fn lemma_increasing_indents_chain(nodes: Seq<IndentedTaxonView>)
    requires
        1 <= nodes.len() <= u32::MAX,
        nodes[0].indent == 0,
        forall|i: int, j: int|
            0 <= i < j < nodes.len() ==> (#[trigger] nodes[i]).indent < (#[trigger] nodes[j]).indent,
    ensures
        build_model(nodes) is Ok,
        forall|k: int|
            0 <= k < build_model(nodes)->Ok_0.edges.len() ==> #[trigger] build_model(nodes)->Ok_0.edges[k].0
                == k,
    decreases nodes.len(),
{
    if nodes.len() > 1 {
        let prefix = nodes.drop_last();
        assert forall|i: int, j: int| 0 <= i < j < prefix.len() implies (#[trigger] prefix[i]).indent
            < (#[trigger] prefix[j]).indent by {
            assert(prefix[i] == nodes[i] && prefix[j] == nodes[j]);
        }
        lemma_increasing_indents_chain(prefix);
        lemma_build_shape(prefix);
        let m = build_model(prefix)->Ok_0;
        let last = (prefix.len() - 1) as usize;
        assert(m.nodes[last as int] == nodes[nodes.len() - 2]);
        assert(nodes[nodes.len() - 2].indent < nodes[nodes.len() - 1].indent);
        assert(valid_parent(m, nodes.last()) == Ok::<usize, Failure>(last));
        assert(build_model(nodes) == Ok::<TreeModel, Failure>(add_child_model(m, last, nodes.last(), 1)));
        let r = add_child_model(m, last, nodes.last(), 1);
        assert forall|k: int| 0 <= k < r.edges.len() implies #[trigger] r.edges[k].0 == k by {
            if k < m.edges.len() {
                assert(r.edges[k] == m.edges[k]);
            }
        }
    }
}

/// Merging an empty tree into a tree leaves it as it is.
pub proof fn lemma_merge_empty_identity(t: TreeModel)
    requires
        model_wf(t),
    ensures
        merge_model(t, empty_model()) == Ok::<TreeModel, Failure>(t),
{
    if t.origin.is_none() {
        assert(t.nodes =~= Seq::<IndentedTaxonView>::empty());
        assert(t.edges =~= Seq::<(usize, usize, u32)>::empty());
    }
}

/// `t` with the first `k` edges of weight 2.
pub open spec fn doubled_prefix(t: TreeModel, k: int) -> TreeModel {
    TreeModel {
        edges: Seq::new(
            t.edges.len(),
            |i: int|
                if i < k {
                    (t.edges[i].0, t.edges[i].1, 2u32)
                } else {
                    t.edges[i]
                },
        ),
        ..t
    }
}

/// Merging a freshly built tree, whose nodes are distinct and whose edges
/// have weight 1, with itself gives the same tree with every edge of weight 2.
pub proof fn lemma_merge_self_doubles(t: TreeModel)
    requires
        model_wf(t),
        t.nodes.len() > 0,
        forall|a: int, b: int| 0 <= a < b < t.nodes.len() ==> t.nodes[a] != t.nodes[b],
        forall|k: int| 0 <= k < t.edges.len() ==> (#[trigger] t.edges[k]).2 == 1,
    ensures
        merge_model(t, t) == Ok::<TreeModel, Failure>(doubled_prefix(t, t.edges.len() as int)),
{
    let n = t.edges.len() as int;
    assert forall|k: int| 0 <= k <= n implies merge_prefix(t, t, k) == Ok::<TreeModel, Failure>(
        doubled_prefix(t, k),
    ) by {
        lemma_merge_self_prefix(t, k);
    }
}

proof fn lemma_merge_self_prefix(t: TreeModel, k: int)
    requires
        model_wf(t),
        t.nodes.len() > 0,
        forall|a: int, b: int| 0 <= a < b < t.nodes.len() ==> t.nodes[a] != t.nodes[b],
        forall|k: int| 0 <= k < t.edges.len() ==> (#[trigger] t.edges[k]).2 == 1,
        0 <= k <= t.edges.len(),
    ensures
        merge_prefix(t, t, k) == Ok::<TreeModel, Failure>(doubled_prefix(t, k)),
    decreases k,
{
    if k == 0 {
        assert(doubled_prefix(t, 0).edges =~= t.edges);
    } else {
        lemma_merge_self_prefix(t, k - 1);
        let m = doubled_prefix(t, k - 1);
        let e = t.edges[k - 1];
        assert(e.1 == k && e.0 <= k - 1);
        lemma_find_first_distinct(t.nodes, e.0 as int);
        lemma_find_first_distinct(t.nodes, e.1 as int);
        assert(m.edges[k - 1] == e);
        assert(m.edges.update(k - 1, (e.0, e.1, saturating_inc(e.2))) =~= doubled_prefix(t, k).edges);
    }
}

} // verus!
