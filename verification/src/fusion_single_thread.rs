//! A single-threaded fusion solver over its own copy of the decoding graph: vertices, edges that
//! grow from both ends, and alternating-tree nodes grown from the defects, kept in union-find
//! clusters.

use crate::util::{EdgeIndex, VertexIndex, Weight};
use vstd::prelude::*;

verus! {

/// a vertex of the decoding graph
pub struct Node {
    /// the index of this node in [`FusionSingleThread::nodes`]
    pub node_index: usize,
    /// a virtual node can be matched any number of times
    pub is_virtual: bool,
    /// whether this node is a defect of the loaded syndrome
    pub is_syndrome: bool,
    /// the indices of the edges incident to this node
    pub edges: Vec<EdgeIndex>,
    /// the tree node made of this node alone, if it is a syndrome node
    pub tree_node: Option<usize>,
    /// the tree node whose cluster has reached this node
    pub propagated_tree_node: Option<usize>,
}

/// a node of an alternating tree: a single syndrome node or a blossom
pub struct TreeNode {
    /// the index of this tree node in [`FusionSingleThread::tree_nodes`]
    pub tree_node_index: usize,
    /// once set, this tree node belongs to a union-find cluster that only grows
    pub fallback_union_find: bool,
    /// the syndrome node, if this tree node is a single vertex
    pub syndrome_node: Option<VertexIndex>,
    /// the odd cycle of tree nodes of a blossom; empty otherwise
    pub blossom: Vec<usize>,
    /// the sides of the edges on the boundary of this tree node, as `(is_left, edge)`
    pub boundary: Vec<(bool, EdgeIndex)>,
    /// the dual variable of this tree node
    pub dual_variable: Weight,
}

/// an edge of the decoding graph, growing from both ends
pub struct Edge {
    /// the index of this edge in [`FusionSingleThread::edges`]
    pub edge_index: usize,
    /// the total weight of this edge
    pub weight: Weight,
    /// the end with the smaller index
    pub left: VertexIndex,
    /// the end with the larger index
    pub right: VertexIndex,
    /// the growth from the left end
    pub left_growth: Weight,
    /// the growth from the right end
    pub right_growth: Weight,
    /// the tree node growing from the left end
    pub left_tree_node: Option<usize>,
    /// the tree node growing from the right end
    pub right_tree_node: Option<usize>,
}

/// the payload of a union-find cluster of tree nodes: the number of tree nodes in it
#[derive(Debug, Clone, Copy, PartialEq, Eq, Structural)]
pub struct FusionUnionNode {
    pub set_size: usize,
}

impl FusionUnionNode {
    /// the payload of the union of two clusters, and whether the left one becomes the root (the
    /// larger one does, the left one on a tie)
    pub fn union(left: &Self, right: &Self) -> (r: (bool, Self))
        requires
            left.set_size + right.set_size <= usize::MAX,
        ensures
            r.0 == (left.set_size >= right.set_size),
            r.1.set_size == left.set_size + right.set_size,
    {
        let result = FusionUnionNode { set_size: left.set_size + right.set_size };
        (left.set_size >= right.set_size, result)
    }

    /// a cluster of a single tree node again
    pub fn clear(&mut self)
        ensures
            final(self).set_size == 1,
    {
        self.set_size = 1;
    }

    /// a cluster of a single tree node
    pub fn default() -> (r: Self)
        ensures
            r.set_size == 1,
    {
        FusionUnionNode { set_size: 1 }
    }
}

/// the root of the cluster of element `i`, following parents toward smaller indices
pub open spec fn union_root(parents: Seq<usize>, i: int) -> int
    decreases i,
{
    if 0 <= i < parents.len() && parents[i] < i {
        union_root(parents, parents[i] as int)
    } else {
        i
    }
}

/// the union-find clusters of the tree nodes, each element pointing to a parent no later than
/// itself, a root to itself
pub struct UnionFind {
    pub parents: Vec<usize>,
    pub payload: Vec<FusionUnionNode>,
}

impl UnionFind {
    pub open spec fn wf(&self) -> bool {
        &&& self.parents@.len() == self.payload@.len()
        &&& forall|i: int| 0 <= i < self.parents@.len() ==> #[trigger] self.parents@[i] <= i
    }

    /// `n` elements, each a cluster of its own
    pub fn new(n: usize) -> (r: Self)
        ensures
            r.wf(),
            r.parents@.len() == n,
            forall|i: int| 0 <= i < n ==> #[trigger] r.parents@[i] == i && r.payload@[i].set_size == 1,
    {
        let mut parents: Vec<usize> = Vec::new();
        let mut payload: Vec<FusionUnionNode> = Vec::new();
        let mut i: usize = 0;
        while i < n
            invariant
                i <= n,
                parents@.len() == i,
                payload@.len() == i,
                forall|j: int| 0 <= j < i ==> #[trigger] parents@[j] == j && payload@[j].set_size == 1,
            decreases n - i,
        {
            parents.push(i);
            payload.push(FusionUnionNode::default());
            i = i + 1;
        }
        UnionFind { parents, payload }
    }

    /// add an element as a cluster of its own
    pub fn insert(&mut self, node: FusionUnionNode)
        requires
            old(self).wf(),
        ensures
            final(self).wf(),
            final(self).parents@ == old(self).parents@.push(old(self).parents@.len() as usize),
            final(self).payload@ == old(self).payload@.push(node),
    {
        let index = self.parents.len();
        self.parents.push(index);
        self.payload.push(node);
    }

    /// the root of the cluster of element `i`
    pub fn find(&self, i: usize) -> (r: usize)
        requires
            self.wf(),
            i < self.parents@.len(),
        ensures
            r == union_root(self.parents@, i as int),
    {
        let mut current = i;
        while self.parents[current] < current
            invariant
                self.wf(),
                current < self.parents@.len(),
                union_root(self.parents@, current as int) == union_root(self.parents@, i as int),
            decreases current,
        {
            current = self.parents[current];
        }
        current
    }

    /// remove every element
    pub fn clear(&mut self)
        ensures
            final(self).wf(),
            final(self).parents@.len() == 0,
    {
        self.parents.clear();
        self.payload.clear();
    }
}

/// the indices of the edges of `weighted_edges` with `v` as an end, in order
pub open spec fn incident_list(weighted_edges: Seq<(VertexIndex, VertexIndex, Weight)>, v: int) -> Seq<EdgeIndex>
    decreases weighted_edges.len(),
{
    if weighted_edges.len() == 0 {
        Seq::empty()
    } else {
        let prev = incident_list(weighted_edges.drop_last(), v);
        let (i, j, w) = weighted_edges.last();
        if i == v || j == v {
            prev.push((weighted_edges.len() - 1) as EdgeIndex)
        } else {
            prev
        }
    }
}

/// the solver: the decoding graph, the tree nodes and their union-find clusters
pub struct FusionSingleThread {
    /// all nodes, virtual ones included
    pub nodes: Vec<Node>,
    /// all edges, also reached from the nodes by index
    pub edges: Vec<Edge>,
    /// the union-find clusters of the tree nodes, one element per tree node
    pub union_clusters: UnionFind,
    /// the tree nodes: single syndrome nodes or blossoms
    pub tree_nodes: Vec<TreeNode>,
}

impl FusionSingleThread {
    /// the indices held by node `v` point into the solver
    pub open spec fn node_wf(&self, v: int) -> bool {
        let node = self.nodes@[v];
        &&& node.node_index == v
        &&& forall|k: int| 0 <= k < node.edges@.len() ==> #[trigger] node.edges@[k] < self.edges@.len()
        &&& node.tree_node matches Some(t) ==> t < self.tree_nodes@.len()
        &&& node.propagated_tree_node matches Some(t) ==> t < self.tree_nodes@.len()
    }

    /// the indices held by edge `e` point into the solver
    pub open spec fn edge_wf(&self, e: int) -> bool {
        let edge = self.edges@[e];
        &&& edge.edge_index == e
        &&& edge.left < self.nodes@.len()
        &&& edge.right < self.nodes@.len()
        &&& edge.left_tree_node matches Some(t) ==> t < self.tree_nodes@.len()
        &&& edge.right_tree_node matches Some(t) ==> t < self.tree_nodes@.len()
    }

    /// the indices held by tree node `t` point into the solver
    pub open spec fn tree_node_wf(&self, t: int) -> bool {
        let tree_node = self.tree_nodes@[t];
        &&& tree_node.tree_node_index == t
        &&& tree_node.syndrome_node matches Some(v) ==> v < self.nodes@.len()
        &&& forall|k: int| 0 <= k < tree_node.boundary@.len() ==> (#[trigger] tree_node.boundary@[k]).1 < self.edges@.len()
    }

    pub open spec fn wf(&self) -> bool {
        &&& self.union_clusters.wf()
        &&& self.union_clusters.parents@.len() == self.tree_nodes@.len()
        &&& forall|v: int| 0 <= v < self.nodes@.len() ==> #[trigger] self.node_wf(v)
        &&& forall|e: int| 0 <= e < self.edges@.len() ==> #[trigger] self.edge_wf(e)
        &&& forall|t: int| 0 <= t < self.tree_nodes@.len() ==> #[trigger] self.tree_node_wf(t)
    }

    /// the boundary of a new tree node made of node `v` alone: each incident edge, from the end at
    /// `v`
    pub open spec fn vertex_boundary(&self, v: int) -> Seq<(bool, EdgeIndex)> {
        let edges = self.nodes@[v].edges@;
        Seq::new(edges.len(), |k: int| (self.edges@[edges[k] as int].left == v, edges[k]))
    }

    /// whether tree node `t` is the root of its union-find cluster
    pub open spec fn is_root(&self, t: int) -> bool {
        union_root(self.union_clusters.parents@, t) == t
    }
}

/// every edge listed as incident comes from the list
proof fn lemma_incident_below(weighted_edges: Seq<(VertexIndex, VertexIndex, Weight)>, v: int)
    ensures
        forall|k: int|
            0 <= k < incident_list(weighted_edges, v).len() ==> #[trigger] incident_list(weighted_edges, v)[k]
                < weighted_edges.len(),
    decreases weighted_edges.len(),
{
    if weighted_edges.len() > 0 {
        let prev = weighted_edges.drop_last();
        lemma_incident_below(prev, v);
        let list = incident_list(weighted_edges, v);
        assert forall|k: int| 0 <= k < list.len() implies #[trigger] list[k] < weighted_edges.len() by {
            if k < incident_list(prev, v).len() {
                assert(list[k] == incident_list(prev, v)[k]);
            }
        }
    }
}

/// append edge `e` to the edges of node `v`
fn push_node_edge(nodes: &mut Vec<Node>, v: usize, e: EdgeIndex)
    requires
        v < old(nodes)@.len(),
    ensures
        final(nodes)@.len() == old(nodes)@.len(),
        final(nodes)@[v as int].edges@ == old(nodes)@[v as int].edges@.push(e),
        final(nodes)@[v as int].node_index == old(nodes)@[v as int].node_index,
        final(nodes)@[v as int].is_virtual == old(nodes)@[v as int].is_virtual,
        final(nodes)@[v as int].is_syndrome == old(nodes)@[v as int].is_syndrome,
        final(nodes)@[v as int].tree_node == old(nodes)@[v as int].tree_node,
        final(nodes)@[v as int].propagated_tree_node == old(nodes)@[v as int].propagated_tree_node,
        forall|u: int| 0 <= u < final(nodes)@.len() && u != v ==> #[trigger] final(nodes)@[u] == old(nodes)@[u],
{
    let mut node = nodes.remove(v);
    node.edges.push(e);
    nodes.insert(v, node);
}

/// mark node `v` as virtual
fn set_node_virtual(nodes: &mut Vec<Node>, v: usize)
    requires
        v < old(nodes)@.len(),
    ensures
        final(nodes)@.len() == old(nodes)@.len(),
        final(nodes)@[v as int].is_virtual,
        final(nodes)@[v as int].edges@ == old(nodes)@[v as int].edges@,
        final(nodes)@[v as int].node_index == old(nodes)@[v as int].node_index,
        final(nodes)@[v as int].is_syndrome == old(nodes)@[v as int].is_syndrome,
        final(nodes)@[v as int].tree_node == old(nodes)@[v as int].tree_node,
        final(nodes)@[v as int].propagated_tree_node == old(nodes)@[v as int].propagated_tree_node,
        forall|u: int| 0 <= u < final(nodes)@.len() && u != v ==> #[trigger] final(nodes)@[u] == old(nodes)@[u],
{
    let mut node = nodes.remove(v);
    node.is_virtual = true;
    nodes.insert(v, node);
}

impl FusionSingleThread {
    /// the solver over `node_num` nodes joined by `weighted_edges`, with the nodes of
    /// `virtual_nodes` virtual, no syndrome and no tree node
    pub fn new(node_num: usize, weighted_edges: &Vec<(VertexIndex, VertexIndex, Weight)>, virtual_nodes: &Vec<VertexIndex>) -> (r: Self)
        requires
            forall|k: int|
                0 <= k < weighted_edges@.len() ==> {
                    &&& (#[trigger] weighted_edges@[k]).0 < node_num
                    &&& weighted_edges@[k].1 < node_num
                    &&& weighted_edges@[k].0 != weighted_edges@[k].1
                },
            forall|k: int| 0 <= k < virtual_nodes@.len() ==> #[trigger] virtual_nodes@[k] < node_num,
        ensures
            r.wf(),
            r.nodes@.len() == node_num,
            r.edges@.len() == weighted_edges@.len(),
            r.tree_nodes@.len() == 0,
            forall|v: int|
                0 <= v < node_num ==> {
                    &&& (#[trigger] r.nodes@[v]).is_virtual == virtual_nodes@.contains(v as VertexIndex)
                    &&& !r.nodes@[v].is_syndrome
                    &&& r.nodes@[v].edges@ == incident_list(weighted_edges@, v)
                    &&& r.nodes@[v].tree_node is None
                    &&& r.nodes@[v].propagated_tree_node is None
                },
            forall|e: int|
                0 <= e < weighted_edges@.len() ==> {
                    let (i, j, w) = weighted_edges@[e];
                    &&& (#[trigger] r.edges@[e]).weight == w
                    &&& r.edges@[e].left == if i < j { i } else { j }
                    &&& r.edges@[e].right == if i < j { j } else { i }
                    &&& r.edges@[e].left_growth == 0
                    &&& r.edges@[e].right_growth == 0
                    &&& r.edges@[e].left_tree_node is None
                    &&& r.edges@[e].right_tree_node is None
                },
    {
        let mut nodes: Vec<Node> = Vec::new();
        let mut v: usize = 0;
        while v < node_num
            invariant
                v <= node_num,
                nodes@.len() == v,
                forall|u: int|
                    0 <= u < v ==> {
                        &&& (#[trigger] nodes@[u]).node_index == u
                        &&& !nodes@[u].is_virtual
                        &&& !nodes@[u].is_syndrome
                        &&& nodes@[u].edges@.len() == 0
                        &&& nodes@[u].tree_node is None
                        &&& nodes@[u].propagated_tree_node is None
                    },
            decreases node_num - v,
        {
            nodes.push(
                Node {
                    node_index: v,
                    is_virtual: false,
                    is_syndrome: false,
                    edges: Vec::new(),
                    tree_node: None,
                    propagated_tree_node: None,
                },
            );
            v = v + 1;
        }
        let mut k: usize = 0;
        while k < virtual_nodes.len()
            invariant
                k <= virtual_nodes@.len(),
                nodes@.len() == node_num,
                forall|x: int| 0 <= x < virtual_nodes@.len() ==> #[trigger] virtual_nodes@[x] < node_num,
                forall|u: int|
                    0 <= u < node_num ==> {
                        &&& (#[trigger] nodes@[u]).node_index == u
                        &&& nodes@[u].is_virtual == virtual_nodes@.take(k as int).contains(u as VertexIndex)
                        &&& !nodes@[u].is_syndrome
                        &&& nodes@[u].edges@.len() == 0
                        &&& nodes@[u].tree_node is None
                        &&& nodes@[u].propagated_tree_node is None
                    },
            decreases virtual_nodes@.len() - k,
        {
            let ghost before = nodes@;
            set_node_virtual(&mut nodes, virtual_nodes[k]);
            proof {
                let taken = virtual_nodes@.take(k as int);
                let next = virtual_nodes@.take(k + 1);
                assert(next =~= taken.push(virtual_nodes@[k as int]));
                assert forall|u: int| 0 <= u < node_num implies (#[trigger] nodes@[u]).is_virtual
                    == next.contains(u as VertexIndex) by {
                    if u == virtual_nodes@[k as int] as int {
                        assert(next[k as int] == u as VertexIndex);
                    }
                    if next.contains(u as VertexIndex) {
                        let x = choose|x: int| 0 <= x < next.len() && next[x] == u as VertexIndex;
                        if x < k {
                            assert(taken[x] == u as VertexIndex);
                        }
                    }
                    if taken.contains(u as VertexIndex) {
                        let x = choose|x: int| 0 <= x < taken.len() && taken[x] == u as VertexIndex;
                        assert(next[x] == u as VertexIndex);
                    }
                    if u != virtual_nodes@[k as int] as int {
                        assert(nodes@[u] == before[u]);
                    }
                }
            }
            k = k + 1;
        }
        assert(virtual_nodes@.take(virtual_nodes@.len() as int) =~= virtual_nodes@);
        let mut edges: Vec<Edge> = Vec::new();
        let mut e: usize = 0;
        while e < weighted_edges.len()
            invariant
                e <= weighted_edges@.len(),
                edges@.len() == e,
                nodes@.len() == node_num,
                forall|x: int|
                    0 <= x < weighted_edges@.len() ==> {
                        &&& (#[trigger] weighted_edges@[x]).0 < node_num
                        &&& weighted_edges@[x].1 < node_num
                        &&& weighted_edges@[x].0 != weighted_edges@[x].1
                    },
                forall|u: int|
                    0 <= u < node_num ==> {
                        &&& (#[trigger] nodes@[u]).node_index == u
                        &&& nodes@[u].is_virtual == virtual_nodes@.contains(u as VertexIndex)
                        &&& !nodes@[u].is_syndrome
                        &&& nodes@[u].edges@ == incident_list(weighted_edges@.take(e as int), u)
                        &&& nodes@[u].tree_node is None
                        &&& nodes@[u].propagated_tree_node is None
                    },
                forall|x: int|
                    0 <= x < e ==> {
                        let (i, j, w) = weighted_edges@[x];
                        &&& (#[trigger] edges@[x]).edge_index == x
                        &&& edges@[x].weight == w
                        &&& edges@[x].left == if i < j { i } else { j }
                        &&& edges@[x].right == if i < j { j } else { i }
                        &&& edges@[x].left_growth == 0
                        &&& edges@[x].right_growth == 0
                        &&& edges@[x].left_tree_node is None
                        &&& edges@[x].right_tree_node is None
                    },
            decreases weighted_edges@.len() - e,
        {
            let (i, j, weight) = weighted_edges[e];
            let left = if i < j { i } else { j };
            let right = if i < j { j } else { i };
            edges.push(
                Edge {
                    edge_index: e,
                    weight,
                    left,
                    right,
                    left_growth: 0,
                    right_growth: 0,
                    left_tree_node: None,
                    right_tree_node: None,
                },
            );
            let ghost before = nodes@;
            push_node_edge(&mut nodes, i, e);
            let ghost middle = nodes@;
            push_node_edge(&mut nodes, j, e);
            proof {
                let prefix = weighted_edges@.take(e + 1);
                assert(prefix.drop_last() =~= weighted_edges@.take(e as int));
                assert(prefix.last() == (i, j, weight));
                assert forall|u: int| 0 <= u < node_num implies (#[trigger] nodes@[u]).edges@ == incident_list(
                    prefix,
                    u,
                ) by {
                    if u != j as int {
                        assert(nodes@[u] == middle[u]);
                    }
                    if u != i as int {
                        assert(middle[u] == before[u]);
                    }
                }
            }
            e = e + 1;
        }
        assert(weighted_edges@.take(weighted_edges@.len() as int) =~= weighted_edges@);
        let solver = FusionSingleThread { nodes, edges, union_clusters: UnionFind::new(0), tree_nodes: Vec::new() };
        proof {
            assert forall|v: int| 0 <= v < node_num implies #[trigger] solver.node_wf(v) by {
                lemma_incident_below(weighted_edges@, v);
            }
        }
        solver
    }
}

/// set the tree node and the propagated tree node of node `v`, and whether it is a syndrome node
fn set_node_state(nodes: &mut Vec<Node>, v: usize, is_syndrome: bool, tree_node: Option<usize>, propagated: Option<usize>)
    requires
        v < old(nodes)@.len(),
    ensures
        final(nodes)@.len() == old(nodes)@.len(),
        final(nodes)@[v as int].is_syndrome == is_syndrome,
        final(nodes)@[v as int].tree_node == tree_node,
        final(nodes)@[v as int].propagated_tree_node == propagated,
        final(nodes)@[v as int].edges@ == old(nodes)@[v as int].edges@,
        final(nodes)@[v as int].node_index == old(nodes)@[v as int].node_index,
        final(nodes)@[v as int].is_virtual == old(nodes)@[v as int].is_virtual,
        forall|u: int| 0 <= u < final(nodes)@.len() && u != v ==> #[trigger] final(nodes)@[u] == old(nodes)@[u],
{
    let mut node = nodes.remove(v);
    node.is_syndrome = is_syndrome;
    node.tree_node = tree_node;
    node.propagated_tree_node = propagated;
    nodes.insert(v, node);
}

/// clear the growth of edge `e` and the tree nodes growing it
fn clear_edge_growth(edges: &mut Vec<Edge>, e: usize)
    requires
        e < old(edges)@.len(),
    ensures
        final(edges)@ == old(edges)@.update(
            e as int,
            Edge {
                left_growth: 0,
                right_growth: 0,
                left_tree_node: None,
                right_tree_node: None,
                ..old(edges)@[e as int]
            },
        ),
{
    let mut edge = edges.remove(e);
    edge.left_growth = 0;
    edge.right_growth = 0;
    edge.left_tree_node = None;
    edge.right_tree_node = None;
    let ghost before = edges@;
    edges.insert(e, edge);
    assert(edges@ =~= old(edges)@.update(
        e as int,
        Edge { left_growth: 0, right_growth: 0, left_tree_node: None, right_tree_node: None, ..old(edges)@[e as int] },
    ));
}

impl FusionSingleThread {
    /// forget every tree node and all growth, keeping the graph and the syndrome
    pub fn clear_growth(&mut self)
        requires
            old(self).wf(),
        ensures
            final(self).wf(),
            final(self).nodes@.len() == old(self).nodes@.len(),
            final(self).edges@.len() == old(self).edges@.len(),
            final(self).tree_nodes@.len() == 0,
            forall|v: int|
                0 <= v < final(self).nodes@.len() ==> {
                    &&& (#[trigger] final(self).nodes@[v]).tree_node is None
                    &&& final(self).nodes@[v].propagated_tree_node is None
                    &&& final(self).nodes@[v].is_syndrome == old(self).nodes@[v].is_syndrome
                    &&& final(self).nodes@[v].is_virtual == old(self).nodes@[v].is_virtual
                    &&& final(self).nodes@[v].edges@ == old(self).nodes@[v].edges@
                },
            forall|e: int|
                0 <= e < final(self).edges@.len() ==> #[trigger] final(self).edges@[e] == (Edge {
                    left_growth: 0,
                    right_growth: 0,
                    left_tree_node: None,
                    right_tree_node: None,
                    ..old(self).edges@[e]
                }),
    {
        let mut v: usize = 0;
        while v < self.nodes.len()
            invariant
                v <= self.nodes@.len(),
                self.nodes@.len() == old(self).nodes@.len(),
                self.edges == old(self).edges,
                forall|u: int|
                    0 <= u < self.nodes@.len() ==> {
                        &&& (#[trigger] self.nodes@[u]).node_index == old(self).nodes@[u].node_index
                        &&& self.nodes@[u].is_syndrome == old(self).nodes@[u].is_syndrome
                        &&& self.nodes@[u].is_virtual == old(self).nodes@[u].is_virtual
                        &&& self.nodes@[u].edges@ == old(self).nodes@[u].edges@
                        &&& u < v ==> self.nodes@[u].tree_node is None && self.nodes@[u].propagated_tree_node is None
                    },
            decreases self.nodes@.len() - v,
        {
            let is_syndrome = self.nodes[v].is_syndrome;
            let ghost before = self.nodes@;
            set_node_state(&mut self.nodes, v, is_syndrome, None, None);
            proof {
                assert forall|u: int| 0 <= u < self.nodes@.len() && u != v implies #[trigger] self.nodes@[u] == before[u] by {
                }
            }
            v = v + 1;
        }
        let ghost cleared_nodes = self.nodes@;
        let mut e: usize = 0;
        while e < self.edges.len()
            invariant
                e <= self.edges@.len(),
                self.nodes@ == cleared_nodes,
                self.edges@.len() == old(self).edges@.len(),
                forall|f: int|
                    0 <= f < self.edges@.len() ==> #[trigger] self.edges@[f] == if f < e {
                        Edge {
                            left_growth: 0,
                            right_growth: 0,
                            left_tree_node: None,
                            right_tree_node: None,
                            ..old(self).edges@[f]
                        }
                    } else {
                        old(self).edges@[f]
                    },
            decreases self.edges@.len() - e,
        {
            clear_edge_growth(&mut self.edges, e);
            e = e + 1;
        }
        self.union_clusters.clear();
        self.tree_nodes.clear();
        proof {
            let start = *old(self);
            assert(start.wf());
            assert forall|v: int| 0 <= v < self.nodes@.len() implies #[trigger] self.node_wf(v) by {
                assert(start.node_wf(v));
                assert forall|k: int| 0 <= k < self.nodes@[v].edges@.len() implies #[trigger] self.nodes@[v].edges@[k]
                    < self.edges@.len() by {
                    assert(start.nodes@[v].edges@[k] == self.nodes@[v].edges@[k]);
                }
            }
            assert forall|f: int| 0 <= f < self.edges@.len() implies #[trigger] self.edge_wf(f) by {
                assert(old(self).edge_wf(f));
            }
        }
    }

    /// whether tree node `tree_node_index` is still the root of its union-find cluster
    pub fn is_tree_node_union_find_root(&mut self, tree_node_index: usize) -> (r: bool)
        requires
            old(self).wf(),
            tree_node_index < old(self).tree_nodes@.len(),
        ensures
            *final(self) == *old(self),
            r == old(self).is_root(tree_node_index as int),
    {
        let union_find_root = self.union_clusters.find(tree_node_index);
        tree_node_index == union_find_root
    }

    /// whether two tree nodes are in the same union-find cluster
    pub fn is_tree_node_union_find_root_same(&mut self, tree_node_index_1: usize, tree_node_index_2: usize) -> (r: bool)
        requires
            old(self).wf(),
            tree_node_index_1 < old(self).tree_nodes@.len(),
            tree_node_index_2 < old(self).tree_nodes@.len(),
        ensures
            *final(self) == *old(self),
            r == (union_root(old(self).union_clusters.parents@, tree_node_index_1 as int) == union_root(
                old(self).union_clusters.parents@,
                tree_node_index_2 as int,
            )),
    {
        let union_find_root_1 = self.union_clusters.find(tree_node_index_1);
        let union_find_root_2 = self.union_clusters.find(tree_node_index_2);
        union_find_root_1 == union_find_root_2
    }
}

/// the entries of `s` in the order of their first occurrence, each once
pub open spec fn first_occurrences(s: Seq<VertexIndex>) -> Seq<VertexIndex>
    decreases s.len(),
{
    if s.len() == 0 {
        Seq::empty()
    } else {
        let prev = first_occurrences(s.drop_last());
        if prev.contains(s.last()) {
            prev
        } else {
            prev.push(s.last())
        }
    }
}

/// an entry occurs among the first occurrences exactly when it occurs at all
proof fn lemma_first_occurrences_contains(s: Seq<VertexIndex>, x: VertexIndex)
    ensures
        first_occurrences(s).contains(x) == s.contains(x),
    decreases s.len(),
{
    if s.len() > 0 {
        let prev = s.drop_last();
        lemma_first_occurrences_contains(prev, x);
        if s.contains(x) && !prev.contains(x) {
            let i = choose|i: int| 0 <= i < s.len() && s[i] == x;
            if i < s.len() - 1 {
                assert(prev[i] == x);
            }
        }
        if prev.contains(x) {
            let i = choose|i: int| 0 <= i < prev.len() && prev[i] == x;
            assert(s[i] == x);
        }
        if first_occurrences(s).contains(x) && !first_occurrences(prev).contains(x) {
            assert(s.last() == x);
            assert(s[s.len() - 1] == x);
        }
        if x == s.last() {
            assert(s[s.len() - 1] == x);
            assert(first_occurrences(s).contains(x)) by {
                let p = first_occurrences(prev);
                if !p.contains(x) {
                    assert(p.push(x)[p.len() as int] == x);
                }
            }
        }
        if first_occurrences(prev).contains(x) {
            let p = first_occurrences(prev);
            let i = choose|i: int| 0 <= i < p.len() && p[i] == x;
            if !p.contains(s.last()) {
                assert(p.push(s.last())[i] == x);
            }
        }
    }
}

impl FusionSingleThread {
    /// the tree node of syndrome node `syndrome_node` alone, with every incident edge on its
    /// boundary; a node that already has its tree node keeps it
    pub fn add_tree_node_vertex(&mut self, syndrome_node: VertexIndex) -> (r: usize)
        requires
            old(self).wf(),
            syndrome_node < old(self).nodes@.len(),
            old(self).nodes@[syndrome_node as int].tree_node is None ==> {
                &&& old(self).nodes@[syndrome_node as int].propagated_tree_node is None
                &&& old(self).nodes@[syndrome_node as int].is_syndrome
            },
        ensures
            final(self).wf(),
            old(self).nodes@[syndrome_node as int].tree_node matches Some(t) ==> r == t && *final(self) == *old(
                self,
            ),
            old(self).nodes@[syndrome_node as int].tree_node is None ==> {
                &&& r == old(self).tree_nodes@.len()
                &&& final(self).tree_nodes@.len() == r + 1
                &&& forall|t: int| 0 <= t < r ==> #[trigger] final(self).tree_nodes@[t] == old(self).tree_nodes@[t]
                &&& final(self).tree_nodes@[r as int].tree_node_index == r
                &&& !final(self).tree_nodes@[r as int].fallback_union_find
                &&& final(self).tree_nodes@[r as int].syndrome_node == Some(syndrome_node)
                &&& final(self).tree_nodes@[r as int].blossom@.len() == 0
                &&& final(self).tree_nodes@[r as int].boundary@ == old(self).vertex_boundary(syndrome_node as int)
                &&& final(self).tree_nodes@[r as int].dual_variable == 0
                &&& final(self).union_clusters.parents@ == old(self).union_clusters.parents@.push(r)
                &&& final(self).nodes@.len() == old(self).nodes@.len()
                &&& final(self).nodes@[syndrome_node as int].tree_node == Some(r)
                &&& final(self).nodes@[syndrome_node as int].propagated_tree_node == Some(r)
                &&& final(self).nodes@[syndrome_node as int].is_syndrome
                &&& final(self).nodes@[syndrome_node as int].is_virtual == old(self).nodes@[syndrome_node as int].is_virtual
                &&& final(self).nodes@[syndrome_node as int].edges@ == old(self).nodes@[syndrome_node as int].edges@
                &&& forall|u: int|
                    0 <= u < final(self).nodes@.len() && u != syndrome_node ==> #[trigger] final(self).nodes@[u]
                        == old(self).nodes@[u]
                &&& final(self).edges == old(self).edges
            },
    {
        if let Some(t) = self.nodes[syndrome_node].tree_node {
            return t;
        }
        let mut boundary: Vec<(bool, EdgeIndex)> = Vec::new();
        let n = self.nodes[syndrome_node].edges.len();
        let mut k: usize = 0;
        while k < n
            invariant
                self.wf(),
                *self == *old(self),
                syndrome_node < self.nodes@.len(),
                n == self.nodes@[syndrome_node as int].edges@.len(),
                k <= n,
                boundary@ == self.vertex_boundary(syndrome_node as int).take(k as int),
            decreases n - k,
        {
            let e = self.nodes[syndrome_node].edges[k];
            proof {
                assert(self.node_wf(syndrome_node as int));
            }
            let is_left = self.edges[e].left == syndrome_node;
            boundary.push((is_left, e));
            proof {
                assert(boundary@ =~= self.vertex_boundary(syndrome_node as int).take(k + 1));
            }
            k = k + 1;
        }
        proof {
            assert(boundary@ =~= self.vertex_boundary(syndrome_node as int));
        }
        let index = self.tree_nodes.len();
        self.tree_nodes.push(
            TreeNode {
                tree_node_index: index,
                syndrome_node: Some(syndrome_node),
                fallback_union_find: false,
                blossom: Vec::new(),
                boundary,
                dual_variable: 0,
            },
        );
        self.union_clusters.insert(FusionUnionNode::default());
        set_node_state(&mut self.nodes, syndrome_node, true, Some(index), Some(index));
        proof {
            let start = *old(self);
            assert(start.wf());
            assert forall|v: int| 0 <= v < self.nodes@.len() implies #[trigger] self.node_wf(v) by {
                assert(start.node_wf(v));
                if v != syndrome_node {
                    assert(self.nodes@[v] == start.nodes@[v]);
                } else {
                    assert forall|k: int| 0 <= k < self.nodes@[v].edges@.len() implies #[trigger] self.nodes@[v].edges@[k]
                        < self.edges@.len() by {
                        assert(start.nodes@[v].edges@[k] == self.nodes@[v].edges@[k]);
                    }
                }
            }
            assert forall|f: int| 0 <= f < self.edges@.len() implies #[trigger] self.edge_wf(f) by {
                assert(start.edge_wf(f));
            }
            assert forall|t: int| 0 <= t < self.tree_nodes@.len() implies #[trigger] self.tree_node_wf(t) by {
                if t < index {
                    assert(start.tree_node_wf(t));
                    assert(self.tree_nodes@[t] == start.tree_nodes@[t]);
                } else {
                    let b = self.tree_nodes@[t].boundary@;
                    assert forall|k: int| 0 <= k < b.len() implies (#[trigger] b[k]).1 < self.edges@.len() by {
                        assert(start.node_wf(syndrome_node as int));
                        assert(b[k].1 == start.nodes@[syndrome_node as int].edges@[k]);
                    }
                }
            }
        }
        index
    }

    /// load a new syndrome: forget every tree node and all growth, mark exactly the nodes of
    /// `syndrome_nodes` as syndrome nodes, and make a tree node of each
    pub fn load_syndrome(&mut self, syndrome_nodes: &Vec<VertexIndex>)
        requires
            old(self).wf(),
            forall|k: int|
                0 <= k < syndrome_nodes@.len() ==> {
                    &&& (#[trigger] syndrome_nodes@[k]) < old(self).nodes@.len()
                    &&& !old(self).nodes@[syndrome_nodes@[k] as int].is_virtual
                },
        ensures
            final(self).wf(),
            final(self).nodes@.len() == old(self).nodes@.len(),
            final(self).edges@.len() == old(self).edges@.len(),
            final(self).tree_nodes@.len() == first_occurrences(syndrome_nodes@).len(),
            forall|t: int|
                0 <= t < final(self).tree_nodes@.len() ==> {
                    let tree_node = #[trigger] final(self).tree_nodes@[t];
                    &&& tree_node.syndrome_node == Some(first_occurrences(syndrome_nodes@)[t])
                    &&& tree_node.tree_node_index == t
                    &&& tree_node.dual_variable == 0
                    &&& tree_node.blossom@.len() == 0
                    &&& !tree_node.fallback_union_find
                    &&& tree_node.boundary@ == final(self).vertex_boundary(first_occurrences(syndrome_nodes@)[t] as int)
                },
            forall|v: int|
                0 <= v < final(self).nodes@.len() ==> {
                    &&& (#[trigger] final(self).nodes@[v]).is_syndrome == syndrome_nodes@.contains(v as VertexIndex)
                    &&& final(self).nodes@[v].tree_node is Some == syndrome_nodes@.contains(v as VertexIndex)
                    &&& final(self).nodes@[v].propagated_tree_node == final(self).nodes@[v].tree_node
                    &&& final(self).nodes@[v].tree_node matches Some(t) ==> final(self).tree_nodes@[t as int].syndrome_node
                        == Some(v as VertexIndex)
                    &&& final(self).nodes@[v].is_virtual == old(self).nodes@[v].is_virtual
                    &&& final(self).nodes@[v].edges@ == old(self).nodes@[v].edges@
                },
            forall|t: int|
                0 <= t < final(self).tree_nodes@.len() ==> {
                    &&& (#[trigger] final(self).tree_nodes@[t]).syndrome_node matches Some(v) && final(self).nodes@[v as int].tree_node
                        == Some(t as usize)
                    &&& final(self).union_clusters.parents@[t] == t
                },
            forall|e: int|
                0 <= e < final(self).edges@.len() ==> #[trigger] final(self).edges@[e] == (Edge {
                    left_growth: 0,
                    right_growth: 0,
                    left_tree_node: None,
                    right_tree_node: None,
                    ..old(self).edges@[e]
                }),
    {
        self.clear_growth();
        let ghost cleared = *self;
        let mut v: usize = 0;
        while v < self.nodes.len()
            invariant
                self.wf(),
                v <= self.nodes@.len(),
                self.nodes@.len() == cleared.nodes@.len(),
                self.edges == cleared.edges,
                self.tree_nodes@.len() == 0,
                forall|u: int|
                    0 <= u < self.nodes@.len() ==> {
                        &&& (#[trigger] self.nodes@[u]).tree_node is None
                        &&& self.nodes@[u].propagated_tree_node is None
                        &&& self.nodes@[u].is_virtual == cleared.nodes@[u].is_virtual
                        &&& self.nodes@[u].edges@ == cleared.nodes@[u].edges@
                        &&& u < v ==> !self.nodes@[u].is_syndrome
                    },
            decreases self.nodes@.len() - v,
        {
            let ghost before = *self;
            set_node_state(&mut self.nodes, v, false, None, None);
            proof {
                assert forall|u: int| 0 <= u < self.nodes@.len() implies #[trigger] self.node_wf(u) by {
                    assert(before.node_wf(u));
                    if u != v {
                        assert(self.nodes@[u] == before.nodes@[u]);
                    } else {
                        assert forall|k: int| 0 <= k < self.nodes@[u].edges@.len() implies #[trigger] self.nodes@[
                            u
                        ].edges@[k] < self.edges@.len() by {
                            assert(before.nodes@[u].edges@[k] == self.nodes@[u].edges@[k]);
                        }
                    }
                }
                assert forall|u: int| 0 <= u < self.nodes@.len() && u != v implies #[trigger] self.nodes@[u]
                    == before.nodes@[u] by {
                }
                assert forall|f: int| 0 <= f < self.edges@.len() implies #[trigger] self.edge_wf(f) by {
                    assert(before.edge_wf(f));
                }
                assert forall|t: int| 0 <= t < self.tree_nodes@.len() implies #[trigger] self.tree_node_wf(t) by {
                    assert(before.tree_node_wf(t));
                }
            }
            v = v + 1;
        }
        let ghost unmarked = *self;
        let mut k: usize = 0;
        while k < syndrome_nodes.len()
            invariant
                self.wf(),
                k <= syndrome_nodes@.len(),
                self.nodes@.len() == cleared.nodes@.len(),
                self.edges == cleared.edges,
                self.tree_nodes@.len() == first_occurrences(syndrome_nodes@.take(k as int)).len(),
                forall|t: int|
                    0 <= t < self.tree_nodes@.len() ==> {
                        let tree_node = #[trigger] self.tree_nodes@[t];
                        &&& tree_node.syndrome_node == Some(first_occurrences(syndrome_nodes@.take(k as int))[t])
                        &&& tree_node.dual_variable == 0
                        &&& tree_node.blossom@.len() == 0
                        &&& !tree_node.fallback_union_find
                        &&& tree_node.boundary@ == cleared.vertex_boundary(
                            first_occurrences(syndrome_nodes@.take(k as int))[t] as int,
                        )
                    },
                forall|x: int|
                    0 <= x < syndrome_nodes@.len() ==> {
                        &&& (#[trigger] syndrome_nodes@[x]) < cleared.nodes@.len()
                        &&& !cleared.nodes@[syndrome_nodes@[x] as int].is_virtual
                    },
                forall|u: int|
                    0 <= u < self.nodes@.len() ==> {
                        &&& (#[trigger] self.nodes@[u]).is_syndrome == syndrome_nodes@.take(k as int).contains(
                            u as VertexIndex,
                        )
                        &&& self.nodes@[u].tree_node is Some == syndrome_nodes@.take(k as int).contains(u as VertexIndex)
                        &&& self.nodes@[u].propagated_tree_node == self.nodes@[u].tree_node
                        &&& self.nodes@[u].tree_node matches Some(t) ==> self.tree_nodes@[t as int].syndrome_node == Some(
                            u as VertexIndex,
                        )
                        &&& self.nodes@[u].is_virtual == cleared.nodes@[u].is_virtual
                        &&& self.nodes@[u].edges@ == cleared.nodes@[u].edges@
                    },
                forall|t: int|
                    0 <= t < self.tree_nodes@.len() ==> {
                        &&& (#[trigger] self.tree_nodes@[t]).syndrome_node matches Some(v) && v < self.nodes@.len()
                            && self.nodes@[v as int].tree_node == Some(t as usize)
                        &&& self.union_clusters.parents@[t] == t
                    },
            decreases syndrome_nodes@.len() - k,
        {
            let s = syndrome_nodes[k];
            let ghost before = *self;
            let tree_node = self.nodes[s].tree_node;
            let propagated = self.nodes[s].propagated_tree_node;
            set_node_state(&mut self.nodes, s, true, tree_node, propagated);
            let ghost marked = *self;
            proof {
                assert forall|u: int| 0 <= u < self.nodes@.len() implies #[trigger] self.node_wf(u) by {
                    assert(before.node_wf(u));
                    if u != s {
                        assert(self.nodes@[u] == before.nodes@[u]);
                    } else {
                        assert forall|j: int| 0 <= j < self.nodes@[u].edges@.len() implies #[trigger] self.nodes@[
                            u
                        ].edges@[j] < self.edges@.len() by {
                            assert(before.nodes@[u].edges@[j] == self.nodes@[u].edges@[j]);
                        }
                    }
                }
                assert forall|f: int| 0 <= f < self.edges@.len() implies #[trigger] self.edge_wf(f) by {
                    assert(before.edge_wf(f));
                }
                assert forall|t: int| 0 <= t < self.tree_nodes@.len() implies #[trigger] self.tree_node_wf(t) by {
                    assert(before.tree_node_wf(t));
                }
            }
            let t = self.add_tree_node_vertex(s);
            proof {
                let taken = syndrome_nodes@.take(k as int);
                let next = syndrome_nodes@.take(k + 1);
                assert(next =~= taken.push(s));
                assert(self.nodes@.len() == self.nodes.len());
                assert(next.drop_last() =~= taken);
                assert(next.last() == s);
                lemma_first_occurrences_contains(taken, s);
                if !taken.contains(s) {
                    assert(before.nodes@[s as int].tree_node is None);
                }
                assert(marked.vertex_boundary(s as int) =~= cleared.vertex_boundary(s as int));
                let fo0 = first_occurrences(taken);
                let fo1 = first_occurrences(next);
                assert forall|t: int| 0 <= t < self.tree_nodes@.len() implies {
                    let tree_node = #[trigger] self.tree_nodes@[t];
                    &&& tree_node.syndrome_node == Some(fo1[t])
                    &&& tree_node.dual_variable == 0
                    &&& tree_node.blossom@.len() == 0
                    &&& !tree_node.fallback_union_find
                    &&& tree_node.boundary@ == cleared.vertex_boundary(fo1[t] as int)
                } by {
                    if t < before.tree_nodes@.len() {
                        assert(self.tree_nodes@[t] == before.tree_nodes@[t]);
                        if !fo0.contains(s) {
                            assert(fo1[t] == fo0[t]);
                        }
                    } else {
                        assert(fo1[t] == s);
                    }
                }
                assert forall|u: int| 0 <= u < self.nodes@.len() implies #[trigger] next.contains(u as VertexIndex)
                    == (taken.contains(u as VertexIndex) || u == s) by {
                    assert(next[k as int] == s);
                    if next.contains(u as VertexIndex) {
                        let x = choose|x: int| 0 <= x < next.len() && next[x] == u as VertexIndex;
                        if x < k {
                            assert(taken[x] == u as VertexIndex);
                        }
                    }
                    if taken.contains(u as VertexIndex) {
                        let x = choose|x: int| 0 <= x < taken.len() && taken[x] == u as VertexIndex;
                        assert(next[x] == u as VertexIndex);
                    }
                }
                assert forall|u: int| 0 <= u < self.nodes@.len() && u != s implies #[trigger] self.nodes@[u]
                    == before.nodes@[u] by {
                    assert(marked.nodes@[u] == before.nodes@[u]);
                }
                assert forall|u: int| 0 <= u < self.nodes@.len() implies {
                    &&& (#[trigger] self.nodes@[u]).is_syndrome == next.contains(u as VertexIndex)
                    &&& self.nodes@[u].tree_node is Some == next.contains(u as VertexIndex)
                    &&& self.nodes@[u].propagated_tree_node == self.nodes@[u].tree_node
                    &&& self.nodes@[u].tree_node matches Some(t) ==> self.tree_nodes@[t as int].syndrome_node == Some(
                        u as VertexIndex,
                    )
                    &&& self.nodes@[u].is_virtual == cleared.nodes@[u].is_virtual
                    &&& self.nodes@[u].edges@ == cleared.nodes@[u].edges@
                } by {
                    assert(next.contains(u as VertexIndex) == (taken.contains(u as VertexIndex) || u == s));
                    assert(before.nodes@[u].tree_node matches Some(t) ==> before.tree_nodes@[t as int].syndrome_node
                        == Some(u as VertexIndex));
                    if u != s {
                        assert(self.nodes@[u] == before.nodes@[u]);
                        if before.nodes@[u].tree_node is Some {
                            let t = before.nodes@[u].tree_node->Some_0;
                            assert(before.node_wf(u));
                            assert(t < before.tree_nodes@.len());
                            if before.nodes@[s as int].tree_node is Some {
                                assert(*self == marked);
                            } else {
                                assert(self.tree_nodes@[t as int] == before.tree_nodes@[t as int]);
                            }
                        }
                    } else if before.nodes@[u].tree_node is Some {
                        assert(*self == marked);
                    }
                }
                assert forall|x: int| 0 <= x < self.tree_nodes@.len() implies {
                    &&& (#[trigger] self.tree_nodes@[x]).syndrome_node matches Some(v) && v < self.nodes@.len()
                        && self.nodes@[v as int].tree_node == Some(x as usize)
                    &&& self.union_clusters.parents@[x] == x
                } by {
                    if x < before.tree_nodes@.len() {
                        assert(self.tree_nodes@[x] == before.tree_nodes@[x]);
                        let v = before.tree_nodes@[x].syndrome_node->Some_0;
                        if v != s {
                            assert(self.nodes@[v as int] == before.nodes@[v as int]);
                        }
                    }
                }
            }
            k = k + 1;
        }
        proof {
            assert(syndrome_nodes@.take(syndrome_nodes@.len() as int) =~= syndrome_nodes@);
            assert forall|t: int| 0 <= t < self.tree_nodes@.len() implies #[trigger] self.tree_nodes@[t].tree_node_index == t
                && self.tree_nodes@[t].boundary@ == self.vertex_boundary(first_occurrences(syndrome_nodes@)[t] as int) by {
                assert(self.tree_node_wf(t));
                let v = first_occurrences(syndrome_nodes@)[t] as int;
                assert(self.vertex_boundary(v) =~= cleared.vertex_boundary(v));
            }
        }
    }
}

/// how many times the side `is_left` of edge `e` occurs in `boundary`
pub open spec fn side_count(boundary: Seq<(bool, EdgeIndex)>, is_left: bool, e: int) -> int
    decreases boundary.len(),
{
    if boundary.len() == 0 {
        0
    } else {
        side_count(boundary.drop_last(), is_left, e) + if boundary.last() == (is_left, e as EdgeIndex) {
            1int
        } else {
            0int
        }
    }
}

/// a count of sides in a list is at most its length
proof fn lemma_side_count_bound(boundary: Seq<(bool, EdgeIndex)>, is_left: bool, e: int)
    ensures
        0 <= side_count(boundary, is_left, e) <= boundary.len(),
    decreases boundary.len(),
{
    if boundary.len() > 0 {
        lemma_side_count_bound(boundary.drop_last(), is_left, e);
    }
}

/// the bound on the growth of each side of an edge, and on the growth added at once, that keeps
/// every sum of growths within a `Weight`
pub const GROWTH_BOUND: Weight = 0x1000_0000_0000_0000;

/// add `length` to the growth of side `is_left` of edge `e`
fn add_edge_growth(edges: &mut Vec<Edge>, e: usize, is_left: bool, length: Weight)
    requires
        e < old(edges)@.len(),
        is_left ==> i64::MIN <= old(edges)@[e as int].left_growth + length <= i64::MAX,
        !is_left ==> i64::MIN <= old(edges)@[e as int].right_growth + length <= i64::MAX,
    ensures
        final(edges)@ == old(edges)@.update(
            e as int,
            if is_left {
                Edge { left_growth: (old(edges)@[e as int].left_growth + length) as Weight, ..old(edges)@[e as int] }
            } else {
                Edge { right_growth: (old(edges)@[e as int].right_growth + length) as Weight, ..old(edges)@[e as int] }
            },
        ),
{
    let ghost before = edges@;
    let mut edge = edges.remove(e);
    if is_left {
        edge.left_growth = edge.left_growth + length;
    } else {
        edge.right_growth = edge.right_growth + length;
    }
    edges.insert(e, edge);
    assert(edges@ =~= before.update(e as int, edge));
}

impl FusionSingleThread {
    /// the growth of side `is_left` of edge `e` once the first `n` sides of `boundary` have grown by
    /// `length`
    pub open spec fn growth_after(&self, boundary: Seq<(bool, EdgeIndex)>, n: int, length: int, e: int, is_left: bool) -> int {
        (if is_left {
            self.edges@[e].left_growth
        } else {
            self.edges@[e].right_growth
        }) + length * side_count(boundary.take(n), is_left, e)
    }

    /// growing the `n`-th side of the boundary of `tree_node` needs no other tree node: the edge is
    /// not yet fully grown, or it reaches a tree node beyond it, of the same cluster where the edge
    /// is over-grown
    pub open spec fn grows_safely(&self, tree_node: int, length: int, n: int) -> bool {
        let boundary = self.tree_nodes@[tree_node].boundary@;
        let (is_left, e) = boundary[n];
        let growth = self.growth_after(boundary, n + 1, length, e as int, true) + self.growth_after(
            boundary,
            n + 1,
            length,
            e as int,
            false,
        );
        let peer = if is_left {
            self.edges@[e as int].right_tree_node
        } else {
            self.edges@[e as int].left_tree_node
        };
        &&& growth >= self.edges@[e as int].weight ==> peer is Some
        &&& growth > self.edges@[e as int].weight ==> union_root(self.union_clusters.parents@, peer->Some_0 as int)
            == union_root(self.union_clusters.parents@, tree_node)
    }

    /// grow tree node `tree_node` by `length`: every side on its boundary grows by `length`, as
    /// many times as it occurs there
    pub fn grow_tree_node(&mut self, tree_node: usize, length: Weight)
        requires
            old(self).wf(),
            tree_node < old(self).tree_nodes@.len(),
            old(self).is_root(tree_node as int),
            -GROWTH_BOUND <= length * old(self).tree_nodes@[tree_node as int].boundary@.len() <= GROWTH_BOUND,
            forall|e: int|
                0 <= e < old(self).edges@.len() ==> -GROWTH_BOUND <= (#[trigger] old(self).edges@[e]).left_growth
                    <= GROWTH_BOUND && -GROWTH_BOUND <= old(self).edges@[e].right_growth <= GROWTH_BOUND,
            forall|n: int|
                0 <= n < old(self).tree_nodes@[tree_node as int].boundary@.len() ==> #[trigger] old(self).grows_safely(
                    tree_node as int,
                    length as int,
                    n,
                ),
        ensures
            final(self).wf(),
            final(self).nodes == old(self).nodes,
            final(self).tree_nodes == old(self).tree_nodes,
            final(self).union_clusters == old(self).union_clusters,
            final(self).edges@.len() == old(self).edges@.len(),
            forall|e: int|
                0 <= e < final(self).edges@.len() ==> {
                    let boundary = old(self).tree_nodes@[tree_node as int].boundary@;
                    &&& (#[trigger] final(self).edges@[e]).left_growth == old(self).edges@[e].left_growth + length
                        * side_count(boundary, true, e)
                    &&& final(self).edges@[e].right_growth == old(self).edges@[e].right_growth + length * side_count(
                        boundary,
                        false,
                        e,
                    )
                    &&& final(self).edges@[e].weight == old(self).edges@[e].weight
                    &&& final(self).edges@[e].left == old(self).edges@[e].left
                    &&& final(self).edges@[e].right == old(self).edges@[e].right
                    &&& final(self).edges@[e].edge_index == old(self).edges@[e].edge_index
                    &&& final(self).edges@[e].left_tree_node == old(self).edges@[e].left_tree_node
                    &&& final(self).edges@[e].right_tree_node == old(self).edges@[e].right_tree_node
                },
    {
        let ghost start = *old(self);
        let ghost boundary = start.tree_nodes@[tree_node as int].boundary@;
        let n = self.tree_nodes[tree_node].boundary.len();
        let mut idx: usize = 0;
        while idx < n
            invariant
                start == *old(self),
                boundary == start.tree_nodes@[tree_node as int].boundary@,
                n == boundary.len(),
                idx <= n,
                start.wf(),
                tree_node < start.tree_nodes@.len(),
                -GROWTH_BOUND <= length * n <= GROWTH_BOUND,
                forall|e: int|
                    0 <= e < start.edges@.len() ==> -GROWTH_BOUND <= (#[trigger] start.edges@[e]).left_growth
                        <= GROWTH_BOUND && -GROWTH_BOUND <= start.edges@[e].right_growth <= GROWTH_BOUND,
                self.nodes == start.nodes,
                self.tree_nodes == start.tree_nodes,
                self.union_clusters == start.union_clusters,
                self.edges@.len() == start.edges@.len(),
                forall|e: int|
                    0 <= e < self.edges@.len() ==> {
                        &&& (#[trigger] self.edges@[e]).left_growth == start.growth_after(
                            boundary,
                            idx as int,
                            length as int,
                            e,
                            true,
                        )
                        &&& self.edges@[e].right_growth == start.growth_after(boundary, idx as int, length as int, e, false)
                        &&& self.edges@[e].weight == start.edges@[e].weight
                        &&& self.edges@[e].left == start.edges@[e].left
                        &&& self.edges@[e].right == start.edges@[e].right
                        &&& self.edges@[e].edge_index == start.edges@[e].edge_index
                        &&& self.edges@[e].left_tree_node == start.edges@[e].left_tree_node
                        &&& self.edges@[e].right_tree_node == start.edges@[e].right_tree_node
                    },
            decreases n - idx,
        {
            let (is_left, e) = self.tree_nodes[tree_node].boundary[idx];
            proof {
                assert(start.tree_node_wf(tree_node as int));
                assert(boundary[idx as int] == (is_left, e));
                let prefix = boundary.take(idx as int);
                let next = boundary.take(idx + 1);
                assert(next.drop_last() =~= prefix);
                assert(next.last() == (is_left, e));
                lemma_side_count_bound(prefix, is_left, e as int);
                let c = side_count(prefix, is_left, e as int);
                assert(-GROWTH_BOUND <= length * c <= GROWTH_BOUND && length * (c + 1) == length * c + length
                    && -GROWTH_BOUND <= length * (c + 1) <= GROWTH_BOUND) by (nonlinear_arith)
                    requires
                        0 <= c < n,
                        -GROWTH_BOUND <= length * n <= GROWTH_BOUND,
                ;
            }
            let ghost pre = self.edges@;
            assert(pre.len() == self.edges.len());
            add_edge_growth(&mut self.edges, e, is_left, length);
            proof {
                let next = boundary.take(idx + 1);
                assert forall|f: int| 0 <= f < self.edges@.len() implies {
                    &&& (#[trigger] self.edges@[f]).left_growth == start.growth_after(boundary, idx + 1, length as int, f, true)
                    &&& self.edges@[f].right_growth == start.growth_after(boundary, idx + 1, length as int, f, false)
                } by {
                    assert(next.drop_last() =~= boundary.take(idx as int));
                    assert(next.last() == (is_left, e));
                    let cl = side_count(boundary.take(idx as int), true, f);
                    let cr = side_count(boundary.take(idx as int), false, f);
                    assert(length * (cl + 1) == length * cl + length && length * (cr + 1) == length * cr + length)
                        by (nonlinear_arith);
                    assert(side_count(next, true, f) == cl + if next.last() == (true, f as EdgeIndex) {
                        1int
                    } else {
                        0int
                    });
                    assert(side_count(next, false, f) == cr + if next.last() == (false, f as EdgeIndex) {
                        1int
                    } else {
                        0int
                    });
                    assert(f as EdgeIndex as int == f);
                    if f != e as int {
                        assert(self.edges@[f] == pre[f]);
                        assert(next.last() != (true, f as EdgeIndex));
                        assert(next.last() != (false, f as EdgeIndex));
                    } else if is_left {
                        assert(self.edges@[f].left_growth == pre[f].left_growth + length);
                        assert(self.edges@[f].right_growth == pre[f].right_growth);
                    } else {
                        assert(self.edges@[f].right_growth == pre[f].right_growth + length);
                        assert(self.edges@[f].left_growth == pre[f].left_growth);
                    }
                }
            }
            idx = idx + 1;
        }
        proof {
            assert(boundary.take(n as int) =~= boundary);
            assert forall|f: int| 0 <= f < self.edges@.len() implies #[trigger] self.edge_wf(f) by {
                assert(start.edge_wf(f));
            }
            assert forall|v: int| 0 <= v < self.nodes@.len() implies #[trigger] self.node_wf(v) by {
                assert(start.node_wf(v));
            }
            assert forall|t: int| 0 <= t < self.tree_nodes@.len() implies #[trigger] self.tree_node_wf(t) by {
                assert(start.tree_node_wf(t));
            }
        }
    }
}

} // verus!
