//! Serial Dual Module
//!
//! A serial implementation of the dual module: every dual node grows over the
//! decoding graph, edge by edge. Vertices, edges and the internal dual nodes are
//! kept in arenas and refer to each other by index.
//!
//! This implementation supports fast clear: the ``clear growth'' operator runs in
//! O(1) time by advancing a timestamp; a vertex or an edge with an older timestamp
//! is cleared when it is next visited.
//!

use crate::blossom_v::opt_int;
use crate::complete_graph::{apply_modifier, modifier_record, modifier_valid, restore_modifier};
use crate::dual_module::{
    DUAL_BOUND, DualModuleInterface, DualNode, DualNodeClass, DualNodeGrowState, DualNodePtr, EdgeWeightModifier,
    MaxUpdateLength, GroupMaxUpdateLength, GroupSummary, SyncRequest, add_summary, representative_of,
};
use crate::util::{
    EdgeIndex, FastClearTimestamp, IndexRange, NodeIndex, NodeRange, PartitionedSolverInitializer, SolverInitializer,
    VertexIndex, VertexNum, VertexRange, Weight,
};
use std::collections::BTreeMap;
use vstd::prelude::*;

verus! {

/// records information only available when used as a unit in the partitioned dual module
#[derive(Debug)]
pub struct UnitModuleInfo {
    /// unit index
    pub unit_index: usize,
    /// all mirrored vertices (excluding owned ones), mapped to their local indices
    pub mirrored_vertices: BTreeMap<VertexIndex, VertexIndex>,
    /// owned dual nodes range
    pub owning_dual_range: NodeRange,
    /// the local index of each dual node outside the owned range
    pub dual_node_pointers: BTreeMap<NodeIndex, usize>,
}

/// internal information of the dual node, added to the [`DualNode`](crate::dual_module::DualNode)
#[derive(Debug)]
pub struct DualNodeInternal {
    /// the origin dual node in the interface
    pub origin: DualNodePtr,
    /// local index, to find myself in [`DualModuleSerial::nodes`]
    pub index: NodeIndex,
    /// dual variable of this node
    pub dual_variable: Weight,
    /// edges on the boundary of this node, (`is_left`, `edge`)
    pub boundary: Vec<(bool, EdgeIndex)>,
    /// over-grown vertices on the boundary of this node: (`vertex`, `overgrown`)
    pub overgrown_stack: Vec<(VertexIndex, Weight)>,
    /// helps to prevent duplicate visit in a single cycle
    pub last_visit_cycle: usize,
}

#[derive(Debug)]
pub struct Vertex {
    /// the index of this vertex in the decoding graph
    pub vertex_index: VertexIndex,
    /// if a vertex is virtual, then it can be matched any times
    pub is_virtual: bool,
    /// if a vertex is defect, then [`Vertex::propagated_dual_node`] always corresponds to that root
    pub is_defect: bool,
    /// if it's a mirrored vertex (present on multiple units), whether the unit that owns it is
    /// enabled
    pub mirror_unit: Option<(usize, bool)>,
    /// all neighbor edges (local edge indices)
    pub edges: Vec<EdgeIndex>,
    /// propagated dual node (local internal index)
    pub propagated_dual_node: Option<usize>,
    /// propagated grandson node: must be a syndrome node
    pub propagated_grandson_dual_node: Option<usize>,
    /// for fast clear
    pub timestamp: FastClearTimestamp,
}

#[derive(Debug)]
pub struct Edge {
    /// global edge index
    pub edge_index: EdgeIndex,
    /// total weight of this edge
    pub weight: Weight,
    /// left vertex (local index; always with smaller global index for consistency)
    pub left: usize,
    /// right vertex (local index)
    pub right: usize,
    /// growth from the left point
    pub left_growth: Weight,
    /// growth from the right point
    pub right_growth: Weight,
    /// left active tree node (if applicable)
    pub left_dual_node: Option<usize>,
    /// left grandson node: must be a syndrome node
    pub left_grandson_dual_node: Option<usize>,
    /// right active tree node (if applicable)
    pub right_dual_node: Option<usize>,
    /// right grandson node: must be a syndrome node
    pub right_grandson_dual_node: Option<usize>,
    /// for fast clear
    pub timestamp: FastClearTimestamp,
    /// deduplicate edge in a boundary
    pub dedup_timestamp: (FastClearTimestamp, FastClearTimestamp),
}

pub struct DualModuleSerial {
    /// all vertices including virtual ones
    pub vertices: Vec<Vertex>,
    /// nodes internal information
    pub nodes: Vec<Option<DualNodeInternal>>,
    /// current nodes length, to enable constant-time clear operation
    pub nodes_length: usize,
    /// keep edges, which can also be accessed in [`Self::vertices`]
    pub edges: Vec<Edge>,
    /// current timestamp
    pub active_timestamp: FastClearTimestamp,
    /// the number of all vertices (including those partitioned into other serial modules)
    pub vertex_num: VertexNum,
    /// the number of all edges (including those partitioned into other serial modules)
    pub edge_num: usize,
    /// vertices exclusively owned by this module
    pub owning_range: VertexRange,
    /// module information when used as a component in the partitioned dual module
    pub unit_module_info: Option<UnitModuleInfo>,
    /// nodes that may grow or shrink; may contain removed or duplicate nodes
    pub active_list: Vec<usize>,
    /// helps to deduplicate [`DualModuleSerial::active_list`]
    pub current_cycle: usize,
    /// remember the edges that's modified by erasures
    pub edge_modifier: EdgeWeightModifier,
    /// deduplicate edges in the boundary
    pub edge_dedup_timestamp: FastClearTimestamp,
    /// temporary list of synchronize requests, i.e. those propagating into the mirrored vertices
    pub sync_requests: Vec<SyncRequest>,
    /// temporary variable to reduce reallocation
    pub updated_boundary: Vec<(bool, EdgeIndex)>,
    /// temporary variable to reduce reallocation
    pub propagating_vertices: Vec<(usize, Option<usize>)>,
}

/// an optional reference to an internal node is within the node arena
pub open spec fn opt_lt(r: Option<usize>, n: int) -> bool {
    match r {
        Some(k) => k < n,
        None => true,
    }
}

impl Vertex {
    /// if this vertex is a mirrored vertex and it's disabled, it can be temporarily matched just
    /// like a virtual vertex
    pub fn is_mirror_blocked(&self) -> (r: bool)
        ensures
            r == (self.mirror_unit matches Some((_, enabled)) && !enabled),
    {
        match self.mirror_unit {
            Some((_, enabled)) => !enabled,
            None => false,
        }
    }

    /// reset the growth state
    pub fn hard_clear(&mut self)
        ensures
            !final(self).is_defect,
            final(self).propagated_dual_node is None,
            final(self).propagated_grandson_dual_node is None,
            final(self).edges == old(self).edges,
            final(self).vertex_index == old(self).vertex_index,
            final(self).is_virtual == old(self).is_virtual,
            final(self).mirror_unit == old(self).mirror_unit,
            final(self).timestamp == old(self).timestamp,
    {
        self.is_defect = false;
        self.propagated_dual_node = None;
        self.propagated_grandson_dual_node = None;
    }
}

impl Edge {
    /// reset the growth state
    pub fn hard_clear(&mut self)
        ensures
            final(self).left_growth == 0,
            final(self).right_growth == 0,
            final(self).left_dual_node is None,
            final(self).left_grandson_dual_node is None,
            final(self).right_dual_node is None,
            final(self).right_grandson_dual_node is None,
            final(self).left == old(self).left,
            final(self).right == old(self).right,
            final(self).weight == old(self).weight,
            final(self).edge_index == old(self).edge_index,
            final(self).timestamp == old(self).timestamp,
            final(self).dedup_timestamp == old(self).dedup_timestamp,
    {
        self.left_growth = 0;
        self.right_growth = 0;
        self.left_dual_node = None;
        self.left_grandson_dual_node = None;
        self.right_dual_node = None;
        self.right_grandson_dual_node = None;
    }
}

impl DualModuleSerial {
    /// the references held by vertex `v` are within the arenas
    pub open spec fn vertex_wf(&self, v: int) -> bool {
        let vertex = self.vertices@[v];
        &&& forall|k: int|
            0 <= k < vertex.edges@.len() ==> #[trigger] vertex.edges@[k] < self.edges@.len()
        &&& opt_lt(vertex.propagated_dual_node, self.nodes@.len() as int)
        &&& opt_lt(vertex.propagated_grandson_dual_node, self.nodes@.len() as int)
        &&& vertex.timestamp <= self.active_timestamp
    }

    /// the references held by edge `e` are within the arenas
    pub open spec fn edge_wf(&self, e: int) -> bool {
        let edge = self.edges@[e];
        &&& edge.left < self.vertices@.len()
        &&& edge.right < self.vertices@.len()
        &&& opt_lt(edge.left_dual_node, self.nodes@.len() as int)
        &&& opt_lt(edge.left_grandson_dual_node, self.nodes@.len() as int)
        &&& opt_lt(edge.right_dual_node, self.nodes@.len() as int)
        &&& opt_lt(edge.right_grandson_dual_node, self.nodes@.len() as int)
        &&& edge.timestamp <= self.active_timestamp
        &&& 0 <= edge.weight <= DUAL_BOUND
        &&& 0 <= edge.left_growth <= DUAL_BOUND
        &&& 0 <= edge.right_growth <= DUAL_BOUND
    }

    /// the references held by internal node `k` are within the arenas
    pub open spec fn node_wf(&self, k: int) -> bool {
        match self.nodes@[k] {
            Some(node) => {
                &&& -DUAL_BOUND <= node.dual_variable <= DUAL_BOUND
                &&& node.last_visit_cycle <= self.current_cycle
                &&& forall|j: int|
                    0 <= j < node.overgrown_stack@.len() ==> -DUAL_BOUND <= (
                    #[trigger] node.overgrown_stack@[j]).1 <= DUAL_BOUND
                &&& forall|j: int|
                    0 <= j < node.boundary@.len() ==> (#[trigger] node.boundary@[j]).1
                        < self.edges@.len()
                &&& forall|j: int|
                    0 <= j < node.overgrown_stack@.len() ==> (
                    #[trigger] node.overgrown_stack@[j]).0 < self.vertices@.len()
            },
            None => true,
        }
    }

    /// every index stored anywhere in the module is within the arena it refers to
    pub open spec fn wf(&self) -> bool {
        &&& self.nodes_length <= self.nodes@.len()
        &&& forall|v: int| 0 <= v < self.vertices@.len() ==> #[trigger] self.vertex_wf(v)
        &&& forall|e: int| 0 <= e < self.edges@.len() ==> #[trigger] self.edge_wf(e)
        &&& forall|k: int| 0 <= k < self.nodes@.len() ==> #[trigger] self.node_wf(k)
        &&& forall|j: int|
            0 <= j < self.active_list@.len() ==> #[trigger] self.active_list@[j]
                < self.nodes@.len()
        &&& forall|j: int|
            0 <= j < self.updated_boundary@.len() ==> (#[trigger] self.updated_boundary@[j]).1
                < self.edges@.len()
        &&& forall|j: int|
            0 <= j < self.propagating_vertices@.len() ==> {
                &&& (#[trigger] self.propagating_vertices@[j]).0 < self.vertices@.len()
                &&& opt_lt(self.propagating_vertices@[j].1, self.nodes@.len() as int)
            }
        &&& forall|j: int|
            0 <= j < self.edge_modifier.modified@.len() ==> (
            #[trigger] self.edge_modifier.modified@[j]).0 < self.edges@.len() && 0
                <= self.edge_modifier.modified@[j].1 <= DUAL_BOUND
    }

    /// the edge weights of the module
    pub open spec fn weights(&self) -> Seq<Weight> {
        self.edges@.map_values(|e: Edge| e.weight)
    }

    /// each edge as its two (local) vertices and its weight
    pub open spec fn edge_triples(&self) -> Seq<(VertexIndex, VertexIndex, Weight)> {
        self.edges@.map_values(|e: Edge| (e.left, e.right, e.weight))
    }

    /// the decoding graph given to [`DualModuleSerial::new_empty`] is valid: every edge joins two
    /// distinct vertices of the graph and has an even non-negative weight
    pub open spec fn initializer_valid(initializer: &SolverInitializer) -> bool {
        &&& initializer.edges_in_range()
        &&& initializer.virtual_in_range()
        &&& forall|e: int|
            0 <= e < initializer.weighted_edges@.len() ==> {
                let (i, j, w) = #[trigger] initializer.weighted_edges@[e];
                &&& i != j
                &&& w % 2 == 0
                &&& 0 <= w <= DUAL_BOUND
            }
    }

    /// initialize the dual module, which is supposed to be reused for multiple decoding tasks with
    /// the same structure
    #[verifier::rlimit(40)]
    pub fn new_empty(initializer: &SolverInitializer) -> (r: Self)
        requires
            Self::initializer_valid(initializer),
        ensures
            r.wf(),
            r.vertices@.len() == initializer.vertex_num,
            r.edges@.len() == initializer.weighted_edges@.len(),
            r.nodes_length == 0,
            r.vertex_num == initializer.vertex_num,
            r.edge_num == initializer.weighted_edges@.len(),
            r.unit_module_info is None,
            r.owning_range == (IndexRange { range_start: 0, range_end: initializer.vertex_num }),
            forall|v: int|
                0 <= v < initializer.vertex_num ==> {
                    &&& (#[trigger] r.vertices@[v]).vertex_index == v
                    &&& r.vertices@[v].is_virtual == initializer.virtual_vertices@.contains(
                        v as usize,
                    )
                    &&& !r.vertices@[v].is_defect
                    &&& r.vertices@[v].mirror_unit is None
                },
            forall|e: int|
                0 <= e < initializer.weighted_edges@.len() ==> {
                    let (i, j, w) = initializer.weighted_edges@[e];
                    &&& (#[trigger] r.edges@[e]).weight == w
                    &&& r.edges@[e].edge_index == e
                    &&& r.edges@[e].left == if i < j {
                        i
                    } else {
                        j
                    }
                    &&& r.edges@[e].right == if i < j {
                        j
                    } else {
                        i
                    }
                    &&& r.edges@[e].left_growth == 0
                    &&& r.edges@[e].right_growth == 0
                },
            forall|v: int|
                0 <= v < initializer.vertex_num ==> (#[trigger] r.vertices@[v]).edges@ == incident_edges(
                    edge_ends(r.edges@),
                    v as VertexIndex,
                ),
    {

        let vertex_num = initializer.vertex_num;
        // create vertices
        let mut vertices: Vec<Vertex> = Vec::new();
        let mut vertex_index: usize = 0;
        while vertex_index < vertex_num
            invariant
                vertex_index <= vertex_num,
                vertex_num == initializer.vertex_num,
                vertices@.len() == vertex_index,
                forall|v: int|
                    0 <= v < vertex_index ==> {
                        &&& (#[trigger] vertices@[v]).vertex_index == v
                        &&& !vertices@[v].is_virtual
                        &&& !vertices@[v].is_defect
                        &&& vertices@[v].mirror_unit is None
                        &&& vertices@[v].edges@.len() == 0
                        &&& vertices@[v].propagated_dual_node is None
                        &&& vertices@[v].propagated_grandson_dual_node is None
                        &&& vertices@[v].timestamp == 0
                    },
            decreases vertex_num - vertex_index,
        {
            vertices.push(
                Vertex {
                    vertex_index,
                    is_virtual: false,
                    is_defect: false,
                    mirror_unit: None,
                    edges: Vec::new(),
                    propagated_dual_node: None,
                    propagated_grandson_dual_node: None,
                    timestamp: 0,
                },
            );
            vertex_index = vertex_index + 1;
        }
        // set virtual vertices
        let mut k: usize = 0;
        while k < initializer.virtual_vertices.len()
            invariant
                k <= initializer.virtual_vertices@.len(),
                vertices@.len() == vertex_num,
                vertex_num == initializer.vertex_num,
                initializer.virtual_in_range(),
                forall|v: int|
                    0 <= v < vertex_num ==> {
                        &&& (#[trigger] vertices@[v]).vertex_index == v
                        &&& vertices@[v].is_virtual == initializer.virtual_vertices@.subrange(
                            0,
                            k as int,
                        ).contains(v as usize)
                        &&& !vertices@[v].is_defect
                        &&& vertices@[v].mirror_unit is None
                        &&& vertices@[v].edges@.len() == 0
                        &&& vertices@[v].propagated_dual_node is None
                        &&& vertices@[v].propagated_grandson_dual_node is None
                        &&& vertices@[v].timestamp == 0
                    },
            decreases initializer.virtual_vertices@.len() - k,
        {
            let virtual_vertex = initializer.virtual_vertices[k];
            let mut vertex = vertices.remove(virtual_vertex);
            vertex.is_virtual = true;
            vertices.insert(virtual_vertex, vertex);
            proof {
                let ghost sub_next = initializer.virtual_vertices@.subrange(0, k + 1);
                let ghost sub = initializer.virtual_vertices@.subrange(0, k as int);
                assert(sub_next =~= sub.push(virtual_vertex));
                assert forall|v: int| 0 <= v < vertex_num implies vertices@[v].is_virtual
                    == sub_next.contains(v as usize) by {
                    if v == virtual_vertex {
                        assert(sub_next[k as int] == virtual_vertex);
                    } else {
                        if sub_next.contains(v as usize) {
                            let j = choose|j: int| 0 <= j < sub_next.len() && sub_next[j] == v as usize;
                            assert(sub[j] == v as usize);
                        }
                        if sub.contains(v as usize) {
                            let j = choose|j: int| 0 <= j < sub.len() && sub[j] == v as usize;
                            assert(sub_next[j] == v as usize);
                        }
                    }
                }
            }
            k = k + 1;
        }
        assert(initializer.virtual_vertices@.subrange(0, initializer.virtual_vertices@.len() as int)
            =~= initializer.virtual_vertices@);
        // set edges
        let mut edges: Vec<Edge> = Vec::new();
        let mut e: usize = 0;
        while e < initializer.weighted_edges.len()
            invariant
                e <= initializer.weighted_edges@.len(),
                Self::initializer_valid(initializer),
                vertices@.len() == vertex_num,
                vertex_num == initializer.vertex_num,
                edges@.len() == e,
                forall|v: int|
                    0 <= v < vertex_num ==> {
                        &&& (#[trigger] vertices@[v]).vertex_index == v
                        &&& vertices@[v].is_virtual == initializer.virtual_vertices@.contains(
                            v as usize,
                        )
                        &&& !vertices@[v].is_defect
                        &&& vertices@[v].mirror_unit is None
                        &&& vertices@[v].propagated_dual_node is None
                        &&& vertices@[v].propagated_grandson_dual_node is None
                        &&& vertices@[v].timestamp == 0
                        &&& forall|j: int|
                            0 <= j < vertices@[v].edges@.len() ==> #[trigger] vertices@[v].edges@[j]
                                < e
                        &&& vertices@[v].edges@ == incident_edges(edge_ends(edges@), v as VertexIndex)
                    },
                forall|f: int|
                    0 <= f < e ==> {
                        let (i, j, w) = initializer.weighted_edges@[f];
                        &&& (#[trigger] edges@[f]).weight == w
                        &&& edges@[f].edge_index == f
                        &&& edges@[f].left == if i < j {
                            i
                        } else {
                            j
                        }
                        &&& edges@[f].right == if i < j {
                            j
                        } else {
                            i
                        }
                        &&& edges@[f].left < vertex_num
                        &&& edges@[f].right < vertex_num
                        &&& edges@[f].left_growth == 0
                        &&& edges@[f].right_growth == 0
                        &&& edges@[f].left_dual_node is None
                        &&& edges@[f].left_grandson_dual_node is None
                        &&& edges@[f].right_dual_node is None
                        &&& edges@[f].right_grandson_dual_node is None
                        &&& edges@[f].timestamp == 0
                    },
            decreases initializer.weighted_edges@.len() - e,
        {
            let (i, j, weight) = initializer.weighted_edges[e];
            assert(initializer.weighted_edges@[e as int] == (i, j, weight));
            let left = if i < j {
                i
            } else {
                j
            };
            let right = if i < j {
                j
            } else {
                i
            };
            let ghost old_edges = edges@;
            edges.push(
                Edge {
                    edge_index: e,
                    weight,
                    left,
                    right,
                    left_growth: 0,
                    right_growth: 0,
                    left_dual_node: None,
                    left_grandson_dual_node: None,
                    right_dual_node: None,
                    right_grandson_dual_node: None,
                    timestamp: 0,
                    dedup_timestamp: (0, 0),
                },
            );
            let ghost before = vertices@;
            let mut vertex = vertices.remove(i);
            vertex.edges.push(e);
            vertices.insert(i, vertex);
            let ghost middle = vertices@;
            let mut vertex = vertices.remove(j);
            vertex.edges.push(e);
            vertices.insert(j, vertex);
            proof {
                let ends = edge_ends(edges@);
                assert(edges@.drop_last() =~= old_edges);
                assert(ends.drop_last() =~= edge_ends(old_edges));
                assert(ends.last() == (left, right));
                assert forall|v: int| 0 <= v < vertex_num implies (#[trigger] vertices@[v]).edges@ == incident_edges(
                    ends,
                    v as VertexIndex,
                ) by {
                    assert(before[v].edges@ == incident_edges(ends.drop_last(), v as VertexIndex));
                    if v != j as int {
                        assert(vertices@[v] == middle[v]);
                    }
                    if v != i as int {
                        assert(middle[v] == before[v]);
                    }
                }
            }
            e = e + 1;
        }
        let r = DualModuleSerial {
            vertices,
            nodes: Vec::new(),
            nodes_length: 0,
            edges,
            active_timestamp: 0,
            vertex_num,
            edge_num: initializer.weighted_edges.len(),
            owning_range: IndexRange::new(0, vertex_num),
            unit_module_info: None,
            active_list: Vec::new(),
            current_cycle: 0,
            edge_modifier: EdgeWeightModifier::new(),
            edge_dedup_timestamp: 0,
            sync_requests: Vec::new(),
            updated_boundary: Vec::new(),
            propagating_vertices: Vec::new(),
        };
        assert forall|v: int| 0 <= v < r.vertices@.len() implies #[trigger] r.vertex_wf(v) by {
            assert(r.vertices@[v].vertex_index == v);
        }
        assert forall|f: int| 0 <= f < r.edges@.len() implies #[trigger] r.edge_wf(f) by {
            assert(r.edges@[f].edge_index == f);
        }
        r
    }
}

impl DualModuleSerial {
    /// well-formedness only depends on the arena lengths and the active timestamp, so it survives
    /// any change that keeps those and keeps every changed element well-formed
    pub proof fn lemma_wf_preserved(pre: &Self, post: &Self)
        requires
            pre.wf(),
            post.vertices@.len() == pre.vertices@.len(),
            post.edges@.len() == pre.edges@.len(),
            post.nodes@.len() == pre.nodes@.len(),
            post.nodes_length <= post.nodes@.len(),
            post.active_timestamp >= pre.active_timestamp,
            post.current_cycle >= pre.current_cycle,
            forall|v: int|
                0 <= v < post.vertices@.len() ==> post.vertices@[v] == pre.vertices@[v]
                    || #[trigger] post.vertex_wf(v),
            forall|e: int|
                0 <= e < post.edges@.len() ==> post.edges@[e] == pre.edges@[e]
                    || #[trigger] post.edge_wf(e),
            forall|k: int|
                0 <= k < post.nodes@.len() ==> post.nodes@[k] == pre.nodes@[k]
                    || #[trigger] post.node_wf(k),
            post.active_list@ == pre.active_list@ || forall|j: int|
                0 <= j < post.active_list@.len() ==> #[trigger] post.active_list@[j]
                    < post.nodes@.len(),
            post.updated_boundary@ == pre.updated_boundary@ || forall|j: int|
                0 <= j < post.updated_boundary@.len() ==> (#[trigger] post.updated_boundary@[j]).1
                    < post.edges@.len(),
            post.propagating_vertices@ == pre.propagating_vertices@ || forall|j: int|
                0 <= j < post.propagating_vertices@.len() ==> {
                    &&& (#[trigger] post.propagating_vertices@[j]).0 < post.vertices@.len()
                    &&& opt_lt(post.propagating_vertices@[j].1, post.nodes@.len() as int)
                },
            post.edge_modifier.modified@ == pre.edge_modifier.modified@ || forall|j: int|
                0 <= j < post.edge_modifier.modified@.len() ==> (
                #[trigger] post.edge_modifier.modified@[j]).0 < post.edges@.len() && 0
                    <= post.edge_modifier.modified@[j].1 <= DUAL_BOUND,
        ensures
            post.wf(),
    {
        assert forall|v: int| 0 <= v < post.vertices@.len() implies #[trigger] post.vertex_wf(v) by {
            if post.vertices@[v] == pre.vertices@[v] {
                assert(pre.vertex_wf(v));
            }
        }
        assert forall|e: int| 0 <= e < post.edges@.len() implies #[trigger] post.edge_wf(e) by {
            if post.edges@[e] == pre.edges@[e] {
                assert(pre.edge_wf(e));
            }
        }
        assert forall|k: int| 0 <= k < post.nodes@.len() implies #[trigger] post.node_wf(k) by {
            if post.nodes@[k] == pre.nodes@[k] {
                assert(pre.node_wf(k));
            }
        }
    }

    /// vertex `v` is up to date with the active timestamp, clearing it first if it is stale
    pub fn dynamic_clear_vertex(&mut self, v: usize)
        requires
            old(self).wf(),
            v < old(self).vertices@.len(),
        ensures
            final(self).wf(),
            final(self).vertices@.len() == old(self).vertices@.len(),
            final(self).edges@ == old(self).edges@,
            final(self).nodes@ == old(self).nodes@,
            final(self).nodes_length == old(self).nodes_length,
            final(self).active_timestamp == old(self).active_timestamp,
            final(self).active_list@ == old(self).active_list@,
            final(self).vertices@[v as int].timestamp == final(self).active_timestamp,
            final(self).vertices@[v as int].edges == old(self).vertices@[v as int].edges,
            final(self).vertices@[v as int].vertex_index == old(self).vertices@[v as int].vertex_index,
            final(self).vertices@[v as int].is_virtual == old(self).vertices@[v as int].is_virtual,
            final(self).vertices@[v as int].mirror_unit == old(self).vertices@[v as int].mirror_unit,
            old(self).vertices@[v as int].timestamp == old(self).active_timestamp ==> final(self).vertices@ == old(self).vertices@,
            forall|u: int|
                0 <= u < final(self).vertices@.len() && u != v ==> final(self).vertices@[u] == old(self).vertices@[u],
            final(self).frame_unchanged(old(self)),
            final(self).stable(old(self)),
            final(self).sync_requests@ == old(self).sync_requests@,
            final(self).vertices@[v as int].propagated_dual_node == (if old(self).vertices@[v as int].timestamp
                == old(self).active_timestamp {
                old(self).vertices@[v as int].propagated_dual_node
            } else {
                None
            }),
    {
        if self.vertices[v].timestamp != self.active_timestamp {
            let ghost pre = *self;
            assert(pre.vertex_wf(v as int));
            let t = self.active_timestamp;
            self.vertices[v].hard_clear();
            self.vertices[v].timestamp = t;
            assert(self.vertex_wf(v as int));
            proof {
                Self::lemma_wf_preserved(&pre, self);
            }
        }
    }

    /// edge `e` is up to date with the active timestamp, clearing it first if it is stale
    pub fn dynamic_clear_edge(&mut self, e: usize)
        requires
            old(self).wf(),
            e < old(self).edges@.len(),
        ensures
            final(self).wf(),
            final(self).edges@.len() == old(self).edges@.len(),
            final(self).vertices@ == old(self).vertices@,
            final(self).nodes@ == old(self).nodes@,
            final(self).nodes_length == old(self).nodes_length,
            final(self).active_timestamp == old(self).active_timestamp,
            final(self).active_list@ == old(self).active_list@,
            final(self).edges@[e as int].timestamp == final(self).active_timestamp,
            final(self).edges@[e as int].left == old(self).edges@[e as int].left,
            final(self).edges@[e as int].right == old(self).edges@[e as int].right,
            final(self).edges@[e as int].weight == old(self).edges@[e as int].weight,
            final(self).edges@[e as int].edge_index == old(self).edges@[e as int].edge_index,
            old(self).edges@[e as int].timestamp == old(self).active_timestamp ==> final(self).edges@
                == old(self).edges@,
            forall|f: int|
                0 <= f < final(self).edges@.len() && f != e ==> final(self).edges@[f] == old(self).edges@[f],
            final(self).frame_unchanged(old(self)),
            final(self).stable(old(self)),
            final(self).sync_requests@ == old(self).sync_requests@,
            final(self).edges@[e as int].left_growth == final(self).growth_of(e as int, true),
            final(self).edges@[e as int].right_growth == final(self).growth_of(e as int, false),
            forall|s: bool| #[trigger] final(self).edge_node(e as int, s) == old(self).edge_node(e as int, s),
    {
        if self.edges[e].timestamp != self.active_timestamp {
            let ghost pre = *self;
            assert(pre.edge_wf(e as int));
            let t = self.active_timestamp;
            self.edges[e].hard_clear();
            self.edges[e].timestamp = t;
            assert(self.edge_wf(e as int));
            proof {
                Self::lemma_wf_preserved(&pre, self);
            }
        }
    }

    /// everything but vertices, edges and nodes is left as it was
    pub open spec fn frame_unchanged(&self, other: &Self) -> bool {
        &&& self.vertex_num == other.vertex_num
        &&& self.edge_num == other.edge_num
        &&& self.owning_range == other.owning_range
        &&& self.edge_modifier == other.edge_modifier
        &&& self.updated_boundary == other.updated_boundary
        &&& self.propagating_vertices == other.propagating_vertices
        &&& self.current_cycle == other.current_cycle
        &&& self.edge_dedup_timestamp == other.edge_dedup_timestamp
    }

    /// hard clear all growth (manual call not recommended due to performance drawback)
    pub fn hard_clear_graph(&mut self)
        requires
            old(self).wf(),
        ensures
            final(self).wf(),
            final(self).active_timestamp == 0,
            final(self).frame_unchanged(old(self)),
            final(self).active_list@ == old(self).active_list@,
            final(self).unit_module_info == old(self).unit_module_info,
            final(self).vertices@.len() == old(self).vertices@.len(),
            final(self).edges@.len() == old(self).edges@.len(),
            final(self).nodes@ == old(self).nodes@,
            final(self).nodes_length == old(self).nodes_length,
            forall|e: int|
                0 <= e < final(self).edges@.len() ==> {
                    &&& (#[trigger] final(self).edges@[e]).left_growth == 0
                    &&& final(self).edges@[e].right_growth == 0
                    &&& final(self).edges@[e].left_dual_node is None
                    &&& final(self).edges@[e].right_dual_node is None
                    &&& final(self).edges@[e].timestamp == 0
                    &&& final(self).edges@[e].weight == old(self).edges@[e].weight
                    &&& final(self).edges@[e].left == old(self).edges@[e].left
                    &&& final(self).edges@[e].right == old(self).edges@[e].right
                },
            forall|v: int|
                0 <= v < final(self).vertices@.len() ==> {
                    &&& !(#[trigger] final(self).vertices@[v]).is_defect
                    &&& final(self).vertices@[v].propagated_dual_node is None
                    &&& final(self).vertices@[v].timestamp == 0
                    &&& final(self).vertices@[v].edges == old(self).vertices@[v].edges
                    &&& final(self).vertices@[v].is_virtual == old(self).vertices@[v].is_virtual
                },
    {
        let mut e: usize = 0;
        while e < self.edges.len()
            invariant
                e <= self.edges@.len(),
                self.wf(),
                self.edges@.len() == old(self).edges@.len(),
                self.vertices@ == old(self).vertices@,
                self.nodes@ == old(self).nodes@,
                self.nodes_length == old(self).nodes_length,
                self.frame_unchanged(old(self)),
                self.active_list@ == old(self).active_list@,
                self.unit_module_info == old(self).unit_module_info,
                self.active_timestamp == old(self).active_timestamp,
                forall|f: int|
                    0 <= f < e ==> {
                        &&& (#[trigger] self.edges@[f]).left_growth == 0
                        &&& self.edges@[f].right_growth == 0
                        &&& self.edges@[f].left_dual_node is None
                        &&& self.edges@[f].right_dual_node is None
                        &&& self.edges@[f].timestamp == 0
                        &&& self.edges@[f].weight == old(self).edges@[f].weight
                        &&& self.edges@[f].left == old(self).edges@[f].left
                        &&& self.edges@[f].right == old(self).edges@[f].right
                    },
                forall|f: int| e <= f < self.edges@.len() ==> self.edges@[f] == old(self).edges@[f],
            decreases self.edges@.len() - e,
        {
            let ghost pre = *self;
            assert(pre.edge_wf(e as int));
            self.edges[e].hard_clear();
            self.edges[e].timestamp = 0;
            assert(self.edge_wf(e as int));
            proof {
                Self::lemma_wf_preserved(&pre, self);
            }
            e = e + 1;
        }
        let mut v: usize = 0;
        while v < self.vertices.len()
            invariant
                v <= self.vertices@.len(),
                self.wf(),
                self.vertices@.len() == old(self).vertices@.len(),
                self.nodes@ == old(self).nodes@,
                self.nodes_length == old(self).nodes_length,
                self.frame_unchanged(old(self)),
                self.active_list@ == old(self).active_list@,
                self.unit_module_info == old(self).unit_module_info,
                self.active_timestamp == old(self).active_timestamp,
                self.edges@.len() == old(self).edges@.len(),
                forall|f: int|
                    0 <= f < self.edges@.len() ==> {
                        &&& (#[trigger] self.edges@[f]).left_growth == 0
                        &&& self.edges@[f].right_growth == 0
                        &&& self.edges@[f].left_dual_node is None
                        &&& self.edges@[f].right_dual_node is None
                        &&& self.edges@[f].timestamp == 0
                        &&& self.edges@[f].weight == old(self).edges@[f].weight
                        &&& self.edges@[f].left == old(self).edges@[f].left
                        &&& self.edges@[f].right == old(self).edges@[f].right
                    },
                forall|u: int|
                    0 <= u < v ==> {
                        &&& !(#[trigger] self.vertices@[u]).is_defect
                        &&& self.vertices@[u].propagated_dual_node is None
                        &&& self.vertices@[u].timestamp == 0
                        &&& self.vertices@[u].edges == old(self).vertices@[u].edges
                        &&& self.vertices@[u].is_virtual == old(self).vertices@[u].is_virtual
                    },
                forall|u: int|
                    v <= u < self.vertices@.len() ==> self.vertices@[u] == old(self).vertices@[u],
            decreases self.vertices@.len() - v,
        {
            let ghost pre = *self;
            assert(pre.vertex_wf(v as int));
            self.vertices[v].hard_clear();
            self.vertices[v].timestamp = 0;
            assert(self.vertex_wf(v as int));
            proof {
                Self::lemma_wf_preserved(&pre, self);
            }
            v = v + 1;
        }
        let ghost pre = *self;
        self.active_timestamp = 0;
        assert forall|v: int| 0 <= v < self.vertices@.len() implies #[trigger] self.vertex_wf(v) by {
            assert(pre.vertex_wf(v));
        }
        assert forall|e: int| 0 <= e < self.edges@.len() implies #[trigger] self.edge_wf(e) by {
            assert(pre.edge_wf(e));
        }
        assert forall|k: int| 0 <= k < self.nodes@.len() implies #[trigger] self.node_wf(k) by {
            assert(pre.node_wf(k));
        }
    }

    /// soft clear all growth: every vertex and edge becomes stale
    pub fn clear_graph(&mut self)
        requires
            old(self).wf(),
        ensures
            final(self).wf(),
            final(self).vertices@.len() == old(self).vertices@.len(),
            final(self).edges@.len() == old(self).edges@.len(),
            final(self).nodes@ == old(self).nodes@,
            final(self).nodes_length == old(self).nodes_length,
            old(self).active_timestamp < usize::MAX ==> final(self).active_timestamp == old(self).active_timestamp + 1 && final(self).edges@ == old(self).edges@ && final(self).vertices@
                == old(self).vertices@,
            old(self).active_timestamp == usize::MAX ==> final(self).active_timestamp == 1,
            final(self).edge_triples() == old(self).edge_triples(),
            final(self).frame_unchanged(old(self)),
            final(self).active_list@ == old(self).active_list@,
            final(self).unit_module_info == old(self).unit_module_info,
            forall|e: int|
                0 <= e < final(self).edges@.len() ==> (#[trigger] final(self).edges@[e]).timestamp
                    < final(self).active_timestamp,
            forall|v: int|
                0 <= v < final(self).vertices@.len() ==> (#[trigger] final(self).vertices@[
                    v
                ]).timestamp < final(self).active_timestamp,
    {
        if self.active_timestamp == usize::MAX {
            self.hard_clear_graph();
        }
        let ghost pre = *self;
        self.active_timestamp = self.active_timestamp + 1;
        assert forall|v: int| 0 <= v < self.vertices@.len() implies (
        #[trigger] self.vertices@[v]).timestamp < self.active_timestamp by {
            assert(pre.vertex_wf(v));
        }
        assert forall|e: int| 0 <= e < self.edges@.len() implies (#[trigger] self.edges@[e]).timestamp
            < self.active_timestamp by {
            assert(pre.edge_wf(e));
        }
        proof {
            Self::lemma_wf_preserved(&pre, self);
        }
    }
}

/// the number of times `(is_left, e)` appears in a boundary
pub open spec fn boundary_count(boundary: Seq<(bool, EdgeIndex)>, is_left: bool, e: int) -> nat
    decreases boundary.len(),
{
    if boundary.len() == 0 {
        0
    } else {
        boundary_count(boundary.drop_last(), is_left, e) + if boundary.last().0 == is_left
            && boundary.last().1 as int == e {
            1nat
        } else {
            0nat
        }
    }
}

/// why growing a dual node was refused
#[derive(Debug, Clone, Copy, PartialEq, Eq, Structural)]
pub enum GrowError {
    /// an edge would be grown beyond its weight from two different dual nodes
    OverGrownEdge,
    /// an edge would be shrunk below zero growth
    UnderGrownEdge,
    /// a growth or a dual variable would leave the range allowed by [`DUAL_BOUND`]
    Overflow,
    /// growing iteratively met a conflict, so no length was safe to grow
    Conflicts,
    /// growing iteratively found no positive length to grow
    NoProgress,
}

impl DualModuleSerial {
    /// the internal nodes correspond one to one to the dual nodes of the interface
    pub open spec fn coupled(&self, interface: &DualModuleInterface) -> bool {
        &&& self.coupled_prefix(interface)
        &&& self.nodes_length == interface.nodes_length
    }

    /// the internal nodes correspond one to one to the first dual nodes of the interface, the
    /// others not yet added
    pub open spec fn coupled_prefix(&self, interface: &DualModuleInterface) -> bool {
        &&& self.unit_module_info is None
        &&& self.nodes_length <= interface.nodes_length
        &&& self.owning_range == (IndexRange {
            range_start: 0,
            range_end: self.vertices@.len() as usize,
        })
        &&& forall|k: int|
            0 <= k < self.nodes_length ==> (self.nodes@[k] is Some <==> #[trigger] interface.is_live(
                k,
            ))
        &&& forall|k: int|
            0 <= k < self.nodes_length && #[trigger] self.nodes@[k] is Some ==> {
                &&& self.nodes@[k]->Some_0.origin.index == k
                &&& self.nodes@[k]->Some_0.index == k
            }
    }

    /// the growth of edge `e` on one side as seen at the active timestamp
    /// what makes growing internal node `k` by `length` stop with `error`: an edge grown beyond
    /// its weight that `k` does not hold on both sides, a growth that would become negative, or a
    /// dual variable, over-grown amount or growth that would leave the range of `DUAL_BOUND`
    pub open spec fn grow_failure(&self, k: int, length: int, error: GrowError) -> bool {
        match error {
            GrowError::OverGrownEdge => exists|e: int|
                0 <= e < self.edges@.len() && (#[trigger] self.edges@[e]).left_growth
                    + self.edges@[e].right_growth > self.edges@[e].weight && !(
                self.edges@[e].left_dual_node == Some(k as usize) && self.edges@[e].right_dual_node
                    == Some(k as usize)),
            GrowError::UnderGrownEdge => exists|e: int|
                0 <= e < self.edges@.len() && ((#[trigger] self.edges@[e]).left_growth + length < 0
                    || self.edges@[e].right_growth + length < 0),
            GrowError::Overflow => {
                ||| self.nodes@[k] is Some && !(-DUAL_BOUND <= self.nodes@[k]->Some_0.dual_variable
                    + length <= DUAL_BOUND)
                ||| self.nodes@[k] is Some && self.nodes@[k]->Some_0.overgrown_stack@.len() > 0
                    && !(-DUAL_BOUND <= self.nodes@[k]->Some_0.overgrown_stack@.last().1 + length
                    <= DUAL_BOUND)
                ||| exists|e: int|
                    0 <= e < self.edges@.len() && ((#[trigger] self.edges@[e]).left_growth + length
                        > DUAL_BOUND || self.edges@[e].right_growth + length > DUAL_BOUND)
            },
            _ => false,
        }
    }

    /// growing or shrinking internal node `k` by `length` stops with `error`, see `grow_failure`
    pub open spec fn grow_failure_either(&self, k: int, length: int, error: GrowError) -> bool {
        self.grow_failure(k, length, error) || self.grow_failure(k, -length, error)
    }

    /// the deduplication mark of side `is_left` of edge `e`
    pub open spec fn dedup_mark_of(&self, e: int, is_left: bool) -> usize {
        if is_left {
            self.edges@[e].dedup_timestamp.0
        } else {
            self.edges@[e].dedup_timestamp.1
        }
    }

    /// the vertex at side `is_left` of edge `e`
    pub open spec fn side_vertex(&self, e: int, is_left: bool) -> usize {
        if is_left {
            self.edges@[e].left
        } else {
            self.edges@[e].right
        }
    }

    /// edge `e` is fully grown, weighs nothing, and internal node `k` holds both of its sides in
    /// the current round
    pub open spec fn shared_zero_edge(&self, e: int, k: int) -> bool {
        let edge = self.edges@[e];
        &&& edge.timestamp == self.active_timestamp
        &&& edge.left_dual_node == Some(k as usize)
        &&& edge.right_dual_node == Some(k as usize)
        &&& edge.left_growth + edge.right_growth >= edge.weight
        &&& edge.weight == 0
    }

    /// edge `f` is an edge of one of the first `p` remembered vertices
    pub open spec fn reached_before(&self, p: int, f: int) -> bool {
        exists|q: int, t: int|
            0 <= q < p && 0 <= t < self.vertices@[self.propagating_vertices@[q].0 as int].edges@.len()
                && #[trigger] self.vertices@[self.propagating_vertices@[q].0 as int].edges@[t] as int == f
    }

    /// the `t`-th edge of the `p`-th remembered vertex weighs nothing and is free on the side of
    /// that vertex, which is free too, and no earlier remembered vertex has this edge
    pub open spec fn grow_zero_witness(&self, p: int, t: int) -> bool {
        let u = self.propagating_vertices@[p].0 as int;
        let f = self.vertices@[u].edges@[t] as int;
        &&& 0 <= p < self.propagating_vertices@.len()
        &&& 0 <= t < self.vertices@[u].edges@.len()
        &&& self.vertex_node(u) is None
        &&& self.edges@[f].weight == 0
        &&& self.edge_node(f, self.edges@[f].left == u) is None
        &&& !self.reached_before(p, f)
    }

    pub open spec fn growth_of(&self, e: int, is_left: bool) -> int {
        let edge = self.edges@[e];
        if edge.timestamp != self.active_timestamp {
            0
        } else if is_left {
            edge.left_growth as int
        } else {
            edge.right_growth as int
        }
    }

    /// the boundary of the internal node `k`
    pub open spec fn boundary_of(&self, k: int) -> Seq<(bool, EdgeIndex)> {
        self.nodes@[k]->Some_0.boundary@
    }

    /// get the local index of a vertex
    pub fn get_vertex_index(&self, vertex_index: VertexIndex) -> (r: Option<usize>)
        ensures
            self.owning_range.range_start <= vertex_index < self.owning_range.range_end ==> r
                == Some((vertex_index - self.owning_range.range_start) as usize),
            self.unit_module_info is None && !(self.owning_range.range_start <= vertex_index
                < self.owning_range.range_end) ==> r is None,
            r == self.spec_vertex_index(vertex_index),
    {
        if self.owning_range.contains(vertex_index) {
            return Some(vertex_index - self.owning_range.start());
        }
        match &self.unit_module_info {
            Some(unit_module_info) => match unit_module_info.mirrored_vertices.get(&vertex_index) {
                Some(index) => Some(*index),
                None => None,
            },
            None => None,
        }
    }

    /// judge whether the current module hosts a vertex
    pub fn contains_vertex(&self, vertex_index: VertexIndex) -> (r: bool)
        ensures
            self.owning_range.range_start <= vertex_index < self.owning_range.range_end ==> r,
            self.unit_module_info is None ==> (r == (self.owning_range.range_start <= vertex_index
                < self.owning_range.range_end)),
    {
        self.get_vertex_index(vertex_index).is_some()
    }

    /// get the local index of a dual node
    /// where this module keeps the internal node of an interface node: the same index when the
    /// module is not partitioned; in a partitioned unit, relative to the owned range or by the
    /// lookup table
    pub open spec fn spec_dual_node_index(&self, dual_node_ptr: DualNodePtr) -> Option<usize> {
        match self.unit_module_info {
            Some(info) => if info.owning_dual_range.range_start <= dual_node_ptr.index
                < info.owning_dual_range.range_end {
                Some((dual_node_ptr.index - info.owning_dual_range.range_start) as usize)
            } else if info.dual_node_pointers@.contains_key(dual_node_ptr.index) {
                Some(info.dual_node_pointers@[dual_node_ptr.index])
            } else {
                None
            },
            None => Some(dual_node_ptr.index),
        }
    }

    pub fn get_dual_node_index(&self, dual_node_ptr: &DualNodePtr) -> (r: Option<usize>)
        ensures
            self.unit_module_info is None ==> r == Some(dual_node_ptr.index),
            r == self.spec_dual_node_index(*dual_node_ptr),
    {
        match &self.unit_module_info {
            Some(unit_module_info) => {
                if unit_module_info.owning_dual_range.contains(dual_node_ptr.index) {
                    Some(dual_node_ptr.index - unit_module_info.owning_dual_range.start())
                } else {
                    match unit_module_info.dual_node_pointers.get(&dual_node_ptr.index) {
                        Some(index) => Some(*index),
                        None => None,
                    }
                }
            },
            None => Some(dual_node_ptr.index),
        }
    }

    /// judge whether the current module hosts the dual node
    pub fn contains_dual_node(&self, dual_node_ptr: &DualNodePtr) -> (r: bool)
        ensures
            self.unit_module_info is None ==> r,
            r == self.spec_dual_node_index(*dual_node_ptr) is Some,
    {
        self.get_dual_node_index(dual_node_ptr).is_some()
    }

    /// judge whether the current module hosts any of these dual node
    pub fn contains_dual_nodes_any(&self, dual_node_ptrs: &Vec<DualNodePtr>) -> (r: bool)
        ensures
            self.unit_module_info is None ==> (r == (dual_node_ptrs@.len() > 0)),
    {
        let mut i: usize = 0;
        while i < dual_node_ptrs.len()
            invariant
                i <= dual_node_ptrs@.len(),
                self.unit_module_info is None ==> i == 0,
            decreases dual_node_ptrs@.len() - i,
        {
            if self.contains_dual_node(&dual_node_ptrs[i]) {
                return true;
            }
            i = i + 1;
        }
        false
    }

    /// the internal node of a dual node hosted here, `None` if it is not hosted or was removed
    pub open spec fn hosted_index(&self, dual_node_ptr: DualNodePtr) -> Option<usize> {
        match self.spec_dual_node_index(dual_node_ptr) {
            Some(k) => if k < self.nodes@.len() && self.nodes@[k as int] is Some {
                Some(k)
            } else {
                None
            },
            None => None,
        }
    }

    /// the boundary of the internal node of a dual node hosted here, empty if there is none
    pub open spec fn hosted_boundary(&self, dual_node_ptr: DualNodePtr) -> Seq<(bool, EdgeIndex)> {
        match self.hosted_index(dual_node_ptr) {
            Some(k) => self.boundary_of(k as int),
            None => Seq::empty(),
        }
    }

    /// the boundaries of the nodes of a circle hosted here, one after the other
    pub open spec fn circle_boundary(&self, circle: Seq<DualNodePtr>) -> Seq<(bool, EdgeIndex)>
        decreases circle.len(),
    {
        if circle.len() == 0 {
            Seq::empty()
        } else {
            self.circle_boundary(circle.drop_last()) + self.hosted_boundary(circle.last())
        }
    }

    /// no node of the circle is hosted here under the index of a later node of the circle
    pub open spec fn circle_separate(&self, circle: Seq<DualNodePtr>) -> bool {
        forall|i: int, j: int|
            0 <= i < j < circle.len() ==> #[trigger] self.spec_dual_node_index(circle[i]) != Some(
                (#[trigger] circle[j]).index,
            )
    }

    /// the boundaries of a circle stay when only one internal node changes that no node of the
    /// circle is hosted under
    pub proof fn lemma_circle_boundary_frame(a: &Self, b: &Self, circle: Seq<DualNodePtr>, skip: int)
        requires
            a.unit_module_info == b.unit_module_info,
            a.nodes@.len() == b.nodes@.len(),
            forall|x: int| 0 <= x < a.nodes@.len() && x != skip ==> a.nodes@[x] == b.nodes@[x],
            forall|i: int| 0 <= i < circle.len() ==> a.spec_dual_node_index(#[trigger] circle[i]) != Some(skip as usize),
        ensures
            a.circle_boundary(circle) == b.circle_boundary(circle),
        decreases circle.len(),
    {
        if circle.len() > 0 {
            let front = circle.drop_last();
            assert forall|i: int| 0 <= i < front.len() implies a.spec_dual_node_index(#[trigger] front[i]) != Some(skip as usize) by {
                assert(front[i] == circle[i]);
            }
            Self::lemma_circle_boundary_frame(a, b, front, skip);
            assert(a.spec_dual_node_index(circle[circle.len() - 1]) != Some(skip as usize));
            assert(a.hosted_boundary(circle.last()) == b.hosted_boundary(circle.last()));
        }
    }

    /// whether a circle is separate depends on how nodes are hosted alone
    pub proof fn lemma_circle_separate_frame(a: &Self, b: &Self, circle: Seq<DualNodePtr>)
        requires
            a.unit_module_info == b.unit_module_info,
        ensures
            a.circle_separate(circle) == b.circle_separate(circle),
    {
        assert forall|x: DualNodePtr| a.spec_dual_node_index(x) == b.spec_dual_node_index(x) by {}
    }

    /// the boundaries of a circle depend on the internal nodes alone
    pub proof fn lemma_circle_boundary_same_nodes(a: &Self, b: &Self, circle: Seq<DualNodePtr>)
        requires
            a.unit_module_info == b.unit_module_info,
            a.nodes@ == b.nodes@,
        ensures
            a.circle_boundary(circle) == b.circle_boundary(circle),
        decreases circle.len(),
    {
        if circle.len() > 0 {
            Self::lemma_circle_boundary_same_nodes(a, b, circle.drop_last());
        }
    }

    /// the internal node of a dual node hosted here, `None` if it is not hosted or was removed
    pub fn get_dual_node_internal_ptr_optional(&self, dual_node_ptr: &DualNodePtr) -> (r: Option<
        usize,
    >)
        requires
            self.wf(),
        ensures
            r == self.hosted_index(*dual_node_ptr),
            r matches Some(k) ==> k < self.nodes@.len() && self.nodes@[k as int] is Some,
            self.unit_module_info is None ==> (r is Some <==> (dual_node_ptr.index
                < self.nodes@.len() && self.nodes@[dual_node_ptr.index as int] is Some)),
            self.unit_module_info is None && r is Some ==> r == Some(dual_node_ptr.index),
    {
        match self.get_dual_node_index(dual_node_ptr) {
            Some(k) => {
                if k < self.nodes.len() && self.nodes[k].is_some() {
                    Some(k)
                } else {
                    None
                }
            },
            None => None,
        }
    }

    /// the internal node of a live dual node
    pub fn get_dual_node_internal_ptr(
        &self,
        interface: &DualModuleInterface,
        dual_node_ptr: &DualNodePtr,
    ) -> (r: usize)
        requires
            self.wf(),
            self.coupled_prefix(interface),
            dual_node_ptr.index < self.nodes_length,
            interface.is_live(dual_node_ptr.index as int),
        ensures
            r == dual_node_ptr.index,
            r < self.nodes@.len(),
            self.nodes@[r as int] is Some,
    {
        let k = dual_node_ptr.index;
        assert(self.nodes@[k as int] is Some);
        k
    }

    /// clear all growth and existing dual nodes, revert modified edge weights
    pub fn clear(&mut self)
        requires
            old(self).wf(),
        ensures
            final(self).wf(),
            final(self).nodes_length == 0,
            final(self).active_list@.len() == 0,
            final(self).edge_modifier.modified@.len() == 0,
            final(self).edge_triples() == restore_modifier(old(self).edge_triples(), old(self).edge_modifier.modified@),
            final(self).vertices@.len() == old(self).vertices@.len(),
            final(self).edges@.len() == old(self).edges@.len(),
            final(self).unit_module_info is None <==> old(self).unit_module_info is None,
            final(self).owning_range == old(self).owning_range,
            forall|e: int|
                0 <= e < final(self).edges@.len() ==> (#[trigger] final(self).edges@[e]).timestamp
                    < final(self).active_timestamp,
            forall|v: int|
                0 <= v < final(self).vertices@.len() ==> (#[trigger] final(self).vertices@[
                    v
                ]).timestamp < final(self).active_timestamp,
    {
        // recover erasure edges first
        while self.edge_modifier.has_modified_edges()
            invariant
                self.wf(),
                self.vertices@.len() == old(self).vertices@.len(),
                self.edges@.len() == old(self).edges@.len(),
                self.unit_module_info is None <==> old(self).unit_module_info is None,
                self.owning_range == old(self).owning_range,
                restore_modifier(self.edge_triples(), self.edge_modifier.modified@) == restore_modifier(
                    old(self).edge_triples(),
                    old(self).edge_modifier.modified@,
                ),
            decreases self.edge_modifier.modified@.len(),
        {
            let ghost pre = *self;
            let (edge_index, original_weight) = self.edge_modifier.pop_modified_edge();
            assert(pre.edge_modifier.modified@.last() == pre.edge_modifier.modified@[pre.edge_modifier.modified@.len() - 1]);
            assert(pre.edge_wf(edge_index as int));
            self.edges[edge_index].weight = original_weight;
            proof {
                Self::lemma_wf_preserved(&pre, self);
                assert(self.edge_triples() =~= pre.edge_triples().update(
                    edge_index as int,
                    (pre.edge_triples()[edge_index as int].0, pre.edge_triples()[edge_index as int].1, original_weight),
                ));
            }
        }
        self.clear_graph();
        let ghost pre = *self;
        self.nodes_length = 0;
        match &mut self.unit_module_info {
            Some(unit_module_info) => {
                unit_module_info.owning_dual_range = IndexRange::new(0, 0);
                unit_module_info.dual_node_pointers = BTreeMap::new();
            },
            None => {},
        }
        self.active_list.clear();
        proof {
            Self::lemma_wf_preserved(&pre, self);
        }
    }

    /// necessary for boundary deduplicate when the unit is partitioned
    pub fn hard_clear_edge_dedup(&mut self)
        requires
            old(self).wf(),
        ensures
            final(self).wf(),
            final(self).stable(old(self)),
            final(self).edge_dedup_timestamp == 0,
            final(self).edges@.len() == old(self).edges@.len(),
            final(self).vertices@ == old(self).vertices@,
            final(self).nodes@ == old(self).nodes@,
            final(self).active_list@ == old(self).active_list@,
            final(self).sync_requests@ == old(self).sync_requests@,
            final(self).updated_boundary@ == old(self).updated_boundary@,
            final(self).propagating_vertices@ == old(self).propagating_vertices@,
            final(self).current_cycle == old(self).current_cycle,
            forall|e: int|
                0 <= e < final(self).edges@.len() ==> {
                    &&& (#[trigger] final(self).edges@[e]).dedup_timestamp == (0usize, 0usize)
                    &&& final(self).edges@[e].left_dual_node == old(self).edges@[e].left_dual_node
                    &&& final(self).edges@[e].right_dual_node == old(self).edges@[e].right_dual_node
                    &&& final(self).edges@[e].timestamp == old(self).edges@[e].timestamp
                },
    {
        let ghost start = *self;
        let mut e: usize = 0;
        while e < self.edges.len()
            invariant
                e <= self.edges@.len(),
                self.wf(),
                start.wf(),
                self.stable(&start),
                self.vertices@ == start.vertices@,
                self.nodes@ == start.nodes@,
                self.active_list@ == start.active_list@,
                self.sync_requests@ == start.sync_requests@,
                self.updated_boundary@ == start.updated_boundary@,
                self.propagating_vertices@ == start.propagating_vertices@,
                self.current_cycle == start.current_cycle,
                forall|f: int|
                    0 <= f < self.edges@.len() ==> {
                        &&& f < e ==> (#[trigger] self.edges@[f]).dedup_timestamp == (0usize, 0usize)
                        &&& self.edges@[f].left_dual_node == start.edges@[f].left_dual_node
                        &&& self.edges@[f].right_dual_node == start.edges@[f].right_dual_node
                        &&& self.edges@[f].timestamp == start.edges@[f].timestamp
                    },
            decreases self.edges@.len() - e,
        {
            let ghost s0 = *self;
            self.set_edge_dedup(e, true, 0);
            proof {
                Self::lemma_stable_trans(&start, &s0, self);
            }
            let ghost s1 = *self;
            self.set_edge_dedup(e, false, 0);
            proof {
                Self::lemma_stable_trans(&start, &s1, self);
            }
            e = e + 1;
        }
        let ghost pre = *self;
        self.edge_dedup_timestamp = 0;
        proof {
            Self::lemma_wf_preserved(&pre, self);
            Self::lemma_stable_trans(&start, &pre, self);
        }
    }

    /// start a new deduplication round: every edge becomes unmarked
    pub fn clear_edge_dedup(&mut self)
        requires
            old(self).wf(),
        ensures
            final(self).wf(),
            final(self).stable(old(self)),
            final(self).edge_dedup_timestamp >= 1,
            final(self).edges@.len() == old(self).edges@.len(),
            final(self).vertices@ == old(self).vertices@,
            final(self).nodes@ == old(self).nodes@,
            final(self).active_list@ == old(self).active_list@,
            final(self).sync_requests@ == old(self).sync_requests@,
            final(self).updated_boundary@ == old(self).updated_boundary@,
            final(self).propagating_vertices@ == old(self).propagating_vertices@,
            final(self).current_cycle == old(self).current_cycle,
            old(self).edge_dedup_timestamp < usize::MAX ==> final(self).edge_dedup_timestamp == old(
                self).edge_dedup_timestamp + 1 && final(self).edges@ == old(self).edges@,
            forall|e: int|
                0 <= e < final(self).edges@.len() ==> {
                    &&& (#[trigger] final(self).edges@[e]).left_dual_node == old(self).edges@[e].left_dual_node
                    &&& final(self).edges@[e].right_dual_node == old(self).edges@[e].right_dual_node
                    &&& final(self).edges@[e].timestamp == old(self).edges@[e].timestamp
                },
    {
        let ghost start = *self;
        if self.edge_dedup_timestamp == usize::MAX {
            // rarely happens
            self.hard_clear_edge_dedup();
        }
        let ghost pre = *self;
        self.edge_dedup_timestamp = self.edge_dedup_timestamp + 1;  // implicitly clear all edges
        proof {
            Self::lemma_wf_preserved(&pre, self);
            Self::lemma_stable_trans(&start, &pre, self);
        }
    }
}


impl DualModuleSerial {
    /// what the preparation of a dual node keeps: the shape of the graph, the edge weights, the
    /// growth of every edge, and the internal nodes with their dual variables
    pub open spec fn stable(&self, other: &Self) -> bool {
        &&& self.same_shape(other)
        &&& self.active_list == other.active_list
    }

    /// what every operation but growing keeps: the shape of the graph, the edge weights, the growth
    /// of every edge, and the internal nodes with their dual variables
    pub open spec fn same_shape(&self, other: &Self) -> bool {
        &&& self.vertices@.len() == other.vertices@.len()
        &&& self.edges@.len() == other.edges@.len()
        &&& self.nodes@.len() == other.nodes@.len()
        &&& self.nodes_length == other.nodes_length
        &&& self.active_timestamp == other.active_timestamp
        &&& self.unit_module_info == other.unit_module_info
        &&& self.owning_range == other.owning_range
        &&& self.vertex_num == other.vertex_num
        &&& self.edge_num == other.edge_num
        &&& self.edge_modifier == other.edge_modifier
        &&& forall|v: int|
            0 <= v < self.vertices@.len() ==> {
                &&& (#[trigger] self.vertices@[v]).vertex_index == other.vertices@[v].vertex_index
                &&& self.vertices@[v].is_virtual == other.vertices@[v].is_virtual
                &&& self.vertices@[v].mirror_unit == other.vertices@[v].mirror_unit
                &&& self.vertices@[v].edges == other.vertices@[v].edges
            }
        &&& forall|e: int|
            0 <= e < self.edges@.len() ==> {
                &&& (#[trigger] self.edges@[e]).weight == other.edges@[e].weight
                &&& self.edges@[e].left == other.edges@[e].left
                &&& self.edges@[e].right == other.edges@[e].right
                &&& self.edges@[e].edge_index == other.edges@[e].edge_index
                &&& self.growth_of(e, true) == other.growth_of(e, true)
                &&& self.growth_of(e, false) == other.growth_of(e, false)
            }
        &&& forall|k: int|
            0 <= k < self.nodes@.len() ==> {
                &&& (#[trigger] self.nodes@[k]) is Some == other.nodes@[k] is Some
                &&& self.nodes@[k] is Some ==> {
                    &&& self.nodes@[k]->Some_0.origin == other.nodes@[k]->Some_0.origin
                    &&& self.nodes@[k]->Some_0.index == other.nodes@[k]->Some_0.index
                    &&& self.nodes@[k]->Some_0.dual_variable == other.nodes@[k]->Some_0.dual_variable
                }
            }
    }

    /// keeping what is stable is transitive
    pub proof fn lemma_stable_trans(a: &Self, b: &Self, c: &Self)
        requires
            b.stable(a),
            c.stable(b),
        ensures
            c.stable(a),
    {
        Self::lemma_same_shape_trans(a, b, c);
    }

    /// the body of [`Self::lemma_same_shape_trans`] for stable modules
    proof fn lemma_stable_trans_body(a: &Self, b: &Self, c: &Self)
        requires
            b.stable(a),
            c.stable(b),
        ensures
            c.stable(a),
    {
        assert forall|v: int| 0 <= v < c.vertices@.len() implies {
            &&& (#[trigger] c.vertices@[v]).vertex_index == a.vertices@[v].vertex_index
            &&& c.vertices@[v].is_virtual == a.vertices@[v].is_virtual
            &&& c.vertices@[v].mirror_unit == a.vertices@[v].mirror_unit
            &&& c.vertices@[v].edges == a.vertices@[v].edges
        } by {
            assert(b.vertices@[v].edges == a.vertices@[v].edges);
        }
        assert forall|e: int| 0 <= e < c.edges@.len() implies {
            &&& (#[trigger] c.edges@[e]).weight == a.edges@[e].weight
            &&& c.edges@[e].left == a.edges@[e].left
            &&& c.edges@[e].right == a.edges@[e].right
            &&& c.edges@[e].edge_index == a.edges@[e].edge_index
            &&& c.growth_of(e, true) == a.growth_of(e, true)
            &&& c.growth_of(e, false) == a.growth_of(e, false)
        } by {
            assert(b.edges@[e].weight == a.edges@[e].weight);
        }
        assert forall|k: int| 0 <= k < c.nodes@.len() implies {
            &&& (#[trigger] c.nodes@[k]) is Some == a.nodes@[k] is Some
            &&& c.nodes@[k] is Some ==> {
                &&& c.nodes@[k]->Some_0.origin == a.nodes@[k]->Some_0.origin
                &&& c.nodes@[k]->Some_0.index == a.nodes@[k]->Some_0.index
                &&& c.nodes@[k]->Some_0.dual_variable == a.nodes@[k]->Some_0.dual_variable
            }
        } by {
            assert(b.nodes@[k] is Some == a.nodes@[k] is Some);
        }
    }

    /// keeping the shape is transitive
    pub proof fn lemma_same_shape_trans(a: &Self, b: &Self, c: &Self)
        requires
            b.same_shape(a),
            c.same_shape(b),
        ensures
            c.same_shape(a),
    {
        assert forall|v: int| 0 <= v < c.vertices@.len() implies {
            &&& (#[trigger] c.vertices@[v]).vertex_index == a.vertices@[v].vertex_index
            &&& c.vertices@[v].is_virtual == a.vertices@[v].is_virtual
            &&& c.vertices@[v].mirror_unit == a.vertices@[v].mirror_unit
            &&& c.vertices@[v].edges == a.vertices@[v].edges
        } by {
            assert(b.vertices@[v].edges == a.vertices@[v].edges);
        }
        assert forall|e: int| 0 <= e < c.edges@.len() implies {
            &&& (#[trigger] c.edges@[e]).weight == a.edges@[e].weight
            &&& c.edges@[e].left == a.edges@[e].left
            &&& c.edges@[e].right == a.edges@[e].right
            &&& c.edges@[e].edge_index == a.edges@[e].edge_index
            &&& c.growth_of(e, true) == a.growth_of(e, true)
            &&& c.growth_of(e, false) == a.growth_of(e, false)
        } by {
            assert(b.edges@[e].weight == a.edges@[e].weight);
        }
        assert forall|k: int| 0 <= k < c.nodes@.len() implies {
            &&& (#[trigger] c.nodes@[k]) is Some == a.nodes@[k] is Some
            &&& c.nodes@[k] is Some ==> {
                &&& c.nodes@[k]->Some_0.origin == a.nodes@[k]->Some_0.origin
                &&& c.nodes@[k]->Some_0.index == a.nodes@[k]->Some_0.index
                &&& c.nodes@[k]->Some_0.dual_variable == a.nodes@[k]->Some_0.dual_variable
            }
        } by {
            assert(b.nodes@[k] is Some == a.nodes@[k] is Some);
        }
    }

    /// a module is stable against itself
    pub proof fn lemma_stable_refl(a: &Self)
        ensures
            a.stable(a),
    {
    }

    /// keeping what is stable keeps the coupling with the interface
    pub proof fn lemma_stable_coupled(a: &Self, b: &Self, interface: &DualModuleInterface)
        requires
            a.wf(),
            a.coupled_prefix(interface),
            b.same_shape(a),
        ensures
            b.coupled_prefix(interface),
            a.coupled(interface) ==> b.coupled(interface),
    {
        assert forall|k: int| 0 <= k < b.nodes_length implies (b.nodes@[k] is Some
            <==> #[trigger] interface.is_live(k)) by {
            assert(b.nodes@[k] is Some == a.nodes@[k] is Some);
        }
        assert forall|k: int| 0 <= k < b.nodes_length && #[trigger] b.nodes@[k] is Some implies {
            &&& b.nodes@[k]->Some_0.origin.index == k
            &&& b.nodes@[k]->Some_0.index == k
        } by {
            assert(b.nodes@[k] is Some == a.nodes@[k] is Some);
        }
    }

    /// the node of edge `e` on one side, with its grandson
    pub fn set_edge_side(
        &mut self,
        e: usize,
        is_left: bool,
        node: Option<usize>,
        grandson: Option<usize>,
    )
        requires
            old(self).wf(),
            e < old(self).edges@.len(),
            opt_lt(node, old(self).nodes@.len() as int),
            opt_lt(grandson, old(self).nodes@.len() as int),
        ensures
            final(self).wf(),
            final(self).stable(old(self)),
            final(self).vertices@ == old(self).vertices@,
            final(self).nodes@ == old(self).nodes@,
            final(self).active_list@ == old(self).active_list@,
            final(self).frame_unchanged(old(self)),
            final(self).sync_requests@ == old(self).sync_requests@,
            final(self).edges@.len() == old(self).edges@.len(),
            forall|f: int|
                0 <= f < final(self).edges@.len() && f != e ==> final(self).edges@[f]
                    == old(self).edges@[f],
            final(self).edges@[e as int].timestamp == old(self).edges@[e as int].timestamp,
            final(self).edges@[e as int].dedup_timestamp == old(self).edges@[e as int].dedup_timestamp,
            is_left ==> final(self).edges@[e as int].left_dual_node == node
                && final(self).edges@[e as int].left_grandson_dual_node == grandson
                && final(self).edges@[e as int].right_dual_node == old(self).edges@[e as int].right_dual_node
                && final(self).edges@[e as int].right_grandson_dual_node == old(
                self).edges@[e as int].right_grandson_dual_node,
            !is_left ==> final(self).edges@[e as int].right_dual_node == node
                && final(self).edges@[e as int].right_grandson_dual_node == grandson
                && final(self).edges@[e as int].left_dual_node == old(self).edges@[e as int].left_dual_node
                && final(self).edges@[e as int].left_grandson_dual_node == old(
                self).edges@[e as int].left_grandson_dual_node,
    {
        let ghost pre = *self;
        assert(pre.edge_wf(e as int));
        if is_left {
            self.edges[e].left_dual_node = node;
            self.edges[e].left_grandson_dual_node = grandson;
        } else {
            self.edges[e].right_dual_node = node;
            self.edges[e].right_grandson_dual_node = grandson;
        }
        assert(self.edge_wf(e as int));
        proof {
            Self::lemma_wf_preserved(&pre, self);
        }
    }

    /// mark one side of edge `e` with the deduplication timestamp
    pub fn set_edge_dedup(&mut self, e: usize, is_left: bool, timestamp: usize)
        requires
            old(self).wf(),
            e < old(self).edges@.len(),
        ensures
            final(self).wf(),
            final(self).stable(old(self)),
            final(self).vertices@ == old(self).vertices@,
            final(self).nodes@ == old(self).nodes@,
            final(self).active_list@ == old(self).active_list@,
            final(self).frame_unchanged(old(self)),
            final(self).sync_requests@ == old(self).sync_requests@,
            final(self).edges@.len() == old(self).edges@.len(),
            forall|f: int|
                0 <= f < final(self).edges@.len() && f != e ==> final(self).edges@[f]
                    == old(self).edges@[f],
            is_left ==> final(self).edges@[e as int].dedup_timestamp == (
            timestamp,
            old(self).edges@[e as int].dedup_timestamp.1,
            ),
            !is_left ==> final(self).edges@[e as int].dedup_timestamp == (
            old(self).edges@[e as int].dedup_timestamp.0,
            timestamp,
            ),
            final(self).edges@[e as int].left_dual_node == old(self).edges@[e as int].left_dual_node,
            final(self).edges@[e as int].right_dual_node == old(self).edges@[e as int].right_dual_node,
            final(self).edges@[e as int].timestamp == old(self).edges@[e as int].timestamp,
    {
        let ghost pre = *self;
        assert(pre.edge_wf(e as int));
        if is_left {
            self.edges[e].dedup_timestamp.0 = timestamp;
        } else {
            self.edges[e].dedup_timestamp.1 = timestamp;
        }
        assert(self.edge_wf(e as int));
        proof {
            Self::lemma_wf_preserved(&pre, self);
        }
    }

    /// the propagated node of vertex `v`, with its grandson
    pub fn set_vertex_propagation(&mut self, v: usize, node: Option<usize>, grandson: Option<usize>)
        requires
            old(self).wf(),
            v < old(self).vertices@.len(),
            opt_lt(node, old(self).nodes@.len() as int),
            opt_lt(grandson, old(self).nodes@.len() as int),
        ensures
            final(self).wf(),
            final(self).stable(old(self)),
            final(self).edges@ == old(self).edges@,
            final(self).nodes@ == old(self).nodes@,
            final(self).active_list@ == old(self).active_list@,
            final(self).frame_unchanged(old(self)),
            final(self).sync_requests@ == old(self).sync_requests@,
            final(self).vertices@.len() == old(self).vertices@.len(),
            forall|u: int|
                0 <= u < final(self).vertices@.len() && u != v ==> final(self).vertices@[u]
                    == old(self).vertices@[u],
            final(self).vertices@[v as int].propagated_dual_node == node,
            final(self).vertices@[v as int].propagated_grandson_dual_node == grandson,
            final(self).vertices@[v as int].timestamp == old(self).vertices@[v as int].timestamp,
            final(self).vertices@[v as int].is_defect == old(self).vertices@[v as int].is_defect,
    {
        let ghost pre = *self;
        assert(pre.vertex_wf(v as int));
        self.vertices[v].propagated_dual_node = node;
        self.vertices[v].propagated_grandson_dual_node = grandson;
        assert(self.vertex_wf(v as int));
        proof {
            Self::lemma_wf_preserved(&pre, self);
        }
    }

    /// append an entry to the boundary being built
    pub fn push_updated_boundary(&mut self, is_left: bool, e: usize)
        requires
            old(self).wf(),
            e < old(self).edges@.len(),
        ensures
            final(self).wf(),
            final(self).stable(old(self)),
            final(self).vertices@ == old(self).vertices@,
            final(self).edges@ == old(self).edges@,
            final(self).nodes@ == old(self).nodes@,
            final(self).active_list@ == old(self).active_list@,
            final(self).sync_requests@ == old(self).sync_requests@,
            final(self).propagating_vertices@ == old(self).propagating_vertices@,
            final(self).updated_boundary@ == old(self).updated_boundary@.push((is_left, e)),
            final(self).current_cycle == old(self).current_cycle,
            final(self).edge_dedup_timestamp == old(self).edge_dedup_timestamp,
    {
        let ghost pre = *self;
        self.updated_boundary.push((is_left, e));
        proof {
            assert forall|j: int| 0 <= j < self.updated_boundary@.len() implies (
            #[trigger] self.updated_boundary@[j]).1 < self.edges@.len() by {
                if j < pre.updated_boundary@.len() {
                    assert(self.updated_boundary@[j] == pre.updated_boundary@[j]);
                }
            }
            Self::lemma_wf_preserved(&pre, self);
        }
    }

    /// the number of entries in the boundary of internal node `k`
    pub fn boundary_len(&self, k: usize) -> (r: usize)
        requires
            k < self.nodes@.len(),
            self.nodes@[k as int] is Some,
        ensures
            r == self.boundary_of(k as int).len(),
    {
        match &self.nodes[k] {
            Some(node) => node.boundary.len(),
            None => 0,
        }
    }

    /// the `j`-th entry of the boundary of internal node `k`
    pub fn boundary_entry(&self, k: usize, j: usize) -> (r: (bool, EdgeIndex))
        requires
            self.wf(),
            k < self.nodes@.len(),
            self.nodes@[k as int] is Some,
            j < self.boundary_of(k as int).len(),
        ensures
            r == self.boundary_of(k as int)[j as int],
            r.1 < self.edges@.len(),
    {
        assert(self.node_wf(k as int));
        match &self.nodes[k] {
            Some(node) => node.boundary[j],
            None => (false, 0),
        }
    }
}


impl DualModuleSerial {
    /// empty the lists used while preparing a node
    fn clear_temporaries(&mut self)
        requires
            old(self).wf(),
        ensures
            final(self).wf(),
            final(self).stable(old(self)),
            final(self).vertices@ == old(self).vertices@,
            final(self).edges@ == old(self).edges@,
            final(self).nodes@ == old(self).nodes@,
            final(self).active_list@ == old(self).active_list@,
            final(self).sync_requests@ == old(self).sync_requests@,
            final(self).updated_boundary@.len() == 0,
            final(self).propagating_vertices@.len() == 0,
            final(self).edge_dedup_timestamp == old(self).edge_dedup_timestamp,
            final(self).current_cycle == old(self).current_cycle,
    {
        let ghost pre = *self;
        self.updated_boundary.clear();
        self.propagating_vertices.clear();
        proof {
            Self::lemma_wf_preserved(&pre, self);
        }
    }

    /// remember a vertex to propagate into, with the grandson it gets
    fn push_propagating(&mut self, v: usize, grandson: Option<usize>)
        requires
            old(self).wf(),
            v < old(self).vertices@.len(),
            opt_lt(grandson, old(self).nodes@.len() as int),
        ensures
            final(self).wf(),
            final(self).stable(old(self)),
            final(self).vertices@ == old(self).vertices@,
            final(self).edges@ == old(self).edges@,
            final(self).nodes@ == old(self).nodes@,
            final(self).active_list@ == old(self).active_list@,
            final(self).sync_requests@ == old(self).sync_requests@,
            final(self).updated_boundary@ == old(self).updated_boundary@,
            final(self).propagating_vertices@ == old(self).propagating_vertices@.push((v, grandson)),
            final(self).edge_dedup_timestamp == old(self).edge_dedup_timestamp,
            final(self).current_cycle == old(self).current_cycle,
    {
        let ghost pre = *self;
        self.propagating_vertices.push((v, grandson));
        proof {
            assert forall|j: int| 0 <= j < self.propagating_vertices@.len() implies {
                &&& (#[trigger] self.propagating_vertices@[j]).0 < self.vertices@.len()
                &&& opt_lt(self.propagating_vertices@[j].1, self.nodes@.len() as int)
            } by {
                if j < pre.propagating_vertices@.len() {
                    assert(self.propagating_vertices@[j] == pre.propagating_vertices@[j]);
                }
            }
            Self::lemma_wf_preserved(&pre, self);
        }
    }

    /// record a vertex over-grown by internal node `k`
    fn push_overgrown(&mut self, k: usize, v: usize)
        requires
            old(self).wf(),
            k < old(self).nodes@.len(),
            old(self).nodes@[k as int] is Some,
            v < old(self).vertices@.len(),
        ensures
            final(self).wf(),
            final(self).stable(old(self)),
            final(self).vertices@ == old(self).vertices@,
            final(self).edges@ == old(self).edges@,
            final(self).active_list@ == old(self).active_list@,
            final(self).sync_requests@ == old(self).sync_requests@,
            final(self).updated_boundary@ == old(self).updated_boundary@,
            final(self).propagating_vertices@ == old(self).propagating_vertices@,
            final(self).edge_dedup_timestamp == old(self).edge_dedup_timestamp,
            final(self).current_cycle == old(self).current_cycle,
            final(self).boundary_of(k as int) == old(self).boundary_of(k as int),
            final(self).nodes@[k as int]->Some_0.overgrown_stack@ == old(self).nodes@[k as int]->Some_0.overgrown_stack@.push((v, 0)),
            final(self).nodes@[k as int]->Some_0.dual_variable == old(self).nodes@[k as int]->Some_0.dual_variable,
            final(self).nodes@[k as int]->Some_0.origin == old(self).nodes@[k as int]->Some_0.origin,
            forall|j: int|
                0 <= j < final(self).nodes@.len() && j != k ==> final(self).nodes@[j] == old(self).nodes@[j],
    {
        let ghost pre = *self;
        assert(pre.node_wf(k as int));
        match &mut self.nodes[k] {
            Some(node) => node.overgrown_stack.push((v, 0)),
            None => {},
        }
        proof {
            assert(self.node_wf(k as int));
            Self::lemma_wf_preserved(&pre, self);
        }
    }

    /// the last over-grown vertex of internal node `k` with how much it is over-grown
    fn last_overgrown(&self, k: usize) -> (r: Option<(VertexIndex, Weight)>)
        requires
            self.wf(),
            k < self.nodes@.len(),
            self.nodes@[k as int] is Some,
        ensures
            r is None <==> self.nodes@[k as int]->Some_0.overgrown_stack@.len() == 0,
            r matches Some(x) ==> x == self.nodes@[k as int]->Some_0.overgrown_stack@.last() && x.0
                < self.vertices@.len(),
    {
        assert(self.node_wf(k as int));
        match &self.nodes[k] {
            Some(node) => {
                let len = node.overgrown_stack.len();
                if len == 0 {
                    None
                } else {
                    Some(node.overgrown_stack[len - 1])
                }
            },
            None => None,
        }
    }

    /// forget the last over-grown vertex of internal node `k`
    fn pop_overgrown(&mut self, k: usize)
        requires
            old(self).wf(),
            k < old(self).nodes@.len(),
            old(self).nodes@[k as int] is Some,
            old(self).nodes@[k as int]->Some_0.overgrown_stack@.len() > 0,
        ensures
            final(self).wf(),
            final(self).stable(old(self)),
            final(self).vertices@ == old(self).vertices@,
            final(self).edges@ == old(self).edges@,
            final(self).active_list@ == old(self).active_list@,
            final(self).sync_requests@ == old(self).sync_requests@,
            final(self).updated_boundary@ == old(self).updated_boundary@,
            final(self).propagating_vertices@ == old(self).propagating_vertices@,
            final(self).edge_dedup_timestamp == old(self).edge_dedup_timestamp,
            final(self).current_cycle == old(self).current_cycle,
            final(self).boundary_of(k as int) == old(self).boundary_of(k as int),
            final(self).nodes@[k as int]->Some_0.overgrown_stack@ == old(self).nodes@[k as int]->Some_0.overgrown_stack@.drop_last(),
            forall|j: int|
                0 <= j < final(self).nodes@.len() && j != k ==> final(self).nodes@[j] == old(self).nodes@[j],
    {
        let ghost pre = *self;
        assert(pre.node_wf(k as int));
        match &mut self.nodes[k] {
            Some(node) => {
                node.overgrown_stack.pop();
            },
            None => {},
        }
        proof {
            assert(self.node_wf(k as int));
            Self::lemma_wf_preserved(&pre, self);
        }
    }

    /// the boundary being built becomes the boundary of internal node `k`
    fn install_boundary(&mut self, k: usize)
        requires
            old(self).wf(),
            k < old(self).nodes@.len(),
            old(self).nodes@[k as int] is Some,
        ensures
            final(self).wf(),
            final(self).stable(old(self)),
            final(self).vertices@ == old(self).vertices@,
            final(self).edges@ == old(self).edges@,
            final(self).active_list@ == old(self).active_list@,
            final(self).sync_requests@ == old(self).sync_requests@,
            final(self).boundary_of(k as int) == old(self).updated_boundary@,
            final(self).propagating_vertices@ == old(self).propagating_vertices@,
            final(self).active_timestamp == old(self).active_timestamp,
            final(self).nodes@[k as int]->Some_0.overgrown_stack == old(self).nodes@[k as int]->Some_0.overgrown_stack,
            forall|j: int|
                0 <= j < final(self).nodes@.len() && j != k ==> final(self).nodes@[j] == old(self).nodes@[j],
    {
        let ghost pre = *self;
        assert(pre.node_wf(k as int));
        match &mut self.nodes[k] {
            Some(node) => std::mem::swap(&mut self.updated_boundary, &mut node.boundary),
            None => {},
        }
        proof {
            assert(self.node_wf(k as int));
            Self::lemma_wf_preserved(&pre, self);
        }
    }

    /// what `sync_entry` gives for internal node `k`: nothing for no node or a node whose origin
    /// is gone from the interface
    pub open spec fn spec_sync_entry(&self, interface: &DualModuleInterface, k: Option<usize>) -> Option<
        (DualNodePtr, Weight, VertexIndex),
    > {
        match k {
            None => None,
            Some(k) => match self.nodes@[k as int] {
                None => None,
                Some(node) => if interface.is_live(node.origin.index as int) {
                    Some(
                        (
                            node.origin,
                            node.dual_variable,
                            interface.spec_representative_vertex(node.origin.index as int),
                        ),
                    )
                } else {
                    None
                },
            },
        }
    }

    /// the origin, dual variable and representative vertex of internal node `k`, sent to the units
    /// that mirror a vertex
    fn sync_entry(&self, interface: &DualModuleInterface, k: Option<usize>) -> (r: Option<
        (DualNodePtr, Weight, VertexIndex),
    >)
        requires
            self.wf(),
            interface.wf(),
            opt_lt(k, self.nodes@.len() as int),
        ensures
            r matches Some((ptr, _, _)) ==> interface.is_live(ptr.index as int),
            r == self.spec_sync_entry(interface, k),
    {
        match k {
            None => None,
            Some(k) => match &self.nodes[k] {
                None => None,
                Some(node) => {
                    let origin = node.origin;
                    if interface.check_ptr_belonging(&origin) {
                        Some((origin, node.dual_variable, origin.get_representative_vertex(interface)))
                    } else {
                        None
                    }
                },
            },
        }
    }

    /// tell the unit mirroring vertex `v` about its propagated nodes
    fn sync_vertex(&mut self, interface: &DualModuleInterface, v: usize)
        requires
            old(self).wf(),
            interface.wf(),
            v < old(self).vertices@.len(),
        ensures
            final(self).wf(),
            final(self).stable(old(self)),
            final(self).vertices@ == old(self).vertices@,
            final(self).edges@ == old(self).edges@,
            final(self).nodes@ == old(self).nodes@,
            final(self).active_list@ == old(self).active_list@,
            final(self).updated_boundary@ == old(self).updated_boundary@,
            final(self).propagating_vertices@ == old(self).propagating_vertices@,
            final(self).edge_dedup_timestamp == old(self).edge_dedup_timestamp,
            final(self).current_cycle == old(self).current_cycle,
            old(self).vertices@[v as int].mirror_unit is None ==> final(self).sync_requests@ == old(self).sync_requests@,
            old(self).vertices@[v as int].mirror_unit matches Some((mirror_unit_index, _))
                ==> final(self).sync_requests@ == old(self).sync_requests@.push(
                SyncRequest {
                    mirror_unit_index,
                    vertex_index: old(self).vertices@[v as int].vertex_index,
                    propagated_dual_node: old(self).spec_sync_entry(
                        interface,
                        old(self).vertices@[v as int].propagated_dual_node,
                    ),
                    propagated_grandson_dual_node: old(self).spec_sync_entry(
                        interface,
                        old(self).vertices@[v as int].propagated_grandson_dual_node,
                    ),
                },
            ),
    {
        assert(self.vertex_wf(v as int));
        match self.vertices[v].mirror_unit {
            Some((mirror_unit_index, _)) => {
                let propagated_dual_node = self.sync_entry(
                    interface,
                    self.vertices[v].propagated_dual_node,
                );
                let propagated_grandson_dual_node = self.sync_entry(
                    interface,
                    self.vertices[v].propagated_grandson_dual_node,
                );
                let ghost pre = *self;
                self.sync_requests.push(
                    SyncRequest {
                        mirror_unit_index,
                        vertex_index: self.vertices[v].vertex_index,
                        propagated_dual_node,
                        propagated_grandson_dual_node,
                    },
                );
                proof {
                    Self::lemma_wf_preserved(&pre, self);
                }
            },
            None => {},
        }
    }
}


/// the sides of `sides` that a node takes in order, each if it is free and not yet taken, with the
/// sides taken so far
pub open spec fn claim_sides(
    free: spec_fn((bool, EdgeIndex)) -> bool,
    taken: Set<(bool, EdgeIndex)>,
    sides: Seq<(bool, EdgeIndex)>,
) -> (Set<(bool, EdgeIndex)>, Seq<(bool, EdgeIndex)>)
    decreases sides.len(),
{
    if sides.len() == 0 {
        (taken, Seq::empty())
    } else {
        let prev = claim_sides(free, taken, sides.drop_last());
        let side = sides.last();
        if free(side) && !prev.0.contains(side) {
            (prev.0.insert(side), prev.1.push(side))
        } else {
            prev
        }
    }
}

/// propagating a node into `targets` in order: a target that is free and not yet taken is taken
/// with its free incident sides; the vertices taken, the sides taken and the sides added to the
/// boundary, in order
pub open spec fn propagate_into(
    vertex_free: spec_fn(usize) -> bool,
    side_free: spec_fn((bool, EdgeIndex)) -> bool,
    incident: spec_fn(usize) -> Seq<(bool, EdgeIndex)>,
    targets: Seq<usize>,
) -> (Set<usize>, Set<(bool, EdgeIndex)>, Seq<(bool, EdgeIndex)>)
    decreases targets.len(),
{
    if targets.len() == 0 {
        (Set::empty(), Set::empty(), Seq::empty())
    } else {
        let prev = propagate_into(vertex_free, side_free, incident, targets.drop_last());
        let v = targets.last();
        if vertex_free(v) && !prev.0.contains(v) {
            let claimed = claim_sides(side_free, prev.1, incident(v));
            (prev.0.insert(v), claimed.0, prev.2 + claimed.1)
        } else {
            prev
        }
    }
}

/// the vertices taken by propagating are the free targets
pub proof fn lemma_propagate_taken(
    vertex_free: spec_fn(usize) -> bool,
    side_free: spec_fn((bool, EdgeIndex)) -> bool,
    incident: spec_fn(usize) -> Seq<(bool, EdgeIndex)>,
    targets: Seq<usize>,
    u: usize,
)
    ensures
        propagate_into(vertex_free, side_free, incident, targets).0.contains(u) <==> (targets.contains(u)
            && vertex_free(u)),
    decreases targets.len(),
{
    if targets.len() > 0 {
        lemma_propagate_taken(vertex_free, side_free, incident, targets.drop_last(), u);
        if targets.drop_last().contains(u) {
            let i = choose|i: int| 0 <= i < targets.drop_last().len() && targets.drop_last()[i] == u;
            assert(targets[i] == u);
        }
        if targets.contains(u) && targets.last() != u {
            let i = choose|i: int| 0 <= i < targets.len() && targets[i] == u;
            assert(targets.drop_last()[i] == u);
        }
        if targets.last() == u {
            assert(targets[targets.len() - 1] == u);
        }
    }
}

impl DualModuleSerial {
    /// the vertex on the other side of a boundary entry
    pub open spec fn peer_vertex(&self, entry: (bool, EdgeIndex)) -> usize {
        if entry.0 {
            self.edges@[entry.1 as int].right
        } else {
            self.edges@[entry.1 as int].left
        }
    }

    /// growing takes boundary entry `entry` across its edge: the edge is fully grown, nothing
    /// holds its other side, and the vertex beyond is neither virtual nor a blocked mirror
    pub open spec fn grows_across(&self, entry: (bool, EdgeIndex)) -> bool {
        let e = entry.1 as int;
        let peer = self.peer_vertex(entry) as int;
        &&& self.growth_of(e, true) + self.growth_of(e, false) == self.edges@[e].weight
        &&& self.edge_node(e, !entry.0) is None
        &&& !self.vertices@[peer].is_virtual
        &&& !(self.vertices@[peer].mirror_unit matches Some((_, enabled)) && !enabled)
    }

    /// the boundary entries that growing keeps, in order
    pub open spec fn grow_kept(&self, boundary: Seq<(bool, EdgeIndex)>) -> Seq<(bool, EdgeIndex)>
        decreases boundary.len(),
    {
        if boundary.len() == 0 {
            Seq::empty()
        } else {
            let front = self.grow_kept(boundary.drop_last());
            if self.grows_across(boundary.last()) {
                front
            } else {
                front.push(boundary.last())
            }
        }
    }

    /// the vertices that growing propagates into, in the order of the boundary
    pub open spec fn grow_targets(&self, boundary: Seq<(bool, EdgeIndex)>) -> Seq<usize>
        decreases boundary.len(),
    {
        if boundary.len() == 0 {
            Seq::empty()
        } else {
            let front = self.grow_targets(boundary.drop_last());
            if self.grows_across(boundary.last()) {
                front.push(self.peer_vertex(boundary.last()))
            } else {
                front
            }
        }
    }

    /// which entries growing keeps and which vertices it propagates into depend on the edges,
    /// the vertices and the active timestamp alone
    pub proof fn lemma_grow_frame(a: &Self, b: &Self, boundary: Seq<(bool, EdgeIndex)>)
        requires
            a.edges@ == b.edges@,
            a.vertices@ == b.vertices@,
            a.active_timestamp == b.active_timestamp,
        ensures
            a.grow_kept(boundary) == b.grow_kept(boundary),
            a.grow_targets(boundary) == b.grow_targets(boundary),
        decreases boundary.len(),
    {
        if boundary.len() > 0 {
            Self::lemma_grow_frame(a, b, boundary.drop_last());
            assert(a.grows_across(boundary.last()) == b.grows_across(boundary.last()));
        }
    }

    /// the incident sides of a vertex depend on the shape of the graph alone
    pub proof fn lemma_incident_sides_stable(a: &Self, b: &Self, v: int)
        requires
            a.wf(),
            b.same_shape(a),
            0 <= v < a.vertices@.len(),
        ensures
            a.incident_sides(v) == b.incident_sides(v),
    {
        assert(a.vertex_wf(v));
        assert(b.vertices@[v].edges == a.vertices@[v].edges);
        assert forall|t: int| 0 <= t < a.vertices@[v].edges@.len() implies #[trigger] a.incident_sides(v)[t]
            == b.incident_sides(v)[t] by {
            let e = a.vertices@[v].edges@[t] as int;
            assert(0 <= e < a.edges@.len());
            assert(b.edges@[e].left == a.edges@[e].left);
        }
        assert(a.incident_sides(v) =~= b.incident_sides(v));
    }

    /// `side` is an incident side of one of the vertices of `pv`
    pub open spec fn side_of_target(&self, pv: Seq<(usize, Option<usize>)>, side: (bool, EdgeIndex)) -> bool {
        exists|q: int| 0 <= q < pv.len() && self.incident_sides((#[trigger] pv[q]).0 as int).contains(side)
    }

    /// the vertices that no node holds
    pub open spec fn free_vertices(&self) -> spec_fn(usize) -> bool {
        |v: usize| v < self.vertices@.len() && self.vertex_node(v as int) is None
    }

    /// the edge sides that no node holds
    pub open spec fn free_sides(&self) -> spec_fn((bool, EdgeIndex)) -> bool {
        |side: (bool, EdgeIndex)| side.1 < self.edges@.len() && self.edge_node(side.1 as int, side.0) is None
    }

    /// the edge sides that no node holds once growing across `boundary` took the far sides of its
    /// fully grown edges
    pub open spec fn grown_free_sides(&self, boundary: Seq<(bool, EdgeIndex)>) -> spec_fn((bool, EdgeIndex)) -> bool {
        |side: (bool, EdgeIndex)|
            side.1 < self.edges@.len() && self.edge_node(side.1 as int, side.0) is None && !self.grow_claims_side(
                boundary,
                side,
            )
    }

    /// the incident sides of each vertex
    pub open spec fn incident_of(&self) -> spec_fn(usize) -> Seq<(bool, EdgeIndex)> {
        |v: usize| if v < self.vertices@.len() {
            self.incident_sides(v as int)
        } else {
            Seq::empty()
        }
    }

    /// propagating into the first `n` remembered vertices
    pub open spec fn grow_propagation(&self, n: int) -> (Set<usize>, Set<(bool, EdgeIndex)>, Seq<(bool, EdgeIndex)>) {
        propagate_into(
            self.free_vertices(),
            self.free_sides(),
            self.incident_of(),
            Self::target_vertices(self.propagating_vertices@).take(n),
        )
    }

    /// growing across boundary entry `b[i]` takes the other side of its edge
    pub open spec fn grow_claims_side(&self, boundary: Seq<(bool, EdgeIndex)>, side: (bool, EdgeIndex)) -> bool {
        exists|i: int|
            0 <= i < boundary.len() && self.grows_across(#[trigger] boundary[i]) && boundary[i].1 == side.1
                && !boundary[i].0 == side.0
    }

    /// no two entries of a boundary are on the same edge
    pub open spec fn distinct_edges(boundary: Seq<(bool, EdgeIndex)>) -> bool {
        forall|x: int, y: int| 0 <= x < y < boundary.len() ==> (#[trigger] boundary[x]).1 != (#[trigger] boundary[y]).1
    }

    /// the vertices of a list of vertices to propagate into
    pub open spec fn target_vertices(pv: Seq<(usize, Option<usize>)>) -> Seq<usize> {
        pv.map_values(|x: (usize, Option<usize>)| x.0)
    }

    /// growing: keep the boundary edges of internal node `k` that are not fully grown, and over
    /// each fully grown edge with nothing on the other side, take the edge and remember the vertex
    /// beyond it to propagate into, unless that vertex is virtual
    fn prepare_grow_boundary(&mut self, k: usize)
        requires
            old(self).wf(),
            k < old(self).nodes@.len(),
            old(self).nodes@[k as int] is Some,
        ensures
            final(self).wf(),
            final(self).stable(old(self)),
            final(self).nodes@ == old(self).nodes@,
            final(self).updated_boundary@.len() - old(self).updated_boundary@.len()
                + final(self).propagating_vertices@.len() - old(self).propagating_vertices@.len()
                == old(self).boundary_of(k as int).len(),
            final(self).updated_boundary@.len() >= old(self).updated_boundary@.len(),
            final(self).updated_boundary@.take(old(self).updated_boundary@.len() as int)
                == old(self).updated_boundary@,
            final(self).propagating_vertices@.len() >= old(self).propagating_vertices@.len(),
            final(self).propagating_vertices@.take(old(self).propagating_vertices@.len() as int)
                == old(self).propagating_vertices@,
            forall|i: int|
                old(self).updated_boundary@.len() <= i < final(self).updated_boundary@.len()
                    ==> old(self).boundary_of(k as int).contains(#[trigger] final(self).updated_boundary@[i]),
            Self::distinct_edges(old(self).boundary_of(k as int)) ==> final(self).updated_boundary@
                == old(self).updated_boundary@ + old(self).grow_kept(old(self).boundary_of(k as int)),
            Self::distinct_edges(old(self).boundary_of(k as int)) ==> Self::target_vertices(
                final(self).propagating_vertices@,
            ) == Self::target_vertices(old(self).propagating_vertices@) + old(self).grow_targets(
                old(self).boundary_of(k as int),
            ),
            forall|u: int| 0 <= u < final(self).vertices@.len() ==> #[trigger] final(self).vertex_node(u) == old(self).vertex_node(u),
            Self::distinct_edges(old(self).boundary_of(k as int)) ==> forall|f: int, side: bool|
                0 <= f < final(self).edges@.len() ==> #[trigger] final(self).edge_node(f, side) == (if old(self).grow_claims_side(
                    old(self).boundary_of(k as int),
                    (side, f as usize),
                ) {
                    Some(k)
                } else {
                    old(self).edge_node(f, side)
                }),
    {
        let ghost start = *self;
        let ghost b = start.boundary_of(k as int);
        let ghost d = Self::distinct_edges(b);
        let n = self.boundary_len(k);
        let mut j: usize = 0;
        while j < n
            invariant
                self.wf(),
                self.stable(&start),
                self.nodes@ == start.nodes@,
                start.wf(),
                k < self.nodes@.len(),
                self.nodes@[k as int] is Some,
                n == self.boundary_of(k as int).len(),
                j <= n,
                self.updated_boundary@.len() - start.updated_boundary@.len()
                    + self.propagating_vertices@.len() - start.propagating_vertices@.len() == j,
                self.updated_boundary@.len() >= start.updated_boundary@.len(),
                self.updated_boundary@.take(start.updated_boundary@.len() as int) == start.updated_boundary@,
                self.propagating_vertices@.len() >= start.propagating_vertices@.len(),
                self.propagating_vertices@.take(start.propagating_vertices@.len() as int)
                    == start.propagating_vertices@,
                forall|i: int|
                    start.updated_boundary@.len() <= i < self.updated_boundary@.len()
                        ==> start.boundary_of(k as int).contains(#[trigger] self.updated_boundary@[i]),
                b == start.boundary_of(k as int),
                d == Self::distinct_edges(b),
                d ==> self.updated_boundary@ == start.updated_boundary@ + start.grow_kept(b.take(j as int)),
                d ==> Self::target_vertices(self.propagating_vertices@) == Self::target_vertices(
                    start.propagating_vertices@,
                ) + start.grow_targets(b.take(j as int)),
                forall|f: int, side: bool|
                    0 <= f < self.edges@.len() && (forall|x: int| 0 <= x < j ==> (#[trigger] b[x]).1 != f)
                        ==> #[trigger] self.edge_node(f, side) == start.edge_node(f, side),
                forall|u: int| 0 <= u < self.vertices@.len() ==> #[trigger] self.vertex_node(u) == start.vertex_node(u),
                d ==> forall|f: int, side: bool|
                    0 <= f < self.edges@.len() ==> #[trigger] self.edge_node(f, side) == (if start.grow_claims_side(
                        b.take(j as int),
                        (side, f as usize),
                    ) {
                        Some(k)
                    } else {
                        start.edge_node(f, side)
                    }),
            decreases n - j,
        {
            let ghost ub = self.updated_boundary@;
            let ghost pre_step = *self;
            let ghost pv = self.propagating_vertices@;
            let (is_left, e) = self.boundary_entry(k, j);
            let ghost s0 = *self;
            self.dynamic_clear_edge(e);
            proof {
                Self::lemma_stable_trans(&start, &s0, self);
                assert(self.edge_wf(e as int));
            }
            let ghost cleared = *self;
            let ghost mut took = false;
            let ghost mut pushed_peer: usize = 0;
            let peer_none = if is_left {
                self.edges[e].right_dual_node.is_none()
            } else {
                self.edges[e].left_dual_node.is_none()
            };
            if self.edges[e].left_growth + self.edges[e].right_growth == self.edges[e].weight
                && peer_none {
                // need to propagate to a new node
                let peer_vertex = if is_left {
                    self.edges[e].right
                } else {
                    self.edges[e].left
                };
                let ghost s1 = *self;
                // to avoid already occupied node being propagated
                self.dynamic_clear_vertex(peer_vertex);
                proof {
                    Self::lemma_stable_trans(&start, &s1, self);
                }
                if self.vertices[peer_vertex].is_virtual
                    || self.vertices[peer_vertex].is_mirror_blocked() {
                    // virtual node is never propagated, so keep this edge in the boundary
                    let ghost s2 = *self;
                    self.push_updated_boundary(is_left, e);
                    proof {
                        Self::lemma_stable_trans(&start, &s2, self);
                    }
                } else {
                    let grandson = if is_left {
                        self.edges[e].left_grandson_dual_node
                    } else {
                        self.edges[e].right_grandson_dual_node
                    };
                    let ghost s2 = *self;
                    self.push_propagating(peer_vertex, grandson);
                    proof {
                        Self::lemma_stable_trans(&start, &s2, self);
                        took = true;
                        pushed_peer = peer_vertex;
                        assert(!s2.vertices@[peer_vertex as int].is_virtual);
                        assert(s2.propagating_vertices@ == pre_step.propagating_vertices@);
                    }
                    // this edge is dropped, so we need to set both end of this edge to this dual node
                    let ghost s3 = *self;
                    self.set_edge_side(e, !is_left, Some(k), grandson);
                    proof {
                        Self::lemma_stable_trans(&start, &s3, self);
                    }
                }
            } else {
                // keep other edges
                let ghost s2 = *self;
                self.push_updated_boundary(is_left, e);
                proof {
                    Self::lemma_stable_trans(&start, &s2, self);
                }
            }
            proof {
                assert(start.boundary_of(k as int)[j as int] == (is_left, e));
                assert(b.take(j + 1).drop_last() =~= b.take(j as int));
                assert(b.take(j + 1).last() == (is_left, e));
                assert forall|f: int, side: bool|
                    0 <= f < self.edges@.len() && (forall|x: int| 0 <= x < j + 1 ==> (#[trigger] b[x]).1 != f)
                        implies #[trigger] self.edge_node(f, side) == start.edge_node(f, side) by {
                    assert(b[j as int].1 != f);
                    assert(self.edges@[f] == pre_step.edges@[f]);
                    assert(self.active_timestamp == pre_step.active_timestamp);
                    assert(pre_step.edge_node(f, side) == start.edge_node(f, side));
                }
                if d {
                    assert forall|x: int| 0 <= x < j implies (#[trigger] b[x]).1 != e by {
                        assert(b[x].1 != b[j as int].1);
                    }
                    assert(pre_step.edge_node(e as int, !is_left) == start.edge_node(e as int, !is_left));
                    assert(cleared.edge_node(e as int, !is_left) == pre_step.edge_node(e as int, !is_left));
                    assert(cleared.growth_of(e as int, true) == start.growth_of(e as int, true));
                    assert(cleared.growth_of(e as int, false) == start.growth_of(e as int, false));
                    let pv_idx = start.peer_vertex((is_left, e)) as int;
                    assert(cleared.edges@[e as int].left == start.edges@[e as int].left);
                    assert(cleared.edges@[e as int].right == start.edges@[e as int].right);
                    assert(self.vertices@[pv_idx].is_virtual == start.vertices@[pv_idx].is_virtual);
                    assert(self.vertices@[pv_idx].mirror_unit == start.vertices@[pv_idx].mirror_unit);
                    assert(took == start.grows_across((is_left, e)));
                    if took {
                        assert(pushed_peer == start.peer_vertex((is_left, e)));
                        assert(self.propagating_vertices@.len() == pre_step.propagating_vertices@.len() + 1);
                        assert(self.propagating_vertices@.last().0 == pushed_peer);
                        assert(self.propagating_vertices@.drop_last() =~= pre_step.propagating_vertices@);
                        assert(Self::target_vertices(self.propagating_vertices@) =~= Self::target_vertices(
                            pre_step.propagating_vertices@,
                        ).push(pushed_peer));
                    } else {
                        assert(self.propagating_vertices@ == pre_step.propagating_vertices@);
                    }
                    assert(self.updated_boundary@ =~= start.updated_boundary@ + start.grow_kept(b.take(j + 1)));
                    assert(self.edges@.len() == self.edges.len());
                    assert forall|f: int, side: bool| 0 <= f < self.edges@.len() implies #[trigger] self.edge_node(f, side) == (if start.grow_claims_side(
                        b.take(j + 1),
                        (side, f as usize),
                    ) {
                        Some(k)
                    } else {
                        start.edge_node(f, side)
                    }) by {
                        let bj = b.take(j + 1);
                        assert(pre_step.edge_node(f, side) == (if start.grow_claims_side(b.take(j as int), (side, f as usize)) {
                            Some(k)
                        } else {
                            start.edge_node(f, side)
                        }));
                        // the claims of the first `j + 1` entries are those of the first `j` and of entry `j`
                        if start.grow_claims_side(b.take(j as int), (side, f as usize)) {
                            let i = choose|i: int|
                                0 <= i < b.take(j as int).len() && start.grows_across(#[trigger] b.take(j as int)[i])
                                    && b.take(j as int)[i].1 == (f as usize) && !b.take(j as int)[i].0 == side;
                            assert(bj[i] == b.take(j as int)[i]);
                        }
                        if start.grow_claims_side(bj, (side, f as usize)) {
                            let i = choose|i: int|
                                0 <= i < bj.len() && start.grows_across(#[trigger] bj[i]) && bj[i].1 == (f as usize)
                                    && !bj[i].0 == side;
                            if i < j {
                                assert(b.take(j as int)[i] == bj[i]);
                            }
                        }
                        if took && f == e as int && side == !is_left {
                            assert(bj[j as int] == (is_left, e));
                            assert(start.grows_across(bj[j as int]));
                            assert(self.edge_node(f, side) == Some(k));
                        } else {
                            if f == e as int {
                                assert(self.edge_node(f, side) == cleared.edge_node(f, side));
                                assert(cleared.edge_node(f, side) == pre_step.edge_node(f, side));
                            } else {
                                assert(self.edges@[f] == pre_step.edges@[f]);
                            }
                            assert(self.active_timestamp == pre_step.active_timestamp);
                            assert(bj[j as int] == (is_left, e));
                            assert(!(start.grows_across(bj[j as int]) && bj[j as int].1 == (f as usize) && !bj[j as int].0 == side));
                        }
                    }
                    assert(Self::target_vertices(self.propagating_vertices@) =~= Self::target_vertices(
                        start.propagating_vertices@,
                    ) + start.grow_targets(b.take(j + 1)));
                }
                assert(self.updated_boundary@.take(start.updated_boundary@.len() as int)
                    =~= start.updated_boundary@) by {
                    assert(self.updated_boundary@ == ub || self.updated_boundary@ == ub.push((is_left, e)));
                    assert(ub.take(start.updated_boundary@.len() as int) == start.updated_boundary@);
                }
                assert(self.propagating_vertices@.take(start.propagating_vertices@.len() as int)
                    =~= start.propagating_vertices@) by {
                    assert(pv.take(start.propagating_vertices@.len() as int) == start.propagating_vertices@);
                }
                assert forall|i: int|
                    start.updated_boundary@.len() <= i < self.updated_boundary@.len()
                        implies start.boundary_of(k as int).contains(#[trigger] self.updated_boundary@[i]) by {
                    if i < ub.len() {
                        assert(self.updated_boundary@[i] == ub[i]);
                    }
                }
                assert forall|u: int| 0 <= u < self.vertices@.len() implies #[trigger] self.vertex_node(u) == start.vertex_node(u) by {
                    assert(pre_step.vertex_node(u) == start.vertex_node(u));
                }
            }
            j = j + 1;
        }
        assert(b.take(n as int) =~= b);
    }

    /// growing: internal node `k` takes each remembered vertex that is still free, with its free
    /// edges, which join the boundary; a vertex with no free edge is over-grown; the result tells
    /// whether an edge of zero weight joined the boundary
    fn prepare_grow_propagate(&mut self, interface: &DualModuleInterface, k: usize) -> (r: bool)
        requires
            old(self).wf(),
            interface.wf(),
            k < old(self).nodes@.len(),
            old(self).nodes@[k as int] is Some,
        ensures
            final(self).wf(),
            final(self).stable(old(self)),
            r ==> exists|e: int| 0 <= e < final(self).edges@.len() && final(self).edges@[e].weight == 0,
            (exists|p: int, t: int| #[trigger] old(self).grow_zero_witness(p, t)) ==> r,
            final(self).updated_boundary@.len() >= old(self).updated_boundary@.len(),
            final(self).updated_boundary@.take(old(self).updated_boundary@.len() as int) == old(self).updated_boundary@,
            r <==> exists|i: int|
                old(self).updated_boundary@.len() <= i < final(self).updated_boundary@.len()
                    && final(self).edges@[(#[trigger] final(self).updated_boundary@[i]).1 as int].weight == 0,
            final(self).propagating_vertices@ == old(self).propagating_vertices@,
            final(self).nodes@.len() == old(self).nodes@.len(),
            forall|x: int| 0 <= x < final(self).nodes@.len() && x != k ==> #[trigger] final(self).nodes@[x] == old(self).nodes@[x],
            forall|i: int|
                0 <= i < final(self).propagating_vertices@.len() ==> final(self).vertex_node(
                    #[trigger] final(self).propagating_vertices@[i].0 as int,
                ) is Some,
            forall|i: int|
                old(self).updated_boundary@.len() <= i < final(self).updated_boundary@.len() ==> exists|q: int|
                    0 <= q < old(self).propagating_vertices@.len() && old(self).incident_sides(
                        (#[trigger] old(self).propagating_vertices@[q]).0 as int,
                    ).contains(#[trigger] final(self).updated_boundary@[i]),
            final(self).updated_boundary@ == old(self).updated_boundary@ + old(self).grow_propagation(
                old(self).propagating_vertices@.len() as int,
            ).2,
            forall|u: int|
                0 <= u < final(self).vertices@.len() ==> #[trigger] final(self).vertex_node(u) == (if old(
                    self,
                ).grow_propagation(old(self).propagating_vertices@.len() as int).0.contains(u as usize) {
                    Some(k)
                } else {
                    old(self).vertex_node(u)
                }),
    {
        let ghost start = *self;
        let mut newly_propagated_edge_has_zero_weight = false;
        let ghost mut zero_edge: int = 0;
        let n = self.propagating_vertices.len();
        let mut p: usize = 0;
        while p < n
            invariant
                self.wf(),
                interface.wf(),
                self.stable(&start),
                start.wf(),
                k < self.nodes@.len(),
                self.nodes@[k as int] is Some,
                self.propagating_vertices@ == start.propagating_vertices@,
                n == self.propagating_vertices@.len(),
                forall|x: int| 0 <= x < self.nodes@.len() && x != k ==> #[trigger] self.nodes@[x] == start.nodes@[x],
                p <= n,
                newly_propagated_edge_has_zero_weight ==> 0 <= zero_edge < self.edges@.len()
                    && self.edges@[zero_edge].weight == 0,
                forall|q: int| 0 <= q < p ==> self.vertex_node(#[trigger] self.propagating_vertices@[q].0 as int) is Some,
                self.updated_boundary@.len() >= start.updated_boundary@.len(),
                self.updated_boundary@.take(start.updated_boundary@.len() as int) == start.updated_boundary@,
                newly_propagated_edge_has_zero_weight <==> exists|i: int|
                    start.updated_boundary@.len() <= i < self.updated_boundary@.len()
                        && self.edges@[(#[trigger] self.updated_boundary@[i]).1 as int].weight == 0,
                forall|u: int|
                    0 <= u < self.vertices@.len() && (forall|q: int|
                        0 <= q < p ==> #[trigger] start.propagating_vertices@[q].0 != u) ==> #[trigger] self.vertices@[u]
                        == start.vertices@[u],
                forall|f: int|
                    0 <= f < self.edges@.len() && !#[trigger] start.reached_before(p as int, f) ==> self.edges@[f]
                        == start.edges@[f],
                forall|q: int, t: int| 0 <= q < p && #[trigger] start.grow_zero_witness(q, t) ==> newly_propagated_edge_has_zero_weight,
                forall|i: int|
                    start.updated_boundary@.len() <= i < self.updated_boundary@.len() ==> exists|q: int|
                        0 <= q < p && start.incident_sides(
                            (#[trigger] start.propagating_vertices@[q]).0 as int,
                        ).contains(#[trigger] self.updated_boundary@[i]),
                self.updated_boundary@ == start.updated_boundary@ + start.grow_propagation(p as int).2,
                forall|u: int|
                    0 <= u < self.vertices@.len() ==> #[trigger] self.vertex_node(u) == (if start.grow_propagation(
                        p as int,
                    ).0.contains(u as usize) {
                        Some(k)
                    } else {
                        start.vertex_node(u)
                    }),
                forall|f: int, side: bool|
                    0 <= f < self.edges@.len() ==> #[trigger] self.edge_node(f, side) == (if start.grow_propagation(
                        p as int,
                    ).1.contains((side, f as usize)) {
                        Some(k)
                    } else {
                        start.edge_node(f, side)
                    }),
            decreases n - p,
        {
            let ghost outer = *self;
            let ghost flag0 = newly_propagated_edge_has_zero_weight;
            let (v, grandson) = self.propagating_vertices[p];
            let ghost s0 = *self;
            self.dynamic_clear_vertex(v);
            proof {
                Self::lemma_stable_trans(&start, &s0, self);
                assert(v == start.propagating_vertices@[p as int].0);
                // a witness at `p` is a vertex seen for the first time
                if exists|t: int| #[trigger] start.grow_zero_witness(p as int, t) {
                    let t = choose|t: int| #[trigger] start.grow_zero_witness(p as int, t);
                    assert forall|q: int| 0 <= q < p implies #[trigger] start.propagating_vertices@[q].0 != v by {
                        if start.propagating_vertices@[q].0 == v {
                            assert(start.vertices@[start.propagating_vertices@[q].0 as int].edges@[t] as int
                                == start.vertices@[v as int].edges@[t] as int);
                            assert(start.reached_before(p as int, start.vertices@[v as int].edges@[t] as int));
                        }
                    }
                    assert(outer.vertices@[v as int] == start.vertices@[v as int]);
                }
            }
            let ghost taken = *self;
            let ghost targets = Self::target_vertices(start.propagating_vertices@);
            let ghost ps = start.grow_propagation(p as int);
            proof {
                assert(targets.take(p + 1).drop_last() =~= targets.take(p as int));
                assert(targets.take(p + 1).last() == v);
                assert(taken.vertex_node(v as int) == outer.vertex_node(v as int));
                assert(outer.vertex_node(v as int) == (if ps.0.contains(v) {
                    Some(k)
                } else {
                    start.vertex_node(v as int)
                }));
                assert((taken.vertices@[v as int].propagated_dual_node is None) == (start.free_vertices()(v)
                    && !ps.0.contains(v)));
                assert forall|u: int| 0 <= u < self.vertices@.len() implies #[trigger] self.vertex_node(u) == outer.vertex_node(u) by {
                    if u != v as int {
                        assert(self.vertices@[u] == outer.vertices@[u]);
                    }
                }
            }
            let ghost mut took_v = false;
            let ghost mut after_inner = *self;
            let ghost mut claimed: (Set<(bool, EdgeIndex)>, Seq<(bool, EdgeIndex)>) = (Set::empty(), Seq::empty());
            if self.vertices[v].propagated_dual_node.is_none() {
                let ghost s1 = *self;
                self.set_vertex_propagation(v, Some(k), grandson);
                proof {
                    Self::lemma_stable_trans(&start, &s1, self);
                }
                // add to the sync list
                let ghost s2 = *self;
                self.sync_vertex(interface, v);
                proof {
                    Self::lemma_stable_trans(&start, &s2, self);
                    assert(self.vertex_wf(v as int));
                }
                let mut count_newly_propagated_edge: usize = 0;
                let m = self.vertices[v].edges.len();
                let mut t: usize = 0;
                let ghost inner = *self;
                let ghost inc = start.incident_sides(v as int);
                proof {
                    assert(inner.edges@ == outer.edges@);
                    assert(inner.vertices@[v as int].edges == start.vertices@[v as int].edges);
                    assert(inc.take(0) =~= Seq::<(bool, EdgeIndex)>::empty());
                    assert(claim_sides(start.free_sides(), ps.1, inc.take(0)) == (ps.1, Seq::<(bool, EdgeIndex)>::empty()));
                    assert(self.updated_boundary@ =~= start.updated_boundary@ + ps.2 + Seq::<(bool, EdgeIndex)>::empty());
                    assert forall|u: int| 0 <= u < self.vertices@.len() implies #[trigger] self.vertex_node(u) == (if ps.0.insert(v).contains(u as usize) {
                        Some(k)
                    } else {
                        start.vertex_node(u)
                    }) by {
                        assert(self.active_timestamp == taken.active_timestamp);
                        if u != v as int {
                            assert(self.vertices@.len() == self.vertices.len());
                            assert(u as usize != v);
                            assert(self.vertices@[u] == taken.vertices@[u]);
                            assert(taken.vertex_node(u) == outer.vertex_node(u));
                            assert(outer.vertex_node(u) == (if ps.0.contains(u as usize) {
                                Some(k)
                            } else {
                                start.vertex_node(u)
                            }));
                        } else {
                            assert(self.vertices@[v as int].timestamp == self.active_timestamp);
                            assert(self.vertices@[v as int].propagated_dual_node == Some(k));
                        }
                    }
                    assert forall|f: int, side: bool| 0 <= f < self.edges@.len() implies #[trigger] self.edge_node(f, side) == outer.edge_node(f, side) by {}
                }
                while t < m
                    invariant
                        self.wf(),
                        self.stable(&start),
                        start.wf(),
                        k < self.nodes@.len(),
                        self.nodes@[k as int] is Some,
                        v < self.vertices@.len(),
                        m == self.vertices@[v as int].edges@.len(),
                        self.propagating_vertices@ == start.propagating_vertices@,
                        opt_lt(grandson, self.nodes@.len() as int),
                        forall|x: int| 0 <= x < self.nodes@.len() && x != k ==> #[trigger] self.nodes@[x] == start.nodes@[x],
                        t <= m,
                        count_newly_propagated_edge <= t,
                        newly_propagated_edge_has_zero_weight ==> 0 <= zero_edge < self.edges@.len()
                            && self.edges@[zero_edge].weight == 0,
                        self.vertices@ == inner.vertices@,
                        inner.vertices@[v as int].edges == start.vertices@[v as int].edges,
                        inner.edges@ == outer.edges@,
                        flag0 ==> newly_propagated_edge_has_zero_weight,
                        v == start.propagating_vertices@[p as int].0,
                        self.updated_boundary@.len() >= start.updated_boundary@.len(),
                        self.updated_boundary@.take(start.updated_boundary@.len() as int) == start.updated_boundary@,
                        newly_propagated_edge_has_zero_weight <==> exists|i: int|
                            start.updated_boundary@.len() <= i < self.updated_boundary@.len()
                                && self.edges@[(#[trigger] self.updated_boundary@[i]).1 as int].weight == 0,
                        p < start.propagating_vertices@.len(),
                        start.edges@.len() == self.edges@.len(),
                        forall|f: int|
                            0 <= f < self.edges@.len() && !#[trigger] start.reached_before(p as int, f) ==> outer.edges@[f]
                                == start.edges@[f],
                        forall|t2: int| 0 <= t2 < t && #[trigger] start.grow_zero_witness(p as int, t2) ==> newly_propagated_edge_has_zero_weight,
                        forall|f: int|
                            0 <= f < self.edges@.len() && (forall|t2: int|
                                0 <= t2 < t ==> #[trigger] start.vertices@[v as int].edges@[t2] != f) ==> self.edges@[f]
                                == inner.edges@[f],
                        forall|f: int|
                            0 <= f < self.edges@.len() && (forall|t2: int|
                                0 <= t2 < m ==> #[trigger] start.vertices@[v as int].edges@[t2] != f) ==> self.edges@[f]
                                == inner.edges@[f],
                        forall|i: int|
                            start.updated_boundary@.len() <= i < self.updated_boundary@.len() ==> exists|q: int|
                                0 <= q < p + 1 && start.incident_sides(
                                    (#[trigger] start.propagating_vertices@[q]).0 as int,
                                ).contains(#[trigger] self.updated_boundary@[i]),
                        inc == start.incident_sides(v as int),
                        ps == start.grow_propagation(p as int),
                        inc.len() == m,
                        self.active_timestamp == inner.active_timestamp,
                        self.updated_boundary@ == start.updated_boundary@ + ps.2 + claim_sides(
                            start.free_sides(),
                            ps.1,
                            inc.take(t as int),
                        ).1,
                        forall|u: int|
                            0 <= u < self.vertices@.len() ==> #[trigger] self.vertex_node(u) == (if ps.0.insert(v).contains(
                                u as usize,
                            ) {
                                Some(k)
                            } else {
                                start.vertex_node(u)
                            }),
                        forall|f: int, side: bool|
                            0 <= f < self.edges@.len() ==> #[trigger] self.edge_node(f, side) == (if claim_sides(
                                start.free_sides(),
                                ps.1,
                                inc.take(t as int),
                            ).0.contains((side, f as usize)) {
                                Some(k)
                            } else {
                                start.edge_node(f, side)
                            }),
                    decreases m - t,
                {
                    let ghost step = *self;
                    proof {
                        assert(self.vertex_wf(v as int));
                    }
                    let e = self.vertices[v].edges[t];
                    let ghost s3 = *self;
                    self.dynamic_clear_edge(e);
                    proof {
                        Self::lemma_stable_trans(&start, &s3, self);
                    }
                    let ghost cleared_e = *self;
                    let is_left = self.edges[e].left == v;
                    let newly_propagated_edge = if is_left {
                        self.edges[e].left_dual_node.is_none()
                    } else {
                        self.edges[e].right_dual_node.is_none()
                    };
                    if newly_propagated_edge {
                        count_newly_propagated_edge = count_newly_propagated_edge + 1;
                        let ghost s4 = *self;
                        self.push_updated_boundary(is_left, e);
                        proof {
                            Self::lemma_stable_trans(&start, &s4, self);
                        }
                        if self.edges[e].weight == 0 {
                            newly_propagated_edge_has_zero_weight = true;
                            proof {
                                zero_edge = e as int;
                            }
                        }
                        let ghost s5 = *self;
                        self.set_edge_side(e, is_left, Some(k), grandson);
                        proof {
                            Self::lemma_stable_trans(&start, &s5, self);
                        }
                    }
                    proof {
                        let ub0 = step.updated_boundary@;
                        assert(self.updated_boundary@ == ub0 || self.updated_boundary@ == ub0.push((is_left, e)));
                        assert forall|i: int|
                            start.updated_boundary@.len() <= i < self.updated_boundary@.len() implies exists|q: int|
                                0 <= q < p + 1 && start.incident_sides(
                                    (#[trigger] start.propagating_vertices@[q]).0 as int,
                                ).contains(#[trigger] self.updated_boundary@[i]) by {
                            if i < ub0.len() {
                                assert(self.updated_boundary@[i] == ub0[i]);
                            } else {
                                assert(self.updated_boundary@[i] == (is_left, e));
                                assert(start.vertex_wf(v as int));
                                assert(start.vertices@[v as int].edges@[t as int] == e);
                                assert(start.edges@[e as int].left == self.edges@[e as int].left);
                                assert(start.incident_sides(v as int)[t as int] == (is_left, e));
                                assert(start.incident_sides(start.propagating_vertices@[p as int].0 as int).contains(
                                    self.updated_boundary@[i],
                                ));
                            }
                        }
                        assert(self.updated_boundary@.take(start.updated_boundary@.len() as int)
                            =~= start.updated_boundary@) by {
                            assert(ub0.take(start.updated_boundary@.len() as int) == start.updated_boundary@);
                        }
                        assert(forall|f: int| 0 <= f < self.edges@.len() ==> #[trigger] self.edges@[f].weight == step.edges@[f].weight);
                        if newly_propagated_edge_has_zero_weight {
                            if self.updated_boundary@.len() > ub0.len() && self.edges@[e as int].weight == 0 {
                                let i = self.updated_boundary@.len() - 1;
                                assert(self.updated_boundary@[i] == (is_left, e));
                            } else {
                                let i = choose|i: int|
                                    start.updated_boundary@.len() <= i < ub0.len()
                                        && step.edges@[(#[trigger] ub0[i]).1 as int].weight == 0;
                                assert(self.updated_boundary@[i] == ub0[i]);
                            }
                        }
                        if exists|i: int|
                            start.updated_boundary@.len() <= i < self.updated_boundary@.len()
                                && self.edges@[(#[trigger] self.updated_boundary@[i]).1 as int].weight == 0 {
                            let i = choose|i: int|
                                start.updated_boundary@.len() <= i < self.updated_boundary@.len()
                                    && self.edges@[(#[trigger] self.updated_boundary@[i]).1 as int].weight == 0;
                            if i < ub0.len() {
                                assert(self.updated_boundary@[i] == ub0[i]);
                            }
                        }
                        assert(start.vertices@[v as int].edges@[t as int] == e);
                        assert forall|f: int|
                            0 <= f < self.edges@.len() && f != e implies self.edges@[f] == step.edges@[f] by {}
                        if start.grow_zero_witness(p as int, t as int) {
                            if forall|t2: int| 0 <= t2 < t ==> #[trigger] start.vertices@[v as int].edges@[t2] != e {
                                assert(step.edges@[e as int] == inner.edges@[e as int]);
                                assert(!start.reached_before(p as int, e as int));
                                assert(outer.edges@[e as int] == start.edges@[e as int]);
                                assert(step.edges@[e as int] == start.edges@[e as int]);
                                assert(step.active_timestamp == start.active_timestamp);
                                assert(cleared_e.edge_node(e as int, is_left) == step.edge_node(e as int, is_left));
                                assert(is_left == (start.edges@[e as int].left == v));
                                assert(step.edge_node(e as int, is_left) == start.edge_node(e as int, is_left));
                                assert(newly_propagated_edge);
                            } else {
                                let t2 = choose|t2: int| 0 <= t2 < t && #[trigger] start.vertices@[v as int].edges@[t2] == e;
                                assert(start.grow_zero_witness(p as int, t2));
                            }
                        }
                    }
                    proof {
                        let free = start.free_sides();
                        let cs0 = claim_sides(free, ps.1, inc.take(t as int));
                        assert(inc.take(t + 1).drop_last() =~= inc.take(t as int));
                        assert(inc.take(t + 1).last() == inc[t as int]);
                        assert(start.vertex_wf(v as int));
                        assert(start.edges@[e as int].left == self.edges@[e as int].left);
                        assert(inc[t as int] == (is_left, e));
                        assert(step.edge_node(e as int, is_left) == (if cs0.0.contains((is_left, e)) {
                            Some(k)
                        } else {
                            start.edge_node(e as int, is_left)
                        }));
                        assert(cleared_e.edge_node(e as int, is_left) == step.edge_node(e as int, is_left));
                        assert(newly_propagated_edge == (free((is_left, e)) && !cs0.0.contains((is_left, e))));
                        let cs1 = claim_sides(free, ps.1, inc.take(t + 1));
                        if newly_propagated_edge {
                            assert(cs1 == (cs0.0.insert((is_left, e)), cs0.1.push((is_left, e))));
                            assert(self.updated_boundary@ =~= start.updated_boundary@ + ps.2 + cs1.1);
                        } else {
                            assert(cs1 == cs0);
                        }
                        assert forall|f: int, side: bool| 0 <= f < self.edges@.len() implies #[trigger] self.edge_node(f, side) == (if cs1.0.contains((side, f as usize)) {
                            Some(k)
                        } else {
                            start.edge_node(f, side)
                        }) by {
                            assert(step.edge_node(f, side) == (if cs0.0.contains((side, f as usize)) {
                                Some(k)
                            } else {
                                start.edge_node(f, side)
                            }));
                            assert(self.active_timestamp == step.active_timestamp);
                            if f != e as int {
                                assert(self.edges@[f] == step.edges@[f]);
                                assert(self.edges@.len() == self.edges.len());
                                assert((side, f as usize) != (is_left, e));
                            } else if side != is_left {
                                assert(self.edge_node(f, side) == cleared_e.edge_node(f, side));
                                assert(cleared_e.edge_node(f, side) == step.edge_node(f, side));
                            } else if newly_propagated_edge {
                                assert(self.edge_node(f, side) == Some(k));
                            } else {
                                assert(self.edge_node(f, side) == cleared_e.edge_node(f, side));
                            }
                        }
                        assert forall|u: int| 0 <= u < self.vertices@.len() implies #[trigger] self.vertex_node(u) == step.vertex_node(u) by {}
                    }
                    t = t + 1;
                }
                proof {
                    assert(inc.take(m as int) =~= inc);
                    took_v = true;
                    claimed = claim_sides(start.free_sides(), ps.1, inc);
                    after_inner = *self;
                }
                if count_newly_propagated_edge == 0 {
                    let ghost s6 = *self;
                    self.push_overgrown(k, v);
                    proof {
                        Self::lemma_stable_trans(&start, &s6, self);
                    }
                }
            }
            proof {
                let ps1 = start.grow_propagation(p + 1);
                if took_v {
                    assert(ps1 == (ps.0.insert(v), claimed.0, ps.2 + claimed.1));
                    assert(self.updated_boundary@ =~= start.updated_boundary@ + ps1.2);
                } else {
                    assert(ps1 == ps);
                    assert(self.updated_boundary@ == outer.updated_boundary@);
                }
                assert forall|u: int| 0 <= u < self.vertices@.len() implies #[trigger] self.vertex_node(u) == (if ps1.0.contains(u as usize) {
                    Some(k)
                } else {
                    start.vertex_node(u)
                }) by {
                    if !took_v {
                        assert(self.vertex_node(u) == taken.vertex_node(u));
                        assert(taken.vertex_node(u) == outer.vertex_node(u));
                    } else {
                        assert(self.vertices@ == after_inner.vertices@);
                        assert(self.active_timestamp == after_inner.active_timestamp);
                        assert(self.vertex_node(u) == after_inner.vertex_node(u));
                        assert(after_inner.vertex_node(u) == (if ps.0.insert(v).contains(u as usize) {
                            Some(k)
                        } else {
                            start.vertex_node(u)
                        }));
                    }
                }
                assert forall|f: int, side: bool| 0 <= f < self.edges@.len() implies #[trigger] self.edge_node(f, side) == (if ps1.1.contains((side, f as usize)) {
                    Some(k)
                } else {
                    start.edge_node(f, side)
                }) by {
                    if !took_v {
                        assert(self.edge_node(f, side) == outer.edge_node(f, side));
                    } else {
                        assert(self.edges@ == after_inner.edges@);
                        assert(self.active_timestamp == after_inner.active_timestamp);
                        assert(self.edge_node(f, side) == after_inner.edge_node(f, side));
                        assert(after_inner.edge_node(f, side) == (if claimed.0.contains((side, f as usize)) {
                            Some(k)
                        } else {
                            start.edge_node(f, side)
                        }));
                    }
                }
            }
            proof {
                assert(self.propagating_vertices@ == start.propagating_vertices@);
                assert forall|f: int|
                    0 <= f < self.edges@.len() && !#[trigger] start.reached_before(p + 1, f) implies self.edges@[f]
                        == start.edges@[f] by {
                    assert(!start.reached_before(p as int, f));
                    assert forall|t2: int| 0 <= t2 < start.vertices@[v as int].edges@.len() implies
                        #[trigger] start.vertices@[v as int].edges@[t2] != f by {
                        if start.vertices@[v as int].edges@[t2] == f {
                            assert(start.vertices@[start.propagating_vertices@[p as int].0 as int].edges@[t2] as int == f);
                            assert(start.reached_before(p + 1, f));
                        }
                    }
                    assert(outer.edges@[f] == start.edges@[f]);
                }
                assert forall|u: int|
                    0 <= u < self.vertices@.len() && (forall|q: int|
                        0 <= q < p + 1 ==> #[trigger] start.propagating_vertices@[q].0 != u) implies #[trigger] self.vertices@[u]
                        == start.vertices@[u] by {
                    assert(start.propagating_vertices@[p as int].0 != u);
                    assert forall|q: int| 0 <= q < p implies #[trigger] start.propagating_vertices@[q].0 != u by {}
                }
                assert forall|q: int| 0 <= q < p + 1 implies self.vertex_node(#[trigger] self.propagating_vertices@[q].0 as int) is Some by {
                    if q < p {
                        assert(outer.vertex_node(outer.propagating_vertices@[q].0 as int) is Some);
                    }
                }
                assert forall|q: int, t: int| 0 <= q < p + 1 && #[trigger] start.grow_zero_witness(q, t)
                    implies newly_propagated_edge_has_zero_weight by {
                    if q == p {
                        assert(taken.vertices@[v as int].propagated_dual_node is None);
                    }
                }
            }
            p = p + 1;
        }
        proof {
            assert forall|i: int|
                0 <= i < self.propagating_vertices@.len() implies self.vertex_node(
                    #[trigger] self.propagating_vertices@[i].0 as int,
                ) is Some by {}
        }
        newly_propagated_edge_has_zero_weight
    }
}


impl DualModuleSerial {
    /// the deduplication mark of one side of edge `e`
    fn dedup_mark(&self, e: usize, first: bool) -> (r: usize)
        requires
            e < self.edges@.len(),
        ensures
            r == (if first {
                self.edges@[e as int].dedup_timestamp.0
            } else {
                self.edges@[e as int].dedup_timestamp.1
            }),
    {
        if first {
            self.edges[e].dedup_timestamp.0
        } else {
            self.edges[e].dedup_timestamp.1
        }
    }

    /// put `(is_left, e)` in the boundary being built unless it is already there in this round
    fn push_boundary_dedup(&mut self, is_left: bool, e: usize)
        requires
            old(self).wf(),
            e < old(self).edges@.len(),
        ensures
            final(self).wf(),
            final(self).stable(old(self)),
            final(self).vertices@ == old(self).vertices@,
            final(self).nodes@ == old(self).nodes@,
            final(self).active_list@ == old(self).active_list@,
            final(self).sync_requests@ == old(self).sync_requests@,
            final(self).propagating_vertices@ == old(self).propagating_vertices@,
            final(self).edge_dedup_timestamp == old(self).edge_dedup_timestamp,
            final(self).current_cycle == old(self).current_cycle,
            ({
                let mark = if is_left {
                    old(self).edges@[e as int].dedup_timestamp.0
                } else {
                    old(self).edges@[e as int].dedup_timestamp.1
                };
                &&& mark != old(self).edge_dedup_timestamp ==> final(self).updated_boundary@
                    == old(self).updated_boundary@.push((is_left, e))
                &&& mark == old(self).edge_dedup_timestamp ==> final(self).updated_boundary@
                    == old(self).updated_boundary@
            }),
            is_left ==> final(self).edges@[e as int].dedup_timestamp.0 == old(self).edge_dedup_timestamp,
            !is_left ==> final(self).edges@[e as int].dedup_timestamp.1 == old(self).edge_dedup_timestamp,
            final(self).edges@[e as int].timestamp == old(self).edges@[e as int].timestamp,
            is_left ==> final(self).edges@[e as int].dedup_timestamp.1 == old(self).edges@[e as int].dedup_timestamp.1,
            !is_left ==> final(self).edges@[e as int].dedup_timestamp.0 == old(self).edges@[e as int].dedup_timestamp.0,
            old(self).dedup_mark_of(e as int, is_left) == old(self).edge_dedup_timestamp ==> final(self).edges@
                == old(self).edges@,
            forall|f: int|
                0 <= f < final(self).edges@.len() && f != e ==> #[trigger] final(self).edges@[f] == old(self).edges@[f],
    {
        let ghost start = *self;
        if self.dedup_mark(e, is_left) != self.edge_dedup_timestamp {
            let timestamp = self.edge_dedup_timestamp;
            self.set_edge_dedup(e, is_left, timestamp);
            let ghost s1 = *self;
            self.push_updated_boundary(is_left, e);
            proof {
                Self::lemma_stable_trans(&start, &s1, self);
            }
        }
    }

    /// vertex `v` leaves its propagated node: its edges no longer belong to it on the side of `v`,
    /// and their other sides join the boundary being built; with `only_shared`, only the fully
    /// grown edges that node `k` holds on both sides do, and the result tells whether one of them
    /// weighs nothing
    fn vacate_vertex_edges(&mut self, v: usize, k: usize, only_shared: bool) -> (r: bool)
        requires
            old(self).wf(),
            v < old(self).vertices@.len(),
            k < old(self).nodes@.len(),
        ensures
            final(self).wf(),
            final(self).stable(old(self)),
            final(self).nodes@ == old(self).nodes@,
            final(self).active_list@ == old(self).active_list@,
            final(self).sync_requests@ == old(self).sync_requests@,
            final(self).propagating_vertices@ == old(self).propagating_vertices@,
            final(self).edge_dedup_timestamp == old(self).edge_dedup_timestamp,
            final(self).current_cycle == old(self).current_cycle,
            r ==> exists|e: int| 0 <= e < final(self).edges@.len() && final(self).edges@[e].weight == 0,
            !only_shared ==> !r,
            only_shared && (exists|t: int|
                0 <= t < old(self).vertices@[v as int].edges@.len() && #[trigger] old(self).shared_zero_edge(
                    old(self).vertices@[v as int].edges@[t] as int,
                    k as int,
                )) ==> r,
            final(self).vertices@ == old(self).vertices@,
            final(self).updated_boundary@.len() >= old(self).updated_boundary@.len(),
            final(self).updated_boundary@.take(old(self).updated_boundary@.len() as int) == old(self).updated_boundary@,
            forall|i: int|
                old(self).updated_boundary@.len() <= i < final(self).updated_boundary@.len()
                    ==> old(self).vertices@[v as int].edges@.contains((#[trigger] final(self).updated_boundary@[i]).1),
            forall|f: int|
                0 <= f < final(self).edges@.len() && (forall|t: int|
                    0 <= t < old(self).vertices@[v as int].edges@.len() ==> #[trigger] old(
                        self,
                    ).vertices@[v as int].edges@[t] != f) ==> #[trigger] final(self).edges@[f] == old(self).edges@[f],
    {
        let ghost start = *self;
        let mut zero = false;
        let ghost mut zero_edge: int = 0;
        assert(self.vertex_wf(v as int));
        let m = self.vertices[v].edges.len();
        let mut t: usize = 0;
        while t < m
            invariant
                self.wf(),
                start.wf(),
                self.stable(&start),
                self.nodes@ == start.nodes@,
                self.active_list@ == start.active_list@,
                self.sync_requests@ == start.sync_requests@,
                self.propagating_vertices@ == start.propagating_vertices@,
                self.edge_dedup_timestamp == start.edge_dedup_timestamp,
                self.current_cycle == start.current_cycle,
                k < self.nodes@.len(),
                v < self.vertices@.len(),
                m == self.vertices@[v as int].edges@.len(),
                t <= m,
                zero ==> 0 <= zero_edge < self.edges@.len() && self.edges@[zero_edge].weight == 0,
                !only_shared ==> !zero,
                self.vertices@ == start.vertices@,
                self.updated_boundary@.len() >= start.updated_boundary@.len(),
                self.updated_boundary@.take(start.updated_boundary@.len() as int) == start.updated_boundary@,
                forall|i: int|
                    start.updated_boundary@.len() <= i < self.updated_boundary@.len()
                        ==> start.vertices@[v as int].edges@.contains((#[trigger] self.updated_boundary@[i]).1),
                forall|t2: int|
                    0 <= t2 < t && #[trigger] start.shared_zero_edge(
                        start.vertices@[v as int].edges@[t2] as int,
                        k as int,
                    ) && only_shared ==> zero,
                forall|f: int|
                    0 <= f < self.edges@.len() && (forall|t2: int|
                        0 <= t2 < t ==> #[trigger] start.vertices@[v as int].edges@[t2] != f) ==> self.edges@[f]
                        == start.edges@[f],
            decreases m - t,
        {
            let ghost before = *self;
            proof {
                assert(self.vertex_wf(v as int));
            }
            let e = self.vertices[v].edges[t];
            let ghost s0 = *self;
            self.dynamic_clear_edge(e);
            proof {
                Self::lemma_stable_trans(&start, &s0, self);
                assert(self.edge_wf(e as int));
            }
            let is_left = self.edges[e].left == v;
            let reopen = if only_shared {
                // fully grown edge is where to shrink
                self.edges[e].left_dual_node == Some(k) && self.edges[e].right_dual_node == Some(k)
                    && self.edges[e].left_growth + self.edges[e].right_growth >= self.edges[e].weight
            } else {
                true
            };
            if only_shared && reopen && self.edges[e].weight == 0 {
                zero = true;
                proof {
                    zero_edge = e as int;
                }
            }
            let ghost s1 = *self;
            self.set_edge_side(e, is_left, None, None);
            proof {
                Self::lemma_stable_trans(&start, &s1, self);
            }
            if reopen {
                // boundary has the opposite end
                let ghost s2 = *self;
                self.push_boundary_dedup(!is_left, e);
                proof {
                    Self::lemma_stable_trans(&start, &s2, self);
                }
            }
            proof {
                let ub0 = before.updated_boundary@;
                assert(self.updated_boundary@ == ub0 || self.updated_boundary@ == ub0.push((!is_left, e)));
                assert(self.updated_boundary@.take(start.updated_boundary@.len() as int) =~= start.updated_boundary@) by {
                    assert(ub0.take(start.updated_boundary@.len() as int) == start.updated_boundary@);
                }
                assert(self.vertices@[v as int].edges@[t as int] == e);
                assert(start.vertex_wf(v as int));
                assert forall|i: int|
                    start.updated_boundary@.len() <= i < self.updated_boundary@.len()
                        implies start.vertices@[v as int].edges@.contains((#[trigger] self.updated_boundary@[i]).1) by {
                    if i < ub0.len() {
                        assert(self.updated_boundary@[i] == ub0[i]);
                    } else {
                        assert(start.vertices@[v as int].edges@[t as int] == e);
                    }
                }
                if only_shared && start.shared_zero_edge(e as int, k as int) {
                    let tt = t as int;
                    if forall|t2: int| 0 <= t2 < tt ==> #[trigger] start.vertices@[v as int].edges@[t2] != e {
                        assert(before.edges@[e as int] == start.edges@[e as int]);
                        assert(zero);
                    } else {
                        let t2 = choose|t2: int| 0 <= t2 < tt && #[trigger] start.vertices@[v as int].edges@[t2] == e;
                        assert(start.shared_zero_edge(start.vertices@[v as int].edges@[t2] as int, k as int));
                    }
                }
                assert forall|f: int|
                    0 <= f < self.edges@.len() && (forall|t2: int|
                        0 <= t2 < t + 1 ==> #[trigger] start.vertices@[v as int].edges@[t2] != f) implies self.edges@[f]
                        == start.edges@[f] by {
                    assert(start.vertices@[v as int].edges@[t as int] != f);
                    assert(self.edges@[f] == before.edges@[f]);
                    assert forall|t2: int| 0 <= t2 < t implies #[trigger] start.vertices@[v as int].edges@[t2] != f by {
                    }
                }
            }
            t = t + 1;
        }
        zero
    }

    /// side `side` lies on an edge of one of the vertices `vs`
    pub open spec fn side_at_vertices(&self, side: (bool, EdgeIndex), vs: Seq<usize>) -> bool {
        exists|j: int| 0 <= j < vs.len() && #[trigger] self.vertices@[vs[j] as int].edges@.contains(side.1)
    }

    /// the vertices of the entries of an over-grown stack
    pub open spec fn stack_vertices(stack: Seq<(VertexIndex, Weight)>) -> Seq<usize> {
        stack.map_values(|p: (VertexIndex, Weight)| p.0)
    }

    /// shrinking: internal node `k` gives up the vertices at the top of its over-grown stack that
    /// are no longer over-grown, whose edges join the boundary again
    fn prepare_shrink_overgrown(&mut self, interface: &DualModuleInterface, k: usize)
        requires
            old(self).wf(),
            interface.wf(),
            k < old(self).nodes@.len(),
            old(self).nodes@[k as int] is Some,
        ensures
            final(self).wf(),
            final(self).stable(old(self)),
            final(self).boundary_of(k as int) == old(self).boundary_of(k as int),
            final(self).edge_dedup_timestamp == old(self).edge_dedup_timestamp,
            final(self).nodes@[k as int] is Some,
            final(self).propagating_vertices@ == old(self).propagating_vertices@,
            forall|x: int| 0 <= x < final(self).nodes@.len() && x != k ==> #[trigger] final(self).nodes@[x] == old(self).nodes@[x],
            final(self).updated_boundary@.len() >= old(self).updated_boundary@.len(),
            final(self).updated_boundary@.take(old(self).updated_boundary@.len() as int) == old(self).updated_boundary@,
            forall|i: int|
                old(self).updated_boundary@.len() <= i < final(self).updated_boundary@.len() ==> old(self).side_at_vertices(
                    #[trigger] final(self).updated_boundary@[i],
                    Self::stack_vertices(
                        old(self).nodes@[k as int]->Some_0.overgrown_stack@.skip(
                            final(self).nodes@[k as int]->Some_0.overgrown_stack@.len() as int,
                        ),
                    ),
                ),
            ({
                let st0 = old(self).nodes@[k as int]->Some_0.overgrown_stack@;
                let st1 = final(self).nodes@[k as int]->Some_0.overgrown_stack@;
                &&& st1.len() <= st0.len()
                &&& st1 == st0.take(st1.len() as int)
                &&& forall|i: int| st1.len() <= i < st0.len() ==> (#[trigger] st0[i]).1 == 0
                &&& st1.len() > 0 ==> st1.last().1 != 0
            }),
    {
        let ghost start = *self;
        let ghost st0 = start.nodes@[k as int]->Some_0.overgrown_stack@;
        loop
            invariant
                self.wf(),
                interface.wf(),
                start.wf(),
                self.stable(&start),
                k < self.nodes@.len(),
                self.nodes@[k as int] is Some,
                self.boundary_of(k as int) == start.boundary_of(k as int),
                self.edge_dedup_timestamp == start.edge_dedup_timestamp,
                st0 == start.nodes@[k as int]->Some_0.overgrown_stack@,
                forall|i: int|
                    start.updated_boundary@.len() <= i < self.updated_boundary@.len() ==> start.side_at_vertices(
                        #[trigger] self.updated_boundary@[i],
                        Self::stack_vertices(st0.skip(self.nodes@[k as int]->Some_0.overgrown_stack@.len() as int)),
                    ),
                self.updated_boundary@.len() >= start.updated_boundary@.len(),
                self.updated_boundary@.take(start.updated_boundary@.len() as int) == start.updated_boundary@,
                self.propagating_vertices@ == start.propagating_vertices@,
                forall|x: int| 0 <= x < self.nodes@.len() && x != k ==> #[trigger] self.nodes@[x] == start.nodes@[x],
                self.nodes@[k as int]->Some_0.overgrown_stack@.len() <= st0.len(),
                self.nodes@[k as int]->Some_0.overgrown_stack@ == st0.take(
                    self.nodes@[k as int]->Some_0.overgrown_stack@.len() as int,
                ),
                forall|i: int|
                    self.nodes@[k as int]->Some_0.overgrown_stack@.len() <= i < st0.len() ==> (#[trigger] st0[i]).1
                        == 0,
            ensures
                self.wf(),
                self.stable(&start),
                self.propagating_vertices@ == start.propagating_vertices@,
                forall|x: int| 0 <= x < self.nodes@.len() && x != k ==> #[trigger] self.nodes@[x] == start.nodes@[x],
                self.nodes@[k as int] is Some,
                self.boundary_of(k as int) == start.boundary_of(k as int),
                forall|i: int|
                    start.updated_boundary@.len() <= i < self.updated_boundary@.len() ==> start.side_at_vertices(
                        #[trigger] self.updated_boundary@[i],
                        Self::stack_vertices(st0.skip(self.nodes@[k as int]->Some_0.overgrown_stack@.len() as int)),
                    ),
                self.updated_boundary@.len() >= start.updated_boundary@.len(),
                self.updated_boundary@.take(start.updated_boundary@.len() as int) == start.updated_boundary@,
                self.edge_dedup_timestamp == start.edge_dedup_timestamp,
                self.nodes@[k as int]->Some_0.overgrown_stack@.len() <= st0.len(),
                self.nodes@[k as int]->Some_0.overgrown_stack@ == st0.take(
                    self.nodes@[k as int]->Some_0.overgrown_stack@.len() as int,
                ),
                forall|i: int|
                    self.nodes@[k as int]->Some_0.overgrown_stack@.len() <= i < st0.len() ==> (#[trigger] st0[i]).1
                        == 0,
                self.nodes@[k as int]->Some_0.overgrown_stack@.len() > 0 ==> self.nodes@[k as int]->Some_0.overgrown_stack@.last().1 != 0,
            decreases self.nodes@[k as int]->Some_0.overgrown_stack@.len(),
        {
            let ghost top = *self;
            let last = self.last_overgrown(k);
            let (v, overgrown) = match last {
                None => {
                    break ;
                },
                Some(x) => x,
            };
            if overgrown != 0 {
                break ;  // found non-negative overgrown in the stack
            }
            let ghost s0 = *self;
            self.pop_overgrown(k);
            proof {
                Self::lemma_stable_trans(&start, &s0, self);
            }
            let ghost s1 = *self;
            self.dynamic_clear_vertex(v);
            proof {
                Self::lemma_stable_trans(&start, &s1, self);
            }
            if self.vertices[v].propagated_dual_node == Some(k) {
                let ghost s2 = *self;
                self.set_vertex_propagation(v, None, None);
                proof {
                    Self::lemma_stable_trans(&start, &s2, self);
                }
                let ghost s3 = *self;
                self.sync_vertex(interface, v);
                proof {
                    Self::lemma_stable_trans(&start, &s3, self);
                }
                let ghost s4 = *self;
                self.vacate_vertex_edges(v, k, false);
                proof {
                    Self::lemma_stable_trans(&start, &s4, self);
                }
            }
            proof {
                let len0 = top.nodes@[k as int]->Some_0.overgrown_stack@.len() as int;
                let len1 = self.nodes@[k as int]->Some_0.overgrown_stack@.len() as int;
                assert(len1 == len0 - 1);
                assert(st0[len1] == top.nodes@[k as int]->Some_0.overgrown_stack@[len1]);
                assert(st0[len1].0 == v);
                let vs0 = Self::stack_vertices(st0.skip(len0));
                let vs1 = Self::stack_vertices(st0.skip(len1));
                assert(vs1[0] == v);
                assert forall|j: int| 0 <= j < vs0.len() implies vs1[j + 1] == vs0[j] by {}
                assert forall|i: int|
                    start.updated_boundary@.len() <= i < self.updated_boundary@.len() implies start.side_at_vertices(
                        #[trigger] self.updated_boundary@[i],
                        vs1,
                    ) by {
                    if i < top.updated_boundary@.len() {
                        assert(self.updated_boundary@[i] == top.updated_boundary@[i]);
                        assert(start.side_at_vertices(top.updated_boundary@[i], vs0));
                        let j = choose|j: int| 0 <= j < vs0.len() && #[trigger] start.vertices@[vs0[j] as int].edges@.contains(
                            top.updated_boundary@[i].1,
                        );
                        assert(start.vertices@[vs1[j + 1] as int].edges@.contains(self.updated_boundary@[i].1));
                    } else {
                        assert(top.vertices@[v as int].edges@.contains(self.updated_boundary@[i].1));
                        assert(top.vertices@[v as int].edges == start.vertices@[v as int].edges);
                        assert(start.vertices@[vs1[0] as int].edges@.contains(self.updated_boundary@[i].1));
                    }
                }
                assert(self.updated_boundary@.take(start.updated_boundary@.len() as int) =~= start.updated_boundary@) by {
                    assert(top.updated_boundary@.take(start.updated_boundary@.len() as int) == start.updated_boundary@);
                }
            }
        }
    }

    /// shrinking: keep the boundary edges of internal node `k` that still have growth on its
    /// side or start at a defect vertex, and remember the vertices behind the others to leave
    fn prepare_shrink_boundary(&mut self, k: usize)
        requires
            old(self).wf(),
            k < old(self).nodes@.len(),
            old(self).nodes@[k as int] is Some,
        ensures
            final(self).wf(),
            final(self).stable(old(self)),
            final(self).nodes@ == old(self).nodes@,
            final(self).edge_dedup_timestamp == old(self).edge_dedup_timestamp,
            final(self).updated_boundary@.len() - old(self).updated_boundary@.len()
                + final(self).propagating_vertices@.len() - old(self).propagating_vertices@.len()
                <= old(self).boundary_of(k as int).len(),
            final(self).updated_boundary@.len() >= old(self).updated_boundary@.len(),
            final(self).updated_boundary@.take(old(self).updated_boundary@.len() as int)
                == old(self).updated_boundary@,
            final(self).propagating_vertices@.len() >= old(self).propagating_vertices@.len(),
            final(self).propagating_vertices@.take(old(self).propagating_vertices@.len() as int)
                == old(self).propagating_vertices@,
            forall|i: int|
                old(self).updated_boundary@.len() <= i < final(self).updated_boundary@.len()
                    ==> old(self).boundary_of(k as int).contains(#[trigger] final(self).updated_boundary@[i]),
            forall|j: int|
                0 <= j < old(self).boundary_of(k as int).len() ==> {
                    let (is_left, e) = #[trigger] old(self).boundary_of(k as int)[j];
                    ||| final(self).dedup_mark_of(e as int, is_left) == final(self).edge_dedup_timestamp
                    ||| final(self).propagating_vertices@.skip(old(self).propagating_vertices@.len() as int).contains(
                        (final(self).side_vertex(e as int, is_left), None::<usize>),
                    )
                },
    {
        let ghost start = *self;
        let n = self.boundary_len(k);
        let mut j: usize = 0;
        while j < n
            invariant
                self.wf(),
                start.wf(),
                self.stable(&start),
                self.nodes@ == start.nodes@,
                self.edge_dedup_timestamp == start.edge_dedup_timestamp,
                k < self.nodes@.len(),
                self.nodes@[k as int] is Some,
                n == self.boundary_of(k as int).len(),
                j <= n,
                self.updated_boundary@.len() - start.updated_boundary@.len()
                    + self.propagating_vertices@.len() - start.propagating_vertices@.len() <= j,
                self.updated_boundary@.len() >= start.updated_boundary@.len(),
                self.updated_boundary@.take(start.updated_boundary@.len() as int) == start.updated_boundary@,
                self.propagating_vertices@.len() >= start.propagating_vertices@.len(),
                self.propagating_vertices@.take(start.propagating_vertices@.len() as int)
                    == start.propagating_vertices@,
                forall|i: int|
                    start.updated_boundary@.len() <= i < self.updated_boundary@.len()
                        ==> start.boundary_of(k as int).contains(#[trigger] self.updated_boundary@[i]),
                forall|jj: int|
                    0 <= jj < j ==> {
                        let (is_left, e) = #[trigger] start.boundary_of(k as int)[jj];
                        &&& self.edges@[e as int].timestamp == self.active_timestamp
                        &&& (self.dedup_mark_of(e as int, is_left) == self.edge_dedup_timestamp
                            || self.propagating_vertices@.skip(start.propagating_vertices@.len() as int).contains(
                            (self.side_vertex(e as int, is_left), None::<usize>),
                        ))
                    },
            decreases n - j,
        {
            let ghost ub = self.updated_boundary@;
            let ghost pv = self.propagating_vertices@;
            let ghost before = *self;
            let (is_left, e) = self.boundary_entry(k, j);
            let ghost s0 = *self;
            self.dynamic_clear_edge(e);
            proof {
                Self::lemma_stable_trans(&start, &s0, self);
                assert(self.edge_wf(e as int));
            }
            let ghost mid = *self;
            let ghost mut deduped = false;
            let this_growth = if is_left {
                self.edges[e].left_growth
            } else {
                self.edges[e].right_growth
            };
            if this_growth == 0 {
                // need to shrink before this vertex
                let this_vertex = if is_left {
                    self.edges[e].left
                } else {
                    self.edges[e].right
                };
                let ghost s1 = *self;
                self.dynamic_clear_vertex(this_vertex);
                proof {
                    Self::lemma_stable_trans(&start, &s1, self);
                }
                if self.vertices[this_vertex].is_defect {
                    // never shrink from the syndrome itself
                    let ghost s2 = *self;
                    self.push_boundary_dedup(is_left, e);
                    proof {
                        Self::lemma_stable_trans(&start, &s2, self);
                        deduped = true;
                    }
                } else {
                    let ghost s2 = *self;
                    self.push_propagating(this_vertex, None);
                    proof {
                        Self::lemma_stable_trans(&start, &s2, self);
                    }
                }
            } else {
                // keep other edges
                let ghost s2 = *self;
                self.push_boundary_dedup(is_left, e);
                proof {
                    Self::lemma_stable_trans(&start, &s2, self);
                    deduped = true;
                }
            }
            proof {
                assert forall|f: int| 0 <= f < self.edges@.len() && f != e implies self.edges@[f] == before.edges@[f] by {
                    assert(mid.edges@[f] == before.edges@[f]);
                }
                assert(before.edges@[e as int].timestamp == before.active_timestamp ==> mid.edges@ == before.edges@);
                assert(self.edges@[e as int].timestamp == self.active_timestamp);
                assert(deduped ==> self.dedup_mark_of(e as int, is_left) == self.edge_dedup_timestamp);
                assert(self.dedup_mark_of(e as int, !is_left) == mid.dedup_mark_of(e as int, !is_left));
                assert(!deduped ==> self.edges@[e as int] == mid.edges@[e as int]);
                assert(!deduped ==> self.propagating_vertices@ == pv.push((mid.side_vertex(e as int, is_left), None::<usize>)));
                let p0 = start.propagating_vertices@.len() as int;
                assert(start.boundary_of(k as int)[j as int] == (is_left, e));
                assert(ub.take(start.updated_boundary@.len() as int) == start.updated_boundary@);
                assert(pv.take(p0) == start.propagating_vertices@);
                assert(self.updated_boundary@.take(start.updated_boundary@.len() as int)
                    =~= start.updated_boundary@);
                assert(self.propagating_vertices@.take(p0) =~= start.propagating_vertices@);
                assert forall|i: int|
                    start.updated_boundary@.len() <= i < self.updated_boundary@.len()
                        implies start.boundary_of(k as int).contains(#[trigger] self.updated_boundary@[i]) by {
                    if i < ub.len() {
                        assert(self.updated_boundary@[i] == ub[i]);
                    }
                }
                assert forall|jj: int|
                    0 <= jj <= j implies {
                        let (is_left, e) = #[trigger] start.boundary_of(k as int)[jj];
                        &&& self.edges@[e as int].timestamp == self.active_timestamp
                        &&& (self.dedup_mark_of(e as int, is_left) == self.edge_dedup_timestamp
                            || self.propagating_vertices@.skip(p0).contains(
                            (self.side_vertex(e as int, is_left), None::<usize>),
                        ))
                    } by {
                    let (l2, e2) = start.boundary_of(k as int)[jj];
                    if !deduped {
                        assert(self.propagating_vertices@.skip(p0).last() == self.propagating_vertices@.last());
                        assert(self.side_vertex(e as int, is_left) == mid.side_vertex(e as int, is_left));
                    }
                    if jj < j {
                        assert(start.node_wf(k as int));
                        assert(start.boundary_of(k as int)[jj] == (l2, e2));
                        assert(e2 < start.edges@.len());
                        assert(before.edges@[e2 as int].timestamp == before.active_timestamp);
                        assert(self.side_vertex(e2 as int, l2) == before.side_vertex(e2 as int, l2));
                        if e2 != e {
                            assert(self.edges@[e2 as int] == before.edges@[e2 as int]);
                        } else if l2 != is_left || !deduped {
                            assert(self.dedup_mark_of(e2 as int, l2) == before.dedup_mark_of(e2 as int, l2));
                        }
                    }
                    if jj < j && before.propagating_vertices@.skip(p0).contains(
                        (before.side_vertex(e2 as int, l2), None::<usize>)) {
                        let q = choose|q: int| 0 <= q < before.propagating_vertices@.skip(p0).len()
                            && before.propagating_vertices@.skip(p0)[q] == (before.side_vertex(e2 as int, l2), None::<usize>);
                        assert(self.propagating_vertices@.skip(p0)[q] == before.propagating_vertices@.skip(p0)[q]);
                    }
                }
            }
            j = j + 1;
        }
    }

    /// shrinking: the remembered vertices leave their propagated node; an edge fully grown by
    /// internal node `k` from both sides joins the boundary again from its other side
    fn prepare_shrink_propagate(&mut self, interface: &DualModuleInterface, k: usize) -> (r: bool)
        requires
            old(self).wf(),
            interface.wf(),
            k < old(self).nodes@.len(),
            old(self).nodes@[k as int] is Some,
        ensures
            final(self).wf(),
            final(self).stable(old(self)),
            r ==> exists|e: int| 0 <= e < final(self).edges@.len() && final(self).edges@[e].weight == 0,
            (exists|p: int, t: int|
                0 <= p < old(self).propagating_vertices@.len() && 0 <= t < old(self).vertices@[old(
                    self,
                ).propagating_vertices@[p].0 as int].edges@.len() && old(self).vertices@[old(
                    self,
                ).propagating_vertices@[p].0 as int].timestamp == old(self).active_timestamp && old(
                    self,
                ).vertices@[old(self).propagating_vertices@[p].0 as int].propagated_dual_node is Some
                    && #[trigger] old(self).shared_zero_edge(
                    old(self).vertices@[old(self).propagating_vertices@[p].0 as int].edges@[t] as int,
                    k as int,
                )) ==> r,
            final(self).propagating_vertices@ == old(self).propagating_vertices@,
            final(self).nodes@ == old(self).nodes@,
            forall|i: int|
                0 <= i < final(self).propagating_vertices@.len() ==> final(self).vertex_node(
                    #[trigger] final(self).propagating_vertices@[i].0 as int,
                ) is None,
            final(self).updated_boundary@.len() >= old(self).updated_boundary@.len(),
            final(self).updated_boundary@.take(old(self).updated_boundary@.len() as int) == old(self).updated_boundary@,
            forall|i: int|
                old(self).updated_boundary@.len() <= i < final(self).updated_boundary@.len() ==> old(self).side_at_vertices(
                    #[trigger] final(self).updated_boundary@[i],
                    Self::target_vertices(old(self).propagating_vertices@),
                ),
    {
        let ghost start = *self;
        let mut newly_propagated_edge_has_zero_weight = false;
        let ghost mut zero_edge: int = 0;
        let n = self.propagating_vertices.len();
        let mut p: usize = 0;
        let ghost mut touched: Set<int> = Set::empty();
        while p < n
            invariant
                self.wf(),
                interface.wf(),
                start.wf(),
                self.stable(&start),
                k < self.nodes@.len(),
                self.nodes@[k as int] is Some,
                self.propagating_vertices@ == start.propagating_vertices@,
                n == self.propagating_vertices@.len(),
                p <= n,
                newly_propagated_edge_has_zero_weight ==> 0 <= zero_edge < self.edges@.len()
                    && self.edges@[zero_edge].weight == 0,
                self.active_timestamp == start.active_timestamp,
                self.nodes@ == start.nodes@,
                forall|q: int| 0 <= q < p ==> self.vertex_node(#[trigger] self.propagating_vertices@[q].0 as int) is None,
                self.updated_boundary@.len() >= start.updated_boundary@.len(),
                self.updated_boundary@.take(start.updated_boundary@.len() as int) == start.updated_boundary@,
                forall|i: int|
                    start.updated_boundary@.len() <= i < self.updated_boundary@.len() ==> start.side_at_vertices(
                        #[trigger] self.updated_boundary@[i],
                        Self::target_vertices(start.propagating_vertices@),
                    ),
                forall|f: int|
                    0 <= f < self.edges@.len() && !touched.contains(f) ==> #[trigger] self.edges@[f]
                        == start.edges@[f],
                forall|f: int|
                    #[trigger] touched.contains(f) && 0 <= f < start.edges@.len() && start.shared_zero_edge(
                        f,
                        k as int,
                    ) ==> newly_propagated_edge_has_zero_weight,
                forall|u: int|
                    0 <= u < self.vertices@.len() && (forall|q: int|
                        0 <= q < p ==> #[trigger] start.propagating_vertices@[q].0 != u) ==> #[trigger] self.vertices@[u]
                        == start.vertices@[u],
                forall|q: int, t: int|
                    0 <= q < p && 0 <= t < start.vertices@[start.propagating_vertices@[q].0 as int].edges@.len()
                        && start.vertices@[start.propagating_vertices@[q].0 as int].timestamp == start.active_timestamp
                        && start.vertices@[start.propagating_vertices@[q].0 as int].propagated_dual_node is Some
                        ==> touched.contains(
                        #[trigger] start.vertices@[start.propagating_vertices@[q].0 as int].edges@[t] as int,
                    ),
            decreases n - p,
        {
            let ghost before = *self;
            let ghost before_touched = touched;
            let (v, _) = self.propagating_vertices[p];
            let ghost s0 = *self;
            self.dynamic_clear_vertex(v);
            proof {
                Self::lemma_stable_trans(&start, &s0, self);
            }
            let ghost cleared = *self;
            let ghost flag_before = newly_propagated_edge_has_zero_weight;
            proof {
                assert(v == start.propagating_vertices@[p as int].0);
                // a vertex seen for the first time is as it was at the start
                if forall|q: int| 0 <= q < p ==> #[trigger] start.propagating_vertices@[q].0 != v {
                    assert(before.vertices@[v as int] == start.vertices@[v as int]);
                }
            }
            if self.vertices[v].propagated_dual_node.is_some() {
                let ghost s1 = *self;
                self.set_vertex_propagation(v, None, None);
                proof {
                    Self::lemma_stable_trans(&start, &s1, self);
                }
                // add to the sync list
                let ghost s2 = *self;
                self.sync_vertex(interface, v);
                proof {
                    Self::lemma_stable_trans(&start, &s2, self);
                }
                let ghost s3 = *self;
                let zero = self.vacate_vertex_edges(v, k, true);
                proof {
                    Self::lemma_stable_trans(&start, &s3, self);
                    touched = touched.union(
                        Set::new(
                            |f: int|
                                exists|t: int|
                                    0 <= t < s3.vertices@[v as int].edges@.len() && #[trigger] s3.vertices@[v as int].edges@[t]
                                        == f,
                        ),
                    );
                }
                if zero {
                    newly_propagated_edge_has_zero_weight = true;
                    proof {
                        zero_edge = choose|e: int|
                            0 <= e < self.edges@.len() && self.edges@[e].weight == 0;
                    }
                } else {
                    proof {
                        if newly_propagated_edge_has_zero_weight {
                            assert(self.edges@[zero_edge].weight == s3.edges@[zero_edge].weight);
                        }
                    }
                }
                proof {
                    assert(s3.edges@ == before.edges@);
                    assert(s3.vertices@[v as int].edges == start.vertices@[v as int].edges);
                    let tv = Self::target_vertices(start.propagating_vertices@);
                    assert(tv[p as int] == v);
                    assert forall|i: int|
                        start.updated_boundary@.len() <= i < self.updated_boundary@.len() implies start.side_at_vertices(
                            #[trigger] self.updated_boundary@[i],
                            tv,
                        ) by {
                        if i < s3.updated_boundary@.len() {
                            assert(self.updated_boundary@[i] == s3.updated_boundary@[i]);
                            assert(s3.updated_boundary@[i] == before.updated_boundary@[i]);
                        } else {
                            assert(s3.vertices@[v as int].edges@.contains(self.updated_boundary@[i].1));
                            assert(start.vertices@[tv[p as int] as int].edges@.contains(self.updated_boundary@[i].1));
                        }
                    }
                    assert forall|f: int|
                        0 <= f < self.edges@.len() && !touched.contains(f) implies #[trigger] self.edges@[f]
                            == start.edges@[f] by {
                        assert(!before_touched.contains(f));
                    }
                    assert forall|f: int|
                        #[trigger] touched.contains(f) && 0 <= f < start.edges@.len() && start.shared_zero_edge(
                            f,
                            k as int,
                        ) implies newly_propagated_edge_has_zero_weight by {
                        if !before_touched.contains(f) {
                            assert(s3.edges@[f] == start.edges@[f]);
                            assert(s3.shared_zero_edge(f, k as int));
                            let t = choose|t: int| 0 <= t < s3.vertices@[v as int].edges@.len()
                                && #[trigger] s3.vertices@[v as int].edges@[t] == f;
                            assert(s3.shared_zero_edge(s3.vertices@[v as int].edges@[t] as int, k as int));
                            assert(zero);
                        } else {
                            assert(flag_before);
                        }
                    }
                    assert forall|t: int|
                        0 <= t < start.vertices@[v as int].edges@.len() implies touched.contains(
                        #[trigger] start.vertices@[v as int].edges@[t] as int) by {
                        assert(start.vertex_wf(v as int));
                        assert(s3.vertices@[v as int].edges@[t] == start.vertices@[v as int].edges@[t]);
                        assert(s3.vertices@[v as int].edges@[t] == start.vertices@[v as int].edges@[t] as int);
                    }
                }
            } else {
                proof {
                    assert(self.edges@ == before.edges@);
                    if start.vertices@[v as int].timestamp == start.active_timestamp
                        && start.vertices@[v as int].propagated_dual_node is Some {
                        if forall|q: int| 0 <= q < p ==> #[trigger] start.propagating_vertices@[q].0 != v {
                            assert(false);
                        } else {
                            let q = choose|q: int| 0 <= q < p && #[trigger] start.propagating_vertices@[q].0 == v;
                            assert forall|t: int|
                                0 <= t < start.vertices@[v as int].edges@.len() implies touched.contains(
                                #[trigger] start.vertices@[v as int].edges@[t] as int) by {
                                assert(start.vertices@[start.propagating_vertices@[q].0 as int].edges@[t]
                                    == start.vertices@[v as int].edges@[t]);
                            }
                        }
                    }
                }
            }
            proof {
                assert forall|q: int| 0 <= q < p + 1 implies self.vertex_node(#[trigger] self.propagating_vertices@[q].0 as int) is None by {
                    if q < p {
                        assert(before.vertex_node(before.propagating_vertices@[q].0 as int) is None);
                    }
                }
                assert forall|u: int|
                    0 <= u < self.vertices@.len() && (forall|q: int|
                        0 <= q < p + 1 ==> #[trigger] start.propagating_vertices@[q].0 != u) implies #[trigger] self.vertices@[u]
                        == start.vertices@[u] by {
                    assert(start.propagating_vertices@[p as int].0 != u);
                    assert(self.vertices@[u] == before.vertices@[u]);
                    assert forall|q: int| 0 <= q < p implies #[trigger] start.propagating_vertices@[q].0 != u by {}
                }
                assert forall|q: int, t: int|
                    0 <= q < p + 1 && 0 <= t < start.vertices@[start.propagating_vertices@[q].0 as int].edges@.len()
                        && start.vertices@[start.propagating_vertices@[q].0 as int].timestamp == start.active_timestamp
                        && start.vertices@[start.propagating_vertices@[q].0 as int].propagated_dual_node is Some
                        implies touched.contains(
                        #[trigger] start.vertices@[start.propagating_vertices@[q].0 as int].edges@[t] as int,
                    ) by {
                    if q < p {
                        assert(before_touched.contains(start.vertices@[start.propagating_vertices@[q].0 as int].edges@[t] as int));
                    } else {
                        assert(start.propagating_vertices@[q].0 == v);
                        assert(touched.contains(start.vertices@[v as int].edges@[t] as int));
                    }
                }
            }
            p = p + 1;
        }
        proof {
            if exists|q: int, t: int|
                0 <= q < start.propagating_vertices@.len() && 0 <= t < start.vertices@[start.propagating_vertices@[q].0 as int].edges@.len()
                    && start.vertices@[start.propagating_vertices@[q].0 as int].timestamp == start.active_timestamp
                    && start.vertices@[start.propagating_vertices@[q].0 as int].propagated_dual_node is Some
                    && #[trigger] start.shared_zero_edge(
                    start.vertices@[start.propagating_vertices@[q].0 as int].edges@[t] as int,
                    k as int,
                ) {
                let (q, t) = choose|q: int, t: int|
                    0 <= q < start.propagating_vertices@.len() && 0 <= t < start.vertices@[start.propagating_vertices@[q].0 as int].edges@.len()
                        && start.vertices@[start.propagating_vertices@[q].0 as int].timestamp == start.active_timestamp
                        && start.vertices@[start.propagating_vertices@[q].0 as int].propagated_dual_node is Some
                        && #[trigger] start.shared_zero_edge(
                        start.vertices@[start.propagating_vertices@[q].0 as int].edges@[t] as int,
                        k as int,
                    );
                let f = start.vertices@[start.propagating_vertices@[q].0 as int].edges@[t] as int;
                assert(touched.contains(f));
                assert(start.vertex_wf(start.propagating_vertices@[q].0 as int));
            }
        }
        newly_propagated_edge_has_zero_weight
    }

    /// one round of preparing internal node `k` to grow (`is_grow`) or to shrink, from `before` to
    /// this state, returning `r`: the other nodes stay as they are, growing keeps the boundary
    /// sides that cannot propagate and takes in the vertices beyond the others, shrinking pops the
    /// zero entries off the overgrown stack, and `r` asks for another round over a new edge of
    /// weight zero
    pub open spec fn prepare_round(&self, before: &Self, k: int, is_grow: bool, r: bool) -> bool {
        &&& self.stable(before)
        &&& r ==> exists|e: int| 0 <= e < self.edges@.len() && self.edges@[e].weight == 0
        &&& forall|x: int|
            0 <= x < self.nodes@.len() && x != k ==> #[trigger] self.nodes@[x]
                == before.nodes@[x]
        &&& {
            let b = before.boundary_of(k);
            let nb = self.boundary_of(k);
            let pv = self.propagating_vertices@;
            &&& pv.len() <= b.len()
            &&& is_grow ==> {
                &&& b.len() - pv.len() <= nb.len()
                &&& forall|i: int| 0 <= i < b.len() - pv.len() ==> b.contains(#[trigger] nb[i])
                &&& forall|i: int| b.len() - pv.len() <= i < nb.len() ==> #[trigger] before.side_of_target(pv, nb[i])
                &&& Self::distinct_edges(b) ==> {
                    &&& Self::target_vertices(pv) == before.grow_targets(b)
                    &&& before.grow_kept(b).len() == b.len() - pv.len()
                    &&& nb.take(b.len() - pv.len()) == before.grow_kept(b)
                    &&& nb == before.grow_kept(b) + propagate_into(
                        before.free_vertices(),
                        before.grown_free_sides(b),
                        before.incident_of(),
                        before.grow_targets(b),
                    ).2
                }
                &&& forall|i: int|
                    0 <= i < pv.len() && before.vertex_node(pv[i].0 as int) is None ==> #[trigger] self.vertex_node(pv[i].0 as int)
                        == Some(k as usize)
                &&& forall|i: int| 0 <= i < pv.len() ==> self.vertex_node(#[trigger] pv[i].0 as int) is Some
                &&& r <==> exists|i: int|
                    b.len() - pv.len() <= i < nb.len() && self.edges@[(#[trigger] nb[i]).1 as int].weight
                        == 0
            }
            &&& !is_grow ==> {
                let st0 = before.nodes@[k]->Some_0.overgrown_stack@;
                let st1 = self.nodes@[k]->Some_0.overgrown_stack@;
                &&& forall|i: int| 0 <= i < pv.len() ==> self.vertex_node(#[trigger] pv[i].0 as int) is None
                &&& st1.len() <= st0.len()
                &&& st1 == st0.take(st1.len() as int)
                &&& forall|i: int| st1.len() <= i < st0.len() ==> (#[trigger] st0[i]).1 == 0
                &&& st1.len() > 0 ==> st1.last().1 != 0
                &&& forall|i: int|
                    0 <= i < nb.len() ==> b.contains(#[trigger] nb[i]) || before.side_at_vertices(
                        nb[i],
                        Self::stack_vertices(st0.skip(st1.len() as int)) + Self::target_vertices(pv),
                    )
            }
        }
    }

    /// the states of `trace` lead from `before` to this state by rounds of preparing internal node
    /// `k`, round `i` returning `results[i]`: another round follows only a round that asked for one,
    /// and the last round asks for none unless as many rounds followed the first as the graph has
    /// vertices
    pub open spec fn prepared_by_rounds(
        &self,
        before: &Self,
        k: int,
        is_grow: bool,
        trace: Seq<Self>,
        results: Seq<bool>,
    ) -> bool {
        &&& results.len() >= 1
        &&& trace.len() == results.len() + 1
        &&& trace[0] == *before
        &&& trace.last() == *self
        &&& forall|i: int|
            #![trigger results[i]]
            0 <= i < results.len() ==> trace[i + 1].prepare_round(&trace[i], k, is_grow, results[i])
        &&& forall|i: int| 0 <= i < results.len() - 1 ==> #[trigger] results[i]
        &&& !results.last() || results.len() == before.vertices@.len() + 1
    }

    /// the parts of internal node `k` that preparing it changes: its boundary and its overgrown
    /// stack
    pub open spec fn prepared_parts(&self, k: int) -> (Seq<(bool, EdgeIndex)>, Seq<(VertexIndex, Weight)>) {
        (self.nodes@[k]->Some_0.boundary@, self.nodes@[k]->Some_0.overgrown_stack@)
    }

    /// internal node `k` holds here what rounds of preparing it to grow (`is_grow`) or to shrink
    /// give, from a state where its boundary and overgrown stack were those of `start`
    pub open spec fn node_prepared(&self, start: &Self, k: int, is_grow: bool) -> bool {
        exists|before: Self, prepared: Self, trace: Seq<Self>, results: Seq<bool>|
            #[trigger] prepared.prepared_by_rounds(&before, k, is_grow, trace, results)
                && before.prepared_parts(k) == start.prepared_parts(k) && self.nodes@[k] == prepared.nodes@[k]
    }

    /// a prepared node stays prepared while its slot does not change
    pub proof fn lemma_node_prepared_frame(a: &Self, b: &Self, start: &Self, k: int, is_grow: bool)
        requires
            a.node_prepared(start, k, is_grow),
            b.nodes@[k] == a.nodes@[k],
        ensures
            b.node_prepared(start, k, is_grow),
    {
        let (before, prepared, trace, results) = choose|before: Self, prepared: Self, trace: Seq<Self>, results: Seq<bool>|
            #[trigger] prepared.prepared_by_rounds(&before, k, is_grow, trace, results)
                && before.prepared_parts(k) == start.prepared_parts(k) && a.nodes@[k] == prepared.nodes@[k];
        assert(prepared.prepared_by_rounds(&before, k, is_grow, trace, results));
    }

    /// this is equivalent to [`DualModuleSerial::prepare_dual_node_growth`] when there are no 0
    /// weight edges, but when it encounters zero-weight edges, it will report `true`
    pub fn prepare_dual_node_growth_single(
        &mut self,
        interface: &DualModuleInterface,
        dual_node_ptr: &DualNodePtr,
        is_grow: bool,
    ) -> (r: bool)
        requires
            old(self).wf(),
            interface.wf(),
            old(self).coupled_prefix(interface),
            dual_node_ptr.index < old(self).nodes_length,
            interface.is_live(dual_node_ptr.index as int),
        ensures
            final(self).wf(),
            final(self).coupled_prefix(interface),
            final(self).prepare_round(old(self), dual_node_ptr.index as int, is_grow, r),
    {
        let ghost start = *self;
        self.clear_temporaries();
        let ghost c = *self;
        let ghost mut g1 = *self;
        let ghost mut g2 = *self;
        let ghost mut g3 = *self;
        let k = self.get_dual_node_internal_ptr(interface, dual_node_ptr);
        let newly_propagated_edge_has_zero_weight = if is_grow {
            // gracefully update the boundary to ease growing
            let ghost s0 = *self;
            self.prepare_grow_boundary(k);
            let ghost s1 = *self;
            let zero = self.prepare_grow_propagate(interface, k);
            proof {
                g1 = s1;
                Self::lemma_stable_trans(&s0, &s1, self);
                Self::lemma_stable_trans(&start, &s0, self);
            }
            zero
        } else {
            // gracefully update the boundary to ease shrinking
            let ghost s0 = *self;
            self.clear_edge_dedup();
            let ghost s1 = *self;
            self.prepare_shrink_overgrown(interface, k);
            let ghost s2 = *self;
            self.prepare_shrink_boundary(k);
            let ghost s3 = *self;
            let zero = self.prepare_shrink_propagate(interface, k);
            proof {
                g1 = s1;
                g2 = s2;
                g3 = s3;
                Self::lemma_stable_trans(&s2, &s3, self);
                Self::lemma_stable_trans(&s1, &s2, self);
                Self::lemma_stable_trans(&s0, &s1, self);
                Self::lemma_stable_trans(&start, &s0, self);
            }
            zero
        };
        // update the boundary
        let ghost s4 = *self;
        self.install_boundary(k);
        proof {
            let b = start.boundary_of(k as int);
            let pv = self.propagating_vertices@;
            assert(c.nodes@ == start.nodes@);
            assert(c.updated_boundary@.len() == 0 && c.propagating_vertices@.len() == 0);
            if is_grow {
                assert(g1.updated_boundary@.len() + g1.propagating_vertices@.len() == b.len());
                assert(s4.propagating_vertices@ == g1.propagating_vertices@);
                let kept = g1.updated_boundary@.len() as int;
                let nb = self.boundary_of(k as int);
                assert(nb == s4.updated_boundary@);
                let ps = g1.grow_propagation(g1.propagating_vertices@.len() as int);
                let targets = Self::target_vertices(g1.propagating_vertices@);
                assert(targets.take(targets.len() as int) =~= targets);
                assert(s4.updated_boundary@ == g1.updated_boundary@ + ps.2);
                assert(g1.free_vertices() =~= start.free_vertices()) by {
                    assert forall|v: usize| #[trigger] g1.free_vertices()(v) == start.free_vertices()(v) by {
                        if v < g1.vertices@.len() {
                            assert(g1.vertex_node(v as int) == c.vertex_node(v as int));
                        }
                    }
                }
                assert forall|i: int| 0 <= i < pv.len() && start.vertex_node(pv[i].0 as int) is None implies #[trigger] self.vertex_node(
                    pv[i].0 as int,
                ) == Some(k) by {
                    assert(pv[i] == g1.propagating_vertices@[i]);
                    assert(self.vertex_node(pv[i].0 as int) is Some);
                    assert(targets[i] == pv[i].0);
                    lemma_propagate_taken(g1.free_vertices(), g1.free_sides(), g1.incident_of(), targets, pv[i].0);
                    assert(s4.vertex_node(pv[i].0 as int) == Some(k));
                }
                if Self::distinct_edges(b) {
                    Self::lemma_grow_frame(&start, &c, b);
                    assert(g1.free_sides() =~= start.grown_free_sides(b)) by {
                        assert forall|side: (bool, EdgeIndex)| #[trigger] g1.free_sides()(side) == start.grown_free_sides(b)(side) by {
                            if side.1 < g1.edges@.len() {
                                assert(g1.edge_node(side.1 as int, side.0) == (if c.grow_claims_side(
                                    c.boundary_of(k as int),
                                    (side.0, side.1),
                                ) {
                                    Some(k)
                                } else {
                                    c.edge_node(side.1 as int, side.0)
                                }));
                            }
                        }
                    }
                    assert(g1.incident_of() =~= start.incident_of()) by {
                        assert forall|v: usize| #[trigger] g1.incident_of()(v) == start.incident_of()(v) by {
                            if v < start.vertices@.len() {
                                Self::lemma_incident_sides_stable(&start, &g1, v as int);
                            }
                        }
                    }
                    assert(c.boundary_of(k as int) == b);
                    assert(g1.updated_boundary@ =~= start.grow_kept(b));
                    assert(Self::target_vertices(c.propagating_vertices@) =~= Seq::<usize>::empty());
                    assert(Self::target_vertices(g1.propagating_vertices@) =~= start.grow_targets(b));
                    assert(Self::target_vertices(pv) == Self::target_vertices(g1.propagating_vertices@));
                    assert(nb.take(kept) =~= g1.updated_boundary@);
                }
                assert forall|i: int| 0 <= i < kept implies b.contains(#[trigger] nb[i]) by {
                    assert(nb[i] == g1.updated_boundary@[i]);
                    assert(g1.updated_boundary@.take(0) =~= c.updated_boundary@);
                }
                assert forall|i: int| b.len() - pv.len() <= i < nb.len() implies #[trigger] start.side_of_target(pv, nb[i]) by {
                    assert(nb[i] == s4.updated_boundary@[i]);
                    let q = choose|q: int|
                        0 <= q < g1.propagating_vertices@.len() && g1.incident_sides(
                            (#[trigger] g1.propagating_vertices@[q]).0 as int,
                        ).contains(#[trigger] s4.updated_boundary@[i]);
                    assert(pv[q] == g1.propagating_vertices@[q]);
                    assert(self.vertex_node(#[trigger] pv[q].0 as int) is Some);
                    Self::lemma_incident_sides_stable(&start, &g1, pv[q].0 as int);
                    assert(start.incident_sides(pv[q].0 as int).contains(nb[i]));
                }
            } else {
                assert(g1.nodes@ == start.nodes@);
                assert(g2.boundary_of(k as int) == g1.boundary_of(k as int));
                assert(g2.propagating_vertices@.len() == 0);
                assert(g3.nodes@ == g2.nodes@);
                assert(s4.nodes@ == g3.nodes@);
                let nb = self.boundary_of(k as int);
                let st0 = start.nodes@[k as int]->Some_0.overgrown_stack@;
                let st1 = self.nodes@[k as int]->Some_0.overgrown_stack@;
                let popped = Self::stack_vertices(st0.skip(st1.len() as int));
                let vs = popped + Self::target_vertices(pv);
                assert(nb == s4.updated_boundary@);
                assert(g1.updated_boundary@.len() == 0);
                assert(st1 == g2.nodes@[k as int]->Some_0.overgrown_stack@);
                assert(st0 == g1.nodes@[k as int]->Some_0.overgrown_stack@);
                assert(g3.propagating_vertices@ == pv);
                assert forall|i: int| 0 <= i < nb.len() implies b.contains(#[trigger] nb[i]) || start.side_at_vertices(
                    nb[i],
                    vs,
                ) by {
                    if i < g2.updated_boundary@.len() {
                        assert(g3.updated_boundary@.take(g2.updated_boundary@.len() as int) == g2.updated_boundary@);
                        assert(s4.updated_boundary@.take(g3.updated_boundary@.len() as int) == g3.updated_boundary@);
                        assert(nb[i] == g3.updated_boundary@[i]);
                        assert(nb[i] == g2.updated_boundary@[i]);
                        assert(g1.side_at_vertices(g2.updated_boundary@[i], popped));
                        let j = choose|j: int| 0 <= j < popped.len() && #[trigger] g1.vertices@[popped[j] as int].edges@.contains(
                            g2.updated_boundary@[i].1,
                        );
                        assert(vs[j] == popped[j]);
                        assert(g1.vertices@[popped[j] as int].edges == start.vertices@[popped[j] as int].edges);
                        assert(start.vertices@[vs[j] as int].edges@.contains(nb[i].1));
                    } else if i < g3.updated_boundary@.len() {
                        assert(s4.updated_boundary@.take(g3.updated_boundary@.len() as int) == g3.updated_boundary@);
                        assert(nb[i] == g3.updated_boundary@[i]);
                        assert(g2.boundary_of(k as int).contains(g3.updated_boundary@[i]));
                    } else {
                        assert(g3.side_at_vertices(s4.updated_boundary@[i], Self::target_vertices(pv)));
                        let tv = Self::target_vertices(pv);
                        let j = choose|j: int| 0 <= j < tv.len() && #[trigger] g3.vertices@[tv[j] as int].edges@.contains(
                            s4.updated_boundary@[i].1,
                        );
                        assert(vs[popped.len() + j] == tv[j]);
                        assert(g3.vertices@[tv[j] as int].edges == start.vertices@[tv[j] as int].edges);
                        assert(start.vertices@[vs[popped.len() + j] as int].edges@.contains(nb[i].1));
                    }
                }
            }
            assert(s4.propagating_vertices@ == pv);
            assert forall|i: int| 0 <= i < pv.len() implies #[trigger] pv[i] == s4.propagating_vertices@[i] by {}
            assert forall|i: int| 0 <= i < pv.len() implies self.vertex_node(#[trigger] pv[i].0 as int)
                == s4.vertex_node(pv[i].0 as int) by {}
            Self::lemma_stable_trans(&start, &s4, self);
            Self::lemma_stable_coupled(&start, self, interface);
            if newly_propagated_edge_has_zero_weight {
                let e = choose|e: int| 0 <= e < s4.edges@.len() && s4.edges@[e].weight == 0;
                assert(self.edges@[e].weight == 0);
            }
        }
        newly_propagated_edge_has_zero_weight
    }

    /// adjust the boundary of each dual node to fit into the need of growing (`is_grow`) or
    /// shrinking; with zero-weight edges this may take several rounds, at most one more than the
    /// number of vertices
    pub fn prepare_dual_node_growth(
        &mut self,
        interface: &DualModuleInterface,
        dual_node_ptr: &DualNodePtr,
        is_grow: bool,
    )
        requires
            old(self).wf(),
            interface.wf(),
            old(self).coupled_prefix(interface),
            dual_node_ptr.index < old(self).nodes_length,
            interface.is_live(dual_node_ptr.index as int),
        ensures
            exists|trace: Seq<Self>, results: Seq<bool>|
                #[trigger] final(self).prepared_by_rounds(old(self), dual_node_ptr.index as int, is_grow, trace, results),
            final(self).wf(),
            final(self).stable(old(self)),
            final(self).coupled_prefix(interface),
            forall|x: int|
                0 <= x < final(self).nodes@.len() && x != dual_node_ptr.index ==> #[trigger] final(self).nodes@[x]
                    == old(self).nodes@[x],
            ({
                let k = dual_node_ptr.index as int;
                let pv = final(self).propagating_vertices@;
                let st0 = old(self).nodes@[k]->Some_0.overgrown_stack@;
                let st1 = final(self).nodes@[k]->Some_0.overgrown_stack@;
                &&& is_grow ==> forall|i: int| 0 <= i < pv.len() ==> final(self).vertex_node(#[trigger] pv[i].0 as int) is Some
                &&& !is_grow ==> {
                    &&& forall|i: int| 0 <= i < pv.len() ==> final(self).vertex_node(#[trigger] pv[i].0 as int) is None
                    &&& st1.len() <= st0.len()
                    &&& st1 == st0.take(st1.len() as int)
                    &&& forall|i: int| st1.len() <= i < st0.len() ==> (#[trigger] st0[i]).1 == 0
                    &&& st1.len() > 0 ==> st1.last().1 != 0
                }
            }),
    {
        let ghost start = *self;
        let mut need_another = self.prepare_dual_node_growth_single(interface, dual_node_ptr, is_grow);
        let ghost mut trace: Seq<Self> = seq![start, *self];
        let ghost mut results: Seq<bool> = seq![need_another];
        let mut rounds: usize = 0;
        let limit = self.vertices.len();
        proof {
            assert(results[0] == need_another);
        }
        while need_another && rounds < limit
            invariant
                limit == start.vertices@.len(),
                results.len() == rounds + 1,
                trace.len() == results.len() + 1,
                trace[0] == start,
                trace.last() == *self,
                need_another == results.last(),
                forall|i: int|
                    #![trigger results[i]]
                    0 <= i < results.len() ==> trace[i + 1].prepare_round(
                        &trace[i],
                        dual_node_ptr.index as int,
                        is_grow,
                        results[i],
                    ),
                forall|i: int| 0 <= i < results.len() - 1 ==> #[trigger] results[i],
                self.wf(),
                interface.wf(),
                start.wf(),
                self.stable(&start),
                self.coupled_prefix(interface),
                dual_node_ptr.index < self.nodes_length,
                interface.is_live(dual_node_ptr.index as int),
                rounds <= limit,
                forall|x: int|
                    0 <= x < self.nodes@.len() && x != dual_node_ptr.index ==> #[trigger] self.nodes@[x]
                        == start.nodes@[x],
                ({
                let k = dual_node_ptr.index as int;
                let pv = self.propagating_vertices@;
                let st0 = start.nodes@[k]->Some_0.overgrown_stack@;
                let st1 = self.nodes@[k]->Some_0.overgrown_stack@;
                &&& is_grow ==> forall|i: int| 0 <= i < pv.len() ==> self.vertex_node(#[trigger] pv[i].0 as int) is Some
                &&& !is_grow ==> {
                    &&& forall|i: int| 0 <= i < pv.len() ==> self.vertex_node(#[trigger] pv[i].0 as int) is None
                    &&& st1.len() <= st0.len()
                    &&& st1 == st0.take(st1.len() as int)
                    &&& forall|i: int| st1.len() <= i < st0.len() ==> (#[trigger] st0[i]).1 == 0
                    &&& st1.len() > 0 ==> st1.last().1 != 0
                }
            }),
            decreases limit - rounds,
        {
            // when there are 0 weight edges, one may need to run multiple iterations to get it
            // prepared in a proper state
            let ghost s0 = *self;
            need_another = self.prepare_dual_node_growth_single(interface, dual_node_ptr, is_grow);
            proof {
                let old_trace = trace;
                let old_results = results;
                trace = trace.push(*self);
                results = results.push(need_another);
                assert(old_results.last() == old_results[old_results.len() - 1]);
                assert forall|i: int|
                    #![trigger results[i]]
                    0 <= i < results.len() implies trace[i + 1].prepare_round(
                        &trace[i],
                        dual_node_ptr.index as int,
                        is_grow,
                        results[i],
                    ) by {
                    if i < old_results.len() {
                        assert(results[i] == old_results[i]);
                        assert(trace[i] == old_trace[i]);
                        assert(trace[i + 1] == old_trace[i + 1]);
                    } else {
                        assert(trace[i] == old_trace.last());
                    }
                }
                assert forall|i: int| 0 <= i < results.len() - 1 implies #[trigger] results[i] by {
                    assert(results[i] == old_results[i]);
                    if i < old_results.len() - 1 {
                        assert(old_results[i]);
                    }
                }
                Self::lemma_stable_trans(&start, &s0, self);
                let k = dual_node_ptr.index as int;
                if !is_grow {
                    let st0 = start.nodes@[k]->Some_0.overgrown_stack@;
                    let stm = s0.nodes@[k]->Some_0.overgrown_stack@;
                    let st1 = self.nodes@[k]->Some_0.overgrown_stack@;
                    assert(st1 =~= st0.take(st1.len() as int)) by {
                        assert forall|i: int| 0 <= i < st1.len() implies st1[i] == st0[i] by {
                            assert(st1[i] == stm[i]);
                            assert(stm[i] == st0[i]);
                        }
                    }
                    assert forall|i: int| st1.len() <= i < st0.len() implies (#[trigger] st0[i]).1 == 0 by {
                        if i < stm.len() {
                            assert(stm[i] == st0[i]);
                        }
                    }
                }
            }
            rounds = rounds + 1;
        }
        proof {
            assert(self.vertices@.len() == start.vertices@.len());
            assert(self.prepared_by_rounds(&start, dual_node_ptr.index as int, is_grow, trace, results));
        }
    }
}


impl DualModuleSerial {
    /// register a new dual node ptr, but not creating the internal dual node
    fn register_dual_node_ptr(&mut self, dual_node_ptr: &DualNodePtr)
        requires
            old(self).wf(),
        ensures
            final(self).wf(),
            final(self).vertices@ == old(self).vertices@,
            final(self).edges@ == old(self).edges@,
            final(self).nodes@ == old(self).nodes@,
            final(self).nodes_length == old(self).nodes_length,
            final(self).active_timestamp == old(self).active_timestamp,
            final(self).active_list@ == old(self).active_list@,
            final(self).frame_unchanged(old(self)),
            final(self).sync_requests@ == old(self).sync_requests@,
            old(self).unit_module_info is None ==> final(self).unit_module_info is None,
            old(self).unit_module_info is Some ==> final(self).unit_module_info is Some,
            forall|p: DualNodePtr|
                p.index != dual_node_ptr.index ==> #[trigger] final(self).spec_dual_node_index(p)
                    == old(self).spec_dual_node_index(p),
            old(self).spec_dual_node_index(*dual_node_ptr) is None ==> final(self).spec_dual_node_index(
                *dual_node_ptr,
            ) == Some(old(self).nodes_length),
    {
        let ghost pre = *self;
        let nodes_length = self.nodes_length;
        match &mut self.unit_module_info {
            Some(unit_module_info) => {
                if unit_module_info.owning_dual_range.is_empty() {
                    // set the range instead of inserting into the lookup table, to minimize table lookup
                    unit_module_info.owning_dual_range = IndexRange::new(
                        dual_node_ptr.index,
                        dual_node_ptr.index,
                    );
                }
                let range = unit_module_info.owning_dual_range;
                if range.range_start <= range.range_end && range.end() == dual_node_ptr.index
                    && nodes_length == range.len() && range.range_end < usize::MAX {
                    // it's able to append into the owning range, minimizing table lookup and thus better performance
                    unit_module_info.owning_dual_range.append_by(1);
                } else {
                    // will be inserted at this place
                    unit_module_info.dual_node_pointers.insert(dual_node_ptr.index, nodes_length);
                }
            },
            None => {},
        }
        proof {
            Self::lemma_wf_preserved(&pre, self);
        }
    }

    /// a new internal node for `origin` in the slot after the last one
    fn install_new_node(&mut self, origin: DualNodePtr, dual_variable: Weight) -> (k: usize)
        requires
            old(self).wf(),
            old(self).nodes_length < usize::MAX,
            -DUAL_BOUND <= dual_variable <= DUAL_BOUND,
        ensures
            final(self).wf(),
            k == old(self).nodes_length,
            final(self).nodes_length == k + 1,
            final(self).nodes@.len() == if old(self).nodes@.len() == k {
                k + 1
            } else {
                old(self).nodes@.len() as int
            },
            final(self).nodes@[k as int] == Some(
                DualNodeInternal {
                    origin,
                    index: k,
                    dual_variable,
                    boundary: final(self).nodes@[k as int]->Some_0.boundary,
                    overgrown_stack: final(self).nodes@[k as int]->Some_0.overgrown_stack,
                    last_visit_cycle: 0,
                },
            ),
            final(self).boundary_of(k as int).len() == 0,
            final(self).nodes@[k as int]->Some_0.overgrown_stack@.len() == 0,
            forall|j: int|
                0 <= j < old(self).nodes@.len() && j != k ==> final(self).nodes@[j] == old(self).nodes@[j],
            final(self).vertices@ == old(self).vertices@,
            final(self).edges@ == old(self).edges@,
            final(self).active_timestamp == old(self).active_timestamp,
            final(self).active_list@ == old(self).active_list@,
            final(self).unit_module_info == old(self).unit_module_info,
            final(self).frame_unchanged(old(self)),
            final(self).sync_requests@ == old(self).sync_requests@,
    {
        let ghost pre = *self;
        let k = self.nodes_length;
        if self.nodes.len() <= k {
            self.nodes.push(None);
        }
        let ghost mid = *self;
        let node = DualNodeInternal {
            origin,
            index: k,
            dual_variable,
            boundary: Vec::new(),
            overgrown_stack: Vec::new(),
            last_visit_cycle: 0,
        };
        self.nodes.set(k, Some(node));
        self.nodes_length = k + 1;
        proof {
            assert forall|v: int| 0 <= v < self.vertices@.len() implies #[trigger] self.vertex_wf(v) by {
                assert(pre.vertex_wf(v));
            }
            assert forall|e: int| 0 <= e < self.edges@.len() implies #[trigger] self.edge_wf(e) by {
                assert(pre.edge_wf(e));
            }
            assert forall|j: int| 0 <= j < self.nodes@.len() implies #[trigger] self.node_wf(j) by {
                if j != k && j < pre.nodes@.len() {
                    assert(pre.node_wf(j));
                }
            }
            assert forall|j: int| 0 <= j < self.active_list@.len() implies #[trigger] self.active_list@[j]
                < self.nodes@.len() by {
                assert(pre.active_list@[j] < pre.nodes@.len());
            }
            assert forall|j: int| 0 <= j < self.propagating_vertices@.len() implies {
                &&& (#[trigger] self.propagating_vertices@[j]).0 < self.vertices@.len()
                &&& opt_lt(self.propagating_vertices@[j].1, self.nodes@.len() as int)
            } by {
                assert(opt_lt(pre.propagating_vertices@[j].1, pre.nodes@.len() as int));
            }
        }
        k
    }

    /// vertex `v` is a defect vertex
    fn set_vertex_defect(&mut self, v: usize)
        requires
            old(self).wf(),
            v < old(self).vertices@.len(),
        ensures
            final(self).wf(),
            final(self).stable(old(self)),
            final(self).edges@ == old(self).edges@,
            final(self).nodes@ == old(self).nodes@,
            final(self).active_list@ == old(self).active_list@,
            final(self).frame_unchanged(old(self)),
            final(self).sync_requests@ == old(self).sync_requests@,
            final(self).vertices@.len() == old(self).vertices@.len(),
            forall|u: int|
                0 <= u < final(self).vertices@.len() && u != v ==> final(self).vertices@[u]
                    == old(self).vertices@[u],
            final(self).vertices@[v as int].is_defect,
            final(self).vertices@[v as int].propagated_dual_node == old(self).vertices@[v as int].propagated_dual_node,
    {
        let ghost pre = *self;
        assert(pre.vertex_wf(v as int));
        self.vertices[v].is_defect = true;
        assert(self.vertex_wf(v as int));
        proof {
            Self::lemma_wf_preserved(&pre, self);
        }
    }

    /// append an entry to the boundary of internal node `k`
    fn push_node_boundary(&mut self, k: usize, is_left: bool, e: usize)
        requires
            old(self).wf(),
            k < old(self).nodes@.len(),
            old(self).nodes@[k as int] is Some,
            e < old(self).edges@.len(),
        ensures
            final(self).wf(),
            final(self).stable(old(self)),
            final(self).vertices@ == old(self).vertices@,
            final(self).edges@ == old(self).edges@,
            final(self).active_list@ == old(self).active_list@,
            final(self).frame_unchanged(old(self)),
            final(self).sync_requests@ == old(self).sync_requests@,
            final(self).boundary_of(k as int) == old(self).boundary_of(k as int).push((is_left, e)),
            final(self).nodes@[k as int]->Some_0.overgrown_stack == old(self).nodes@[k as int]->Some_0.overgrown_stack,
            forall|j: int|
                0 <= j < final(self).nodes@.len() && j != k ==> final(self).nodes@[j] == old(self).nodes@[j],
    {
        let ghost pre = *self;
        assert(pre.node_wf(k as int));
        match &mut self.nodes[k] {
            Some(node) => node.boundary.push((is_left, e)),
            None => {},
        }
        proof {
            assert(self.node_wf(k as int)) by {
                let b = self.boundary_of(k as int);
                assert forall|j: int| 0 <= j < b.len() implies (#[trigger] b[j]).1 < self.edges@.len() by {
                    if j < pre.boundary_of(k as int).len() {
                        assert(b[j] == pre.boundary_of(k as int)[j]);
                    }
                }
            }
            Self::lemma_wf_preserved(&pre, self);
        }
    }

    /// remember internal node `k` as possibly growing or shrinking
    fn push_active(&mut self, k: usize)
        requires
            old(self).wf(),
            k < old(self).nodes@.len(),
        ensures
            final(self).wf(),
            final(self).vertices@ == old(self).vertices@,
            final(self).edges@ == old(self).edges@,
            final(self).nodes@ == old(self).nodes@,
            final(self).nodes_length == old(self).nodes_length,
            final(self).unit_module_info == old(self).unit_module_info,
            final(self).active_timestamp == old(self).active_timestamp,
            final(self).frame_unchanged(old(self)),
            final(self).sync_requests@ == old(self).sync_requests@,
            final(self).active_list@ == old(self).active_list@.push(k),
    {
        let ghost pre = *self;
        self.active_list.push(k);
        proof {
            assert forall|j: int| 0 <= j < self.active_list@.len() implies #[trigger] self.active_list@[j]
                < self.nodes@.len() by {
                if j < pre.active_list@.len() {
                    assert(self.active_list@[j] == pre.active_list@[j]);
                }
            }
            Self::lemma_wf_preserved(&pre, self);
        }
    }
}


impl DualModuleSerial {
    /// the internal nodes other than the new one `k` keep what is stable
    pub open spec fn others_kept(&self, other: &Self, k: int) -> bool {
        &&& forall|j: int|
            0 <= j < other.nodes_length && j != k ==> {
                &&& (#[trigger] self.nodes@[j]) is Some == other.nodes@[j] is Some
                &&& self.nodes@[j] is Some ==> {
                    &&& self.nodes@[j]->Some_0.origin == other.nodes@[j]->Some_0.origin
                    &&& self.nodes@[j]->Some_0.index == other.nodes@[j]->Some_0.index
                    &&& self.nodes@[j]->Some_0.dual_variable == other.nodes@[j]->Some_0.dual_variable
                }
            }
        &&& forall|e: int|
            0 <= e < self.edges@.len() ==> {
                &&& (#[trigger] self.edges@[e]).weight == other.edges@[e].weight
                &&& self.edges@[e].left == other.edges@[e].left
                &&& self.edges@[e].right == other.edges@[e].right
                &&& self.growth_of(e, true) == other.growth_of(e, true)
                &&& self.growth_of(e, false) == other.growth_of(e, false)
            }
        &&& forall|v: int|
            0 <= v < self.vertices@.len() ==> {
                &&& (#[trigger] self.vertices@[v]).vertex_index == other.vertices@[v].vertex_index
                &&& self.vertices@[v].is_virtual == other.vertices@[v].is_virtual
                &&& self.vertices@[v].edges == other.vertices@[v].edges
            }
        &&& self.vertices@.len() == other.vertices@.len()
        &&& self.edges@.len() == other.edges@.len()
        &&& self.active_timestamp == other.active_timestamp
    }

    /// add a new dual node of a defect vertex, see `add_dual_node`
    pub fn add_defect_node(&mut self, interface: &DualModuleInterface, dual_node_ptr: &DualNodePtr)
        requires
            old(self).wf(),
            interface.wf(),
            old(self).coupled_prefix(interface),
            interface.nodes_length == old(self).nodes_length + 1,
            dual_node_ptr.index == old(self).nodes_length,
            interface.is_live(dual_node_ptr.index as int),
            interface.node(dual_node_ptr.index as int).class matches DualNodeClass::DefectVertex {
                defect_index,
            } && defect_index < old(self).vertices@.len(),
        ensures
            final(self).wf(),
            final(self).coupled(interface),
            final(self).nodes_length == old(self).nodes_length + 1,
            final(self).nodes@[dual_node_ptr.index as int] is Some,
            final(self).nodes@[dual_node_ptr.index as int]->Some_0.dual_variable == 0,
            final(self).others_kept(old(self), dual_node_ptr.index as int),
            final(self).active_list@ == old(self).active_list@.push(dual_node_ptr.index),
            final(self).edge_triples() == old(self).edge_triples(),
            interface.node(dual_node_ptr.index as int).class matches DualNodeClass::DefectVertex {
                defect_index,
            } && final(self).vertices@[defect_index as int].propagated_dual_node == Some(dual_node_ptr.index)
                && final(self).vertices@[defect_index as int].is_defect,
    {
        self.add_dual_node(interface, dual_node_ptr);
    }

    /// add a new dual node of a blossom, see `add_dual_node`
    pub fn add_blossom(&mut self, interface: &DualModuleInterface, dual_node_ptr: &DualNodePtr)
        requires
            old(self).wf(),
            interface.wf(),
            old(self).coupled_prefix(interface),
            interface.nodes_length == old(self).nodes_length + 1,
            dual_node_ptr.index == old(self).nodes_length,
            interface.is_live(dual_node_ptr.index as int),
            interface.node(dual_node_ptr.index as int).class is Blossom,
        ensures
            final(self).wf(),
            final(self).coupled(interface),
            final(self).nodes_length == old(self).nodes_length + 1,
            final(self).nodes@[dual_node_ptr.index as int] is Some,
            final(self).nodes@[dual_node_ptr.index as int]->Some_0.dual_variable == 0,
            final(self).others_kept(old(self), dual_node_ptr.index as int),
            final(self).active_list@ == old(self).active_list@.push(dual_node_ptr.index),
            final(self).edge_triples() == old(self).edge_triples(),
            ({
                let nodes_circle = interface.node(dual_node_ptr.index as int).class->Blossom_nodes_circle;
                final(self).circle_separate(nodes_circle@) ==> final(self).boundary_of(
                    dual_node_ptr.index as int,
                ) == final(self).circle_boundary(nodes_circle@)
            }),
    {
        self.add_dual_node(interface, dual_node_ptr);
    }

    /// add a new dual node from dual module root: a defect vertex takes its vertex and the edges
    /// around it, a blossom takes the boundaries of the nodes in its circle
    pub fn add_dual_node(&mut self, interface: &DualModuleInterface, dual_node_ptr: &DualNodePtr)
        requires
            old(self).wf(),
            interface.wf(),
            old(self).coupled_prefix(interface),
            interface.nodes_length == old(self).nodes_length + 1,
            dual_node_ptr.index == old(self).nodes_length,
            interface.is_live(dual_node_ptr.index as int),
            interface.node(dual_node_ptr.index as int).class matches DualNodeClass::DefectVertex {
                defect_index,
            } ==> defect_index < old(self).vertices@.len(),
        ensures
            final(self).wf(),
            final(self).coupled(interface),
            final(self).nodes_length == old(self).nodes_length + 1,
            final(self).nodes@[dual_node_ptr.index as int] is Some,
            final(self).nodes@[dual_node_ptr.index as int]->Some_0.dual_variable == 0,
            final(self).others_kept(old(self), dual_node_ptr.index as int),
            final(self).active_list@ == old(self).active_list@.push(dual_node_ptr.index),
            final(self).vertices@.len() == old(self).vertices@.len(),
            final(self).edges@.len() == old(self).edges@.len(),
            final(self).edge_triples() == old(self).edge_triples(),
            final(self).edge_modifier == old(self).edge_modifier,
            interface.node(dual_node_ptr.index as int).class matches DualNodeClass::DefectVertex {
                defect_index,
            } ==> {
                &&& final(self).vertices@[defect_index as int].propagated_dual_node == Some(
                    dual_node_ptr.index,
                )
                &&& final(self).vertices@[defect_index as int].is_defect
                &&& final(self).boundary_of(dual_node_ptr.index as int).len()
                    == final(self).vertices@[defect_index as int].edges@.len()
                &&& forall|t: int|
                    0 <= t < final(self).boundary_of(dual_node_ptr.index as int).len() ==> {
                        let e = final(self).vertices@[defect_index as int].edges@[t];
                        #[trigger] final(self).boundary_of(dual_node_ptr.index as int)[t] == (
                        final(self).edges@[e as int].left == defect_index,
                        e,
                        )
                    }
            },
            interface.node(dual_node_ptr.index as int).class matches DualNodeClass::Blossom {
                nodes_circle,
                ..
            } ==> (final(self).circle_separate(nodes_circle@) ==> final(self).boundary_of(
                dual_node_ptr.index as int,
            ) == final(self).circle_boundary(nodes_circle@)),
    {
        let ghost start = *self;
        self.register_dual_node_ptr(dual_node_ptr);
        let k = self.install_new_node(*dual_node_ptr, 0);
        let ghost installed = *self;
        proof {
            assert(self.coupled(interface)) by {
                assert forall|j: int| 0 <= j < self.nodes_length implies (self.nodes@[j] is Some
                    <==> #[trigger] interface.is_live(j)) by {
                    if j < start.nodes_length {
                        assert(start.nodes@[j] is Some <==> interface.is_live(j));
                    }
                }
                assert forall|j: int|
                    0 <= j < self.nodes_length && #[trigger] self.nodes@[j] is Some implies {
                    &&& self.nodes@[j]->Some_0.origin.index == j
                    &&& self.nodes@[j]->Some_0.index == j
                } by {
                    if j < start.nodes_length {
                        assert(start.nodes@[j] is Some);
                    }
                }
            }
            Self::lemma_stable_refl(self);
        }
        let node = match &interface.nodes[dual_node_ptr.index] {
            Some(node) => node,
            None => {
                return ;
            },
        };
        proof {
            assert(interface.node_wf(dual_node_ptr.index as int));
        }
        match &node.class {
            DualNodeClass::Blossom { nodes_circle, .. } => {
                // copy all the boundary edges and modify edge belongings
                let mut c: usize = 0;
                while c < nodes_circle.len()
                    invariant
                        self.wf(),
                        interface.wf(),
                        installed.wf(),
                        installed.coupled(interface),
                        self.stable(&installed),
                        self.coupled(interface),
                        k == dual_node_ptr.index,
                        k < self.nodes@.len(),
                        self.nodes@[k as int] is Some,
                        self.active_list@ == installed.active_list@,
                        interface.node(k as int).class == (DualNodeClass::Blossom {
                            nodes_circle: *nodes_circle,
                            touching_children: interface.node(
                                k as int,
                            ).class->Blossom_touching_children,
                        }),
                        interface.node_wf(k as int),
                        c <= nodes_circle@.len(),
                        self.circle_separate(nodes_circle@) ==> self.boundary_of(k as int) == self.circle_boundary(
                            nodes_circle@.take(c as int),
                        ),
                        forall|i: int| 0 <= i < c ==> self.spec_dual_node_index(#[trigger] nodes_circle@[i]) != Some(k),
                    decreases nodes_circle@.len() - c,
                {
                    let child = nodes_circle[c];
                    let ghost circle = nodes_circle@;
                    proof {
                        assert(interface.is_live(nodes_circle@[c as int].index as int));
                        assert(child.index < k);
                    }
                    let ghost s0 = *self;
                    // prepare all nodes in shrinking mode for consistency
                    self.prepare_dual_node_growth(interface, &child, false);
                    proof {
                        Self::lemma_stable_trans(&installed, &s0, self);
                        if self.circle_separate(circle) {
                            assert forall|i: int| 0 <= i < circle.take(c as int).len() implies s0.spec_dual_node_index(
                                #[trigger] circle.take(c as int)[i],
                            ) != Some(child.index as usize) by {
                                assert(circle.take(c as int)[i] == circle[i]);
                                assert(s0.spec_dual_node_index(circle[i]) == self.spec_dual_node_index(circle[i]));
                                assert(self.spec_dual_node_index(circle[i]) != Some(circle[c as int].index));
                            }
                            Self::lemma_circle_boundary_frame(&s0, self, circle.take(c as int), child.index as int);
                        }
                        assert forall|i: int| 0 <= i < c implies self.spec_dual_node_index(#[trigger] circle[i]) != Some(k) by {
                            assert(s0.spec_dual_node_index(circle[i]) != Some(k));
                        }
                    }
                    let ghost sp = *self;
                    let hosted = self.get_dual_node_internal_ptr_optional(&child);
                    match hosted {
                        Some(ci) => {
                            let n = self.boundary_len(ci);
                            let ghost b0 = self.boundary_of(k as int);
                            let ghost cb = self.boundary_of(ci as int);
                            let mut j: usize = 0;
                            while j < n
                                invariant
                                    self.wf(),
                                    installed.wf(),
                                    installed.coupled(interface),
                                    self.stable(&installed),
                                    self.coupled(interface),
                                    k < self.nodes@.len(),
                                    self.nodes@[k as int] is Some,
                                    ci < self.nodes@.len(),
                                    ci != k,
                                    self.nodes@[ci as int] is Some,
                                    n == self.boundary_of(ci as int).len(),
                                    self.active_list@ == installed.active_list@,
                                    j <= n,
                                    self.nodes@.len() == sp.nodes@.len(),
                                    self.unit_module_info == sp.unit_module_info,
                                    forall|x: int| 0 <= x < self.nodes@.len() && x != k ==> self.nodes@[x] == sp.nodes@[x],
                                    self.boundary_of(k as int) == b0 + cb.take(j as int),
                                    cb == sp.boundary_of(ci as int),
                                decreases n - j,
                            {
                                let (is_left, e) = self.boundary_entry(ci, j);
                                let ghost s1 = *self;
                                self.push_node_boundary(k, is_left, e);
                                proof {
                                    Self::lemma_stable_trans(&installed, &s1, self);
                                    assert(self.boundary_of(ci as int) == s1.boundary_of(ci as int));
                                    assert(cb.take(j + 1) =~= cb.take(j as int).push(cb[j as int]));
                                    assert(self.boundary_of(k as int) =~= b0 + cb.take(j + 1));
                                }
                                let grandson = if is_left {
                                    self.edges[e].left_grandson_dual_node
                                } else {
                                    self.edges[e].right_grandson_dual_node
                                };
                                proof {
                                    assert(self.edge_wf(e as int));
                                }
                                let ghost s2 = *self;
                                self.set_edge_side(e, is_left, Some(k), grandson);
                                proof {
                                    Self::lemma_stable_trans(&installed, &s2, self);
                                    Self::lemma_stable_coupled(&installed, self, interface);
                                }
                                j = j + 1;
                            }
                            proof {
                                assert(sp.hosted_index(child) == Some(ci));
                                assert(self.hosted_boundary(child) == cb);
                                assert(cb.take(n as int) =~= cb);
                                assert forall|i: int| 0 <= i < circle.take(c as int).len() implies sp.spec_dual_node_index(
                                    #[trigger] circle.take(c as int)[i],
                                ) != Some(k) by {
                                    assert(circle.take(c as int)[i] == circle[i]);
                                }
                                Self::lemma_circle_boundary_frame(&sp, self, circle.take(c as int), k as int);
                            }
                        },
                        None => {
                            proof {
                                assert(self.hosted_boundary(child) =~= Seq::empty());
                                assert(sp.boundary_of(k as int) + Seq::<(bool, EdgeIndex)>::empty() =~= sp.boundary_of(k as int));
                            }
                        },
                    }
                    proof {
                        Self::lemma_stable_coupled(&installed, self, interface);
                        assert(circle.take(c + 1).drop_last() =~= circle.take(c as int));
                        assert(circle.take(c + 1).last() == child);
                        assert(self.spec_dual_node_index(child) != Some(k));
                        Self::lemma_circle_separate_frame(&sp, self, circle);
                        Self::lemma_circle_separate_frame(&s0, self, circle);
                        if self.circle_separate(circle) {
                            assert(s0.boundary_of(k as int) == s0.circle_boundary(circle.take(c as int)));
                            assert(sp.boundary_of(k as int) == s0.boundary_of(k as int));
                            assert(sp.circle_boundary(circle.take(c as int)) == s0.circle_boundary(circle.take(c as int)));
                            assert(self.circle_boundary(circle.take(c as int)) == sp.circle_boundary(circle.take(c as int)));
                            assert(self.boundary_of(k as int) =~= sp.boundary_of(k as int) + self.hosted_boundary(child));
                            assert(self.circle_boundary(circle.take(c + 1)) == self.circle_boundary(circle.take(c as int))
                                + self.hosted_boundary(child));
                        }
                    }
                    c = c + 1;
                }
            },
            DualNodeClass::DefectVertex { defect_index } => {
                let vertex_index = match self.get_vertex_index(*defect_index) {
                    Some(v) => v,
                    None => *defect_index,
                };
                proof {
                    assert(vertex_index == defect_index);
                }
                let ghost s0 = *self;
                self.dynamic_clear_vertex(vertex_index);
                let ghost s1 = *self;
                self.set_vertex_propagation(vertex_index, Some(k), Some(k));
                let ghost s2 = *self;
                self.set_vertex_defect(vertex_index);
                proof {
                    Self::lemma_stable_trans(&installed, &s0, &s1);
                    Self::lemma_stable_trans(&installed, &s1, &s2);
                    Self::lemma_stable_trans(&installed, &s2, self);
                    assert(self.vertex_wf(vertex_index as int));
                }
                let m = self.vertices[vertex_index].edges.len();
                let mut t: usize = 0;
                while t < m
                    invariant
                        self.wf(),
                        installed.wf(),
                        self.stable(&installed),
                        k < self.nodes@.len(),
                        self.nodes@[k as int] is Some,
                        vertex_index < self.vertices@.len(),
                        self.vertex_wf(vertex_index as int),
                        m == self.vertices@[vertex_index as int].edges@.len(),
                        self.vertices@[vertex_index as int].propagated_dual_node == Some(k),
                        self.vertices@[vertex_index as int].is_defect,
                        self.active_list@ == installed.active_list@,
                        t <= m,
                        self.boundary_of(k as int).len() == t,
                        forall|x: int|
                            0 <= x < t ==> {
                                let e = self.vertices@[vertex_index as int].edges@[x];
                                #[trigger] self.boundary_of(k as int)[x] == (self.edges@[e as int].left
                                    == vertex_index, e)
                            },
                    decreases m - t,
                {
                    proof {
                        assert(self.vertex_wf(vertex_index as int));
                    }
                    let e = self.vertices[vertex_index].edges[t];
                    let ghost s3 = *self;
                    self.dynamic_clear_edge(e);
                    proof {
                        Self::lemma_stable_trans(&installed, &s3, self);
                    }
                    let is_left = self.edges[e].left == vertex_index;
                    let ghost s4 = *self;
                    self.set_edge_side(e, is_left, Some(k), Some(k));
                    proof {
                        Self::lemma_stable_trans(&installed, &s4, self);
                    }
                    let ghost s5 = *self;
                    self.push_node_boundary(k, is_left, e);
                    proof {
                        Self::lemma_stable_trans(&installed, &s5, self);
                        assert forall|x: int| 0 <= x < t + 1 implies {
                            let e = self.vertices@[vertex_index as int].edges@[x];
                            #[trigger] self.boundary_of(k as int)[x] == (self.edges@[e as int].left
                                == vertex_index, e)
                        } by {
                            if x < t {
                                assert(self.boundary_of(k as int)[x] == s3.boundary_of(k as int)[x]);
                            }
                        }
                    }
                    t = t + 1;
                }
                proof {
                    Self::lemma_stable_coupled(&installed, self, interface);
                }
            },
        }
        let ghost s6 = *self;
        self.push_active(k);
        proof {
            if let DualNodeClass::Blossom { nodes_circle, .. } = interface.node(dual_node_ptr.index as int).class {
                assert(nodes_circle@.take(nodes_circle@.len() as int) =~= nodes_circle@);
                Self::lemma_circle_boundary_same_nodes(&s6, self, nodes_circle@);
                Self::lemma_circle_separate_frame(&s6, self, nodes_circle@);
            }
            Self::lemma_stable_coupled(&installed, &s6, interface);
            assert(s6.stable(&installed));
            assert forall|e: int| 0 <= e < self.edges@.len() implies #[trigger] self.edge_triples()[e]
                == start.edge_triples()[e] by {
                assert(s6.edges@[e].weight == installed.edges@[e].weight);
            }
            assert(self.edge_triples() =~= start.edge_triples());
        }
    }
}


impl DualModuleSerial {
    /// the growth of edge `e` on one side, once the edge is up to date
    fn set_edge_growth(&mut self, e: usize, is_left: bool, growth: Weight)
        requires
            old(self).wf(),
            e < old(self).edges@.len(),
            old(self).edges@[e as int].timestamp == old(self).active_timestamp,
            0 <= growth <= DUAL_BOUND,
        ensures
            final(self).wf(),
            final(self).vertices@ == old(self).vertices@,
            final(self).nodes@ == old(self).nodes@,
            final(self).nodes_length == old(self).nodes_length,
            final(self).active_timestamp == old(self).active_timestamp,
            final(self).active_list == old(self).active_list,
            final(self).unit_module_info == old(self).unit_module_info,
            final(self).frame_unchanged(old(self)),
            final(self).sync_requests@ == old(self).sync_requests@,
            final(self).edges@.len() == old(self).edges@.len(),
            forall|f: int|
                0 <= f < final(self).edges@.len() && f != e ==> final(self).edges@[f]
                    == old(self).edges@[f],
            final(self).edges@[e as int].weight == old(self).edges@[e as int].weight,
            final(self).edges@[e as int].left == old(self).edges@[e as int].left,
            final(self).edges@[e as int].right == old(self).edges@[e as int].right,
            final(self).edges@[e as int].edge_index == old(self).edges@[e as int].edge_index,
            final(self).edges@[e as int].left_dual_node == old(self).edges@[e as int].left_dual_node,
            final(self).edges@[e as int].right_dual_node == old(self).edges@[e as int].right_dual_node,
            final(self).edges@[e as int].timestamp == old(self).edges@[e as int].timestamp,
            final(self).growth_of(e as int, is_left) == growth,
            final(self).growth_of(e as int, !is_left) == old(self).growth_of(e as int, !is_left),
    {
        let ghost pre = *self;
        assert(pre.edge_wf(e as int));
        if is_left {
            self.edges[e].left_growth = growth;
        } else {
            self.edges[e].right_growth = growth;
        }
        assert(self.edge_wf(e as int));
        proof {
            Self::lemma_wf_preserved(&pre, self);
        }
    }

    /// the dual variable of internal node `k`
    fn set_node_dual_variable(&mut self, k: usize, dual_variable: Weight)
        requires
            old(self).wf(),
            k < old(self).nodes@.len(),
            old(self).nodes@[k as int] is Some,
            -DUAL_BOUND <= dual_variable <= DUAL_BOUND,
        ensures
            final(self).wf(),
            final(self).vertices@ == old(self).vertices@,
            final(self).edges@ == old(self).edges@,
            final(self).nodes_length == old(self).nodes_length,
            final(self).active_timestamp == old(self).active_timestamp,
            final(self).active_list == old(self).active_list,
            final(self).unit_module_info == old(self).unit_module_info,
            final(self).frame_unchanged(old(self)),
            final(self).sync_requests@ == old(self).sync_requests@,
            final(self).nodes@.len() == old(self).nodes@.len(),
            final(self).nodes@[k as int] == Some(
                DualNodeInternal { dual_variable, ..old(self).nodes@[k as int]->Some_0 },
            ),
            forall|j: int|
                0 <= j < final(self).nodes@.len() && j != k ==> final(self).nodes@[j] == old(self).nodes@[j],
    {
        let ghost pre = *self;
        assert(pre.node_wf(k as int));
        match &mut self.nodes[k] {
            Some(node) => {
                node.dual_variable = dual_variable;
            },
            None => {},
        }
        proof {
            assert(self.node_wf(k as int));
            Self::lemma_wf_preserved(&pre, self);
        }
    }

    /// how much the last over-grown vertex of internal node `k` is over-grown
    fn set_overgrown_top(&mut self, k: usize, overgrown: Weight)
        requires
            old(self).wf(),
            k < old(self).nodes@.len(),
            old(self).nodes@[k as int] is Some,
            old(self).nodes@[k as int]->Some_0.overgrown_stack@.len() > 0,
            -DUAL_BOUND <= overgrown <= DUAL_BOUND,
        ensures
            final(self).wf(),
            final(self).stable(old(self)),
            final(self).vertices@ == old(self).vertices@,
            final(self).edges@ == old(self).edges@,
            final(self).frame_unchanged(old(self)),
            final(self).sync_requests@ == old(self).sync_requests@,
            final(self).boundary_of(k as int) == old(self).boundary_of(k as int),
            ({
                let st = old(self).nodes@[k as int]->Some_0.overgrown_stack@;
                final(self).nodes@[k as int]->Some_0.overgrown_stack@ == st.update(
                    st.len() - 1,
                    (st.last().0, overgrown),
                )
            }),
            final(self).nodes@[k as int]->Some_0.dual_variable == old(self).nodes@[k as int]->Some_0.dual_variable,
            final(self).nodes@[k as int]->Some_0.origin == old(self).nodes@[k as int]->Some_0.origin,
            forall|j: int|
                0 <= j < final(self).nodes@.len() && j != k ==> final(self).nodes@[j] == old(self).nodes@[j],
    {
        let ghost pre = *self;
        assert(pre.node_wf(k as int));
        match &mut self.nodes[k] {
            Some(node) => {
                let last = node.overgrown_stack.len() - 1;
                let vertex = node.overgrown_stack[last].0;
                node.overgrown_stack.set(last, (vertex, overgrown));
            },
            None => {},
        }
        proof {
            assert(self.node_wf(k as int)) by {
                let st = self.nodes@[k as int]->Some_0.overgrown_stack@;
                let st0 = pre.nodes@[k as int]->Some_0.overgrown_stack@;
                assert forall|j: int| 0 <= j < st.len() implies (#[trigger] st[j]).0 < self.vertices@.len()
                    && -DUAL_BOUND <= st[j].1 <= DUAL_BOUND by {
                    if j < st.len() - 1 {
                        assert(st[j] == st0[j]);
                    } else {
                        assert(st[j].0 == st0[j].0);
                    }
                }
            }
            Self::lemma_wf_preserved(&pre, self);
        }
    }

    /// internal node `k` changes its grow state: when it starts to grow or shrink from staying,
    /// it joins the active list
    pub fn set_grow_state(
        &mut self,
        interface: &DualModuleInterface,
        dual_node_ptr: &DualNodePtr,
        grow_state: DualNodeGrowState,
    )
        requires
            old(self).wf(),
            interface.wf(),
            old(self).coupled_prefix(interface),
            dual_node_ptr.index < old(self).nodes_length,
            interface.is_live(dual_node_ptr.index as int),
        ensures
            final(self).wf(),
            final(self).same_shape(old(self)),
            final(self).vertices@ == old(self).vertices@,
            final(self).edges@ == old(self).edges@,
            final(self).nodes@ == old(self).nodes@,
            final(self).active_list@ == if interface.node(dual_node_ptr.index as int).grow_state
                == DualNodeGrowState::Stay && grow_state != DualNodeGrowState::Stay {
                old(self).active_list@.push(dual_node_ptr.index)
            } else {
                old(self).active_list@
            },
    {
        let current = match &interface.nodes[dual_node_ptr.index] {
            Some(node) => node.grow_state,
            None => DualNodeGrowState::Stay,
        };
        if current == DualNodeGrowState::Stay && grow_state != DualNodeGrowState::Stay {
            let k = self.get_dual_node_internal_ptr(interface, dual_node_ptr);
            self.push_active(k);
        }
    }
}


/// counting one more entry of a boundary
pub proof fn lemma_boundary_count_step(boundary: Seq<(bool, EdgeIndex)>, j: int, is_left: bool, e: int)
    requires
        0 <= j < boundary.len(),
    ensures
        boundary_count(boundary.take(j + 1), is_left, e) == boundary_count(boundary.take(j), is_left, e)
            + if boundary[j].0 == is_left && boundary[j].1 as int == e {
            1nat
        } else {
            0nat
        },
{
    assert(boundary.take(j + 1).drop_last() =~= boundary.take(j));
}

/// whether growing by `length` grows the node rather than shrinking it
pub open spec fn growing(length: Weight) -> bool {
    length > 0
}

impl DualModuleSerial {
    /// grow internal node `k` of `dual_node_ptr` by `length` (shrink when negative): its dual
    /// variable and every edge of its boundary on its side change by `length`; an edge grown over
    /// its weight from two different nodes, a negative growth or a value out of range is refused
    pub fn grow_dual_node(
        &mut self,
        interface: &DualModuleInterface,
        dual_node_ptr: &DualNodePtr,
        length: Weight,
    ) -> (r: Result<(), GrowError>)
        requires
            old(self).wf(),
            interface.wf(),
            old(self).coupled(interface),
            interface.is_live(dual_node_ptr.index as int),
        ensures
            final(self).edge_modifier == old(self).edge_modifier,
            r is Ok && length != 0 ==> exists|prepared: Self, trace: Seq<Self>, results: Seq<bool>|
                #[trigger] prepared.prepared_by_rounds(old(self), dual_node_ptr.index as int, growing(length), trace, results)
                    && final(self).boundary_of(dual_node_ptr.index as int) == prepared.boundary_of(dual_node_ptr.index as int),
            final(self).wf(),
            final(self).coupled(interface),
            final(self).vertices@.len() == old(self).vertices@.len(),
            final(self).edges@.len() == old(self).edges@.len(),
            final(self).nodes@.len() == old(self).nodes@.len(),
            final(self).active_list == old(self).active_list,
            final(self).active_timestamp == old(self).active_timestamp,
            forall|j: int|
                0 <= j < final(self).nodes@.len() ==> (#[trigger] final(self).nodes@[j]) is Some
                    == old(self).nodes@[j] is Some,
            forall|j: int|
                0 <= j < final(self).nodes@.len() && j != dual_node_ptr.index && final(self).nodes@[j] is Some
                    ==> (#[trigger] final(self).nodes@[j])->Some_0.dual_variable == old(self).nodes@[j]->Some_0.dual_variable,
            forall|e: int|
                0 <= e < final(self).edges@.len() ==> (#[trigger] final(self).edges@[e]).weight
                    == old(self).edges@[e].weight,
            r matches Err(error) ==> final(self).grow_failure(dual_node_ptr.index as int, length as int, error),
            r is Ok ==> final(self).nodes@[dual_node_ptr.index as int]->Some_0.dual_variable == old(
                self).nodes@[dual_node_ptr.index as int]->Some_0.dual_variable + length,
            r is Ok ==> forall|e: int, is_left: bool|
                0 <= e < final(self).edges@.len() ==> #[trigger] final(self).growth_of(e, is_left)
                    == old(self).growth_of(e, is_left) + length * boundary_count(
                    final(self).boundary_of(dual_node_ptr.index as int),
                    is_left,
                    e,
                ),
    {
        if length == 0 {
            proof {
                assert forall|e: int, is_left: bool|
                    0 <= e < self.edges@.len() implies #[trigger] self.growth_of(e, is_left)
                    == old(self).growth_of(e, is_left) + length * boundary_count(
                    self.boundary_of(dual_node_ptr.index as int),
                    is_left,
                    e,
                ) by {
                    assert(length * boundary_count(self.boundary_of(dual_node_ptr.index as int), is_left, e) == 0);
                }
            }
            return Ok(());
        }
        let ghost start = *self;
        self.prepare_dual_node_growth(interface, dual_node_ptr, length > 0);
        let k = self.get_dual_node_internal_ptr(interface, dual_node_ptr);
        let ghost prepared = *self;
        let ghost g: bool = growing(length);
        let ghost (trace, results) = choose|trace: Seq<Self>, results: Seq<bool>|
            #[trigger] prepared.prepared_by_rounds(&start, dual_node_ptr.index as int, g, trace, results);
        proof {
            Self::lemma_stable_coupled(&start, self, interface);
            assert(prepared.prepared_by_rounds(&start, dual_node_ptr.index as int, g, trace, results));
        }
        // update node dual variable
        let dual_variable = match &self.nodes[k] {
            Some(node) => node.dual_variable,
            None => 0,
        };
        proof {
            assert(self.node_wf(k as int));
        }
        let new_dual_variable = match dual_variable.checked_add(length) {
            Some(v) => v,
            None => {
                return Err(GrowError::Overflow);
            },
        };
        if new_dual_variable < -DUAL_BOUND || new_dual_variable > DUAL_BOUND {
            return Err(GrowError::Overflow);
        }
        self.set_node_dual_variable(k, new_dual_variable);
        // update over-grown vertices
        match self.last_overgrown(k) {
            Some((_, overgrown)) => {
                let new_overgrown = match overgrown.checked_add(length) {
                    Some(v) => v,
                    None => {
                        return Err(GrowError::Overflow);
                    },
                };
                if new_overgrown < -DUAL_BOUND || new_overgrown > DUAL_BOUND {
                    return Err(GrowError::Overflow);
                }
                self.set_overgrown_top(k, new_overgrown);
            },
            None => {},
        }
        let ghost updated = *self;
        proof {
            Self::lemma_stable_coupled(&start, &prepared, interface);
            assert(updated.boundary_of(k as int) == prepared.boundary_of(k as int));
            assert forall|e: int, is_left: bool|
                0 <= e < self.edges@.len() implies #[trigger] self.growth_of(e, is_left)
                == prepared.growth_of(e, is_left) + length * boundary_count(
                self.boundary_of(k as int).take(0),
                is_left,
                e,
            ) by {
                assert(self.boundary_of(k as int).take(0) =~= Seq::<(bool, EdgeIndex)>::empty());
                assert(boundary_count(self.boundary_of(k as int).take(0), is_left, e) == 0);
                assert(self.edges@ == prepared.edges@);
                assert(length * 0 == 0);
            }
        }
        let n = self.boundary_len(k);
        let mut j: usize = 0;
        while j < n
            invariant
                self.wf(),
                prepared.wf(),
                interface.wf(),
                start == *old(self),
                self.edge_modifier == start.edge_modifier,
                g == growing(length),
                prepared.prepared_by_rounds(&start, dual_node_ptr.index as int, g, trace, results),
                prepared.stable(&start),
                self.coupled(interface),
                forall|x: int|
                    0 <= x < self.nodes@.len() && x != k ==> #[trigger] updated.nodes@[x]
                        == prepared.nodes@[x],
                updated.nodes@.len() == prepared.nodes@.len(),
                updated.nodes@[k as int] is Some,
                prepared.nodes@[k as int] is Some,
                updated.nodes@[k as int]->Some_0.dual_variable == prepared.nodes@[k as int]->Some_0.dual_variable + length,
                k < self.nodes@.len(),
                k == dual_node_ptr.index,
                self.nodes@[k as int] is Some,
                n == self.boundary_of(k as int).len(),
                self.boundary_of(k as int) == prepared.boundary_of(k as int),
                self.nodes@ == updated.nodes@,
                self.vertices@.len() == prepared.vertices@.len(),
                self.edges@.len() == prepared.edges@.len(),
                self.nodes_length == prepared.nodes_length,
                self.active_timestamp == prepared.active_timestamp,
                self.active_list == prepared.active_list,
                self.unit_module_info == prepared.unit_module_info,
                self.owning_range == prepared.owning_range,
                forall|v: int|
                    0 <= v < self.vertices@.len() ==> (#[trigger] self.vertices@[v]).vertex_index
                        == prepared.vertices@[v].vertex_index,
                forall|e: int|
                    0 <= e < self.edges@.len() ==> (#[trigger] self.edges@[e]).weight
                        == prepared.edges@[e].weight,
                j <= n,
                forall|e: int, is_left: bool|
                    0 <= e < self.edges@.len() ==> #[trigger] self.growth_of(e, is_left)
                        == prepared.growth_of(e, is_left) + length * boundary_count(
                        self.boundary_of(k as int).take(j as int),
                        is_left,
                        e,
                    ),
            decreases n - j,
        {
            let (is_left, e) = self.boundary_entry(k, j);
            let ghost s0 = *self;
            self.dynamic_clear_edge(e);
            let ghost s1 = *self;
            proof {
                assert(self.edge_wf(e as int));
            }
            let growth = if is_left {
                self.edges[e].left_growth
            } else {
                self.edges[e].right_growth
            };
            let new_growth = match growth.checked_add(length) {
                Some(g) => g,
                None => {
                    return Err(GrowError::Overflow);
                },
            };
            if new_growth < 0 {
                return Err(GrowError::UnderGrownEdge);
            }
            if new_growth > DUAL_BOUND {
                return Err(GrowError::Overflow);
            }
            self.set_edge_growth(e, is_left, new_growth);
            proof {
                lemma_boundary_count_step(self.boundary_of(k as int), j as int, is_left, e as int);
                assert forall|f: int, side: bool|
                    0 <= f < self.edges@.len() implies #[trigger] self.growth_of(f, side)
                    == prepared.growth_of(f, side) + length * boundary_count(
                    self.boundary_of(k as int).take(j + 1),
                    side,
                    f,
                ) by {
                    lemma_boundary_count_step(self.boundary_of(k as int), j as int, side, f);
                    let c = boundary_count(self.boundary_of(k as int).take(j as int), side, f);
                    assert(length * (c + 1) == length * c + length) by (nonlinear_arith);
                    assert(s0.growth_of(f, side) == prepared.growth_of(f, side) + length * c);
                    assert(s1.growth_of(f, side) == s0.growth_of(f, side));
                    assert(self.boundary_of(k as int)[j as int] == (is_left, e));

                    let c1 = boundary_count(self.boundary_of(k as int).take(j + 1), side, f);
                    if f == e && side == is_left {
                        assert(self.growth_of(f, side) == s1.growth_of(f, side) + length);
                        assert(c1 == c + 1);
                        assert(self.growth_of(f, side) == prepared.growth_of(f, side) + length * c1);
                    } else if f == e {
                        assert(self.growth_of(f, side) == s1.growth_of(f, side));
                        assert(c1 == c);
                    } else {
                        assert(self.edges@[f] == s1.edges@[f]);
                        assert(self.growth_of(f, side) == s1.growth_of(f, side));
                        assert(c1 == c);
                    }
                }
            }
            assert(self.edge_wf(e as int));
            let total = self.edges[e].left_growth + self.edges[e].right_growth;
            if total > self.edges[e].weight {
                // first check for if both side belongs to the same dual node, if so, it's ok
                let other = if is_left {
                    self.edges[e].right_dual_node
                } else {
                    self.edges[e].left_dual_node
                };
                if other != Some(k) {
                    return Err(GrowError::OverGrownEdge);
                }
            }
            j = j + 1;
        }
        proof {
            assert(self.boundary_of(k as int).take(n as int) =~= self.boundary_of(k as int));
        }
        Ok(())
    }
}


impl DualModuleSerial {
    /// internal node `k` is live and its dual node grows or shrinks
    pub open spec fn is_moving(&self, interface: &DualModuleInterface, k: int) -> bool {
        &&& 0 <= k < self.nodes_length
        &&& self.nodes@[k] is Some
        &&& interface.node(k).grow_state != DualNodeGrowState::Stay
    }

    /// mark internal node `k` as visited in `cycle`
    fn set_last_visit(&mut self, k: usize, cycle: usize)
        requires
            old(self).wf(),
            k < old(self).nodes@.len(),
            old(self).nodes@[k as int] is Some,
            cycle <= old(self).current_cycle,
        ensures
            final(self).wf(),
            final(self).stable(old(self)),
            final(self).vertices@ == old(self).vertices@,
            final(self).edges@ == old(self).edges@,
            final(self).nodes_length == old(self).nodes_length,
            final(self).frame_unchanged(old(self)),
            final(self).sync_requests@ == old(self).sync_requests@,
            final(self).nodes@[k as int]->Some_0.last_visit_cycle == cycle,
            final(self).prepared_parts(k as int) == old(self).prepared_parts(k as int),
            forall|j: int|
                0 <= j < final(self).nodes@.len() && j != k ==> final(self).nodes@[j] == old(self).nodes@[j],
    {
        let ghost pre = *self;
        assert(pre.node_wf(k as int));
        match &mut self.nodes[k] {
            Some(node) => {
                node.last_visit_cycle = cycle;
            },
            None => {},
        }
        proof {
            assert(self.node_wf(k as int));
            Self::lemma_wf_preserved(&pre, self);
        }
    }

    /// the last cycle in which internal node `k` was visited
    fn last_visit(&self, k: usize) -> (r: usize)
        requires
            k < self.nodes@.len(),
            self.nodes@[k as int] is Some,
        ensures
            r == self.nodes@[k as int]->Some_0.last_visit_cycle,
    {
        match &self.nodes[k] {
            Some(node) => node.last_visit_cycle,
            None => 0,
        }
    }

    /// increment the global cycle so that each node in the active list can be accessed exactly
    /// once: the new active list holds each node of the old one that still grows or shrinks,
    /// exactly once
    pub fn renew_active_list(&mut self, interface: &DualModuleInterface)
        requires
            old(self).wf(),
            interface.wf(),
            old(self).coupled(interface),
        ensures
            final(self).wf(),
            final(self).same_shape(old(self)),
            final(self).coupled(interface),
            final(self).vertices@ == old(self).vertices@,
            final(self).edges@ == old(self).edges@,
            forall|k: int| 0 <= k < final(self).nodes@.len() ==> #[trigger] final(self).prepared_parts(k) == old(self).prepared_parts(k),
            forall|j: int|
                0 <= j < final(self).active_list@.len() ==> final(self).is_moving(
                    interface,
                    #[trigger] final(self).active_list@[j] as int,
                ),
            forall|i: int, j: int|
                0 <= i < j < final(self).active_list@.len() ==> final(self).active_list@[i]
                    != final(self).active_list@[j],
            forall|k: usize|
                old(self).active_list@.contains(k) && final(self).is_moving(interface, k as int)
                    ==> final(self).active_list@.contains(k),
    {
        let ghost start = *self;
        if self.current_cycle == usize::MAX {
            let mut i: usize = 0;
            while i < self.nodes.len()
                invariant
                    self.wf(),
                    start.wf(),
                    self.stable(&start),
                    self.vertices@ == start.vertices@,
                    self.edges@ == start.edges@,
                    forall|x: int| 0 <= x < self.nodes@.len() ==> #[trigger] self.prepared_parts(x) == start.prepared_parts(x),
                forall|x: int| 0 <= x < self.nodes@.len() ==> #[trigger] self.prepared_parts(x) == start.prepared_parts(x),
                    self.frame_unchanged(&start),
                    i <= self.nodes@.len(),
                    forall|j: int|
                        0 <= j < i && self.nodes@[j] is Some ==> #[trigger] self.nodes@[j]->Some_0.last_visit_cycle
                            == 0,
                decreases self.nodes@.len() - i,
            {
                if self.nodes[i].is_some() {
                    let ghost s0 = *self;
                    self.set_last_visit(i, 0);
                    proof {
                        Self::lemma_stable_trans(&start, &s0, self);
                        assert forall|x: int| 0 <= x < self.nodes@.len() implies #[trigger] self.prepared_parts(x) == start.prepared_parts(x) by {
                            assert(s0.prepared_parts(x) == start.prepared_parts(x));
                            if x != i as int {
                                assert(self.nodes@[x] == s0.nodes@[x]);
                            }
                        }
                    }
                }
                i = i + 1;
            }
            let ghost pre = *self;
            self.current_cycle = 0;
            proof {
                assert forall|x: int| 0 <= x < self.nodes@.len() implies #[trigger] self.prepared_parts(x) == start.prepared_parts(x) by {
                    assert(pre.prepared_parts(x) == start.prepared_parts(x));
                }
                assert forall|j: int| 0 <= j < self.nodes@.len() implies #[trigger] self.node_wf(j) by {
                    assert(pre.node_wf(j));
                }
                assert forall|v: int| 0 <= v < self.vertices@.len() implies #[trigger] self.vertex_wf(v) by {
                    assert(pre.vertex_wf(v));
                }
                assert forall|e: int| 0 <= e < self.edges@.len() implies #[trigger] self.edge_wf(e) by {
                    assert(pre.edge_wf(e));
                }
            }
        }
        let ghost mid = *self;
        self.current_cycle = self.current_cycle + 1;
        proof {
            assert forall|x: int| 0 <= x < self.nodes@.len() implies #[trigger] self.prepared_parts(x) == start.prepared_parts(x) by {
                assert(mid.prepared_parts(x) == start.prepared_parts(x));
            }
            Self::lemma_wf_preserved(&mid, self);
            assert forall|k: int|
                0 <= k < self.nodes@.len() && self.nodes@[k] is Some implies #[trigger] self.nodes@[k]->Some_0.last_visit_cycle
                < self.current_cycle by {
                assert(mid.node_wf(k));
            }
        }
        let cycle = self.current_cycle;
        let mut updated_active_list: Vec<usize> = Vec::new();
        let n = self.active_list.len();
        let mut i: usize = 0;
        while i < n
            invariant
                self.wf(),
                interface.wf(),
                start.wf(),
                start.coupled(interface),
                self.same_shape(&start),
                self.active_list == start.active_list,
                self.vertices@ == start.vertices@,
                self.edges@ == start.edges@,
                forall|x: int| 0 <= x < self.nodes@.len() ==> #[trigger] self.prepared_parts(x) == start.prepared_parts(x),
                self.current_cycle == cycle,
                n == self.active_list@.len(),
                i <= n,
                forall|j: int|
                    0 <= j < updated_active_list@.len() ==> self.is_moving(
                        interface,
                        #[trigger] updated_active_list@[j] as int,
                    ) && self.nodes@[updated_active_list@[j] as int]->Some_0.last_visit_cycle
                        == cycle,
                forall|a: int, b: int|
                    0 <= a < b < updated_active_list@.len() ==> updated_active_list@[a]
                        != updated_active_list@[b],
                forall|k: int|
                    0 <= k < self.nodes@.len() && self.nodes@[k] is Some
                        && #[trigger] self.nodes@[k]->Some_0.last_visit_cycle == cycle ==> (
                    self.is_moving(interface, k) ==> updated_active_list@.contains(k as usize)),
                forall|p: int|
                    0 <= p < i && self.active_list@[p] < self.nodes_length && self.nodes@[
                        self.active_list@[p] as int
                    ] is Some ==> #[trigger] self.nodes@[self.active_list@[p] as int]->Some_0.last_visit_cycle
                        == cycle,
            decreases n - i,
        {
            let k = self.active_list[i];
            if k < self.nodes_length && self.nodes[k].is_some() && self.last_visit(k) != cycle {
                let ghost s0 = *self;
                self.set_last_visit(k, cycle);
                proof {
                    Self::lemma_stable_coupled(&start, self, interface);
                    assert forall|x: int| 0 <= x < self.nodes@.len() implies #[trigger] self.prepared_parts(x) == start.prepared_parts(x) by {
                        assert(s0.prepared_parts(x) == start.prepared_parts(x));
                        if x != k as int {
                            assert(self.nodes@[x] == s0.nodes@[x]);
                        }
                    }
                    assert(interface.is_live(k as int));
                }
                let grow_state = match &interface.nodes[k] {
                    Some(node) => node.grow_state,
                    None => DualNodeGrowState::Stay,
                };
                let ghost before = updated_active_list@;
                if grow_state != DualNodeGrowState::Stay {
                    updated_active_list.push(k);
                    proof {
                        assert(updated_active_list@[before.len() as int] == k);
                        assert forall|x: int|
                            0 <= x < self.nodes@.len() && self.nodes@[x] is Some
                                && #[trigger] self.nodes@[x]->Some_0.last_visit_cycle == cycle implies (
                        self.is_moving(interface, x) ==> updated_active_list@.contains(x as usize)) by {
                            if x != k && self.is_moving(interface, x) {
                                assert(s0.nodes@[x] == self.nodes@[x]);
                                let w = choose|w: int| 0 <= w < before.len() && before[w] == x as usize;
                                assert(updated_active_list@[w] == x as usize);
                            }
                        }
                    }
                } else {
                    proof {
                        assert forall|x: int|
                            0 <= x < self.nodes@.len() && self.nodes@[x] is Some
                                && #[trigger] self.nodes@[x]->Some_0.last_visit_cycle == cycle implies (
                        self.is_moving(interface, x) ==> updated_active_list@.contains(x as usize)) by {
                            if x != k {
                                assert(s0.nodes@[x] == self.nodes@[x]);
                            }
                        }
                    }
                }
            }
            i = i + 1;
        }
        let ghost pre = *self;
        self.active_list = updated_active_list;
        proof {
            assert forall|x: int| 0 <= x < self.nodes@.len() implies #[trigger] self.prepared_parts(x) == start.prepared_parts(x) by {
                assert(pre.prepared_parts(x) == start.prepared_parts(x));
            }
            Self::lemma_wf_preserved(&pre, self);
            Self::lemma_stable_coupled(&start, self, interface);
            assert forall|k: usize|
                start.active_list@.contains(k) && self.is_moving(interface, k as int) implies self.active_list@.contains(
                k,
            ) by {
                let p = choose|p: int| 0 <= p < start.active_list@.len() && start.active_list@[p] == k;
                assert(pre.active_list@[p] == k);
                assert(pre.nodes@[k as int]->Some_0.last_visit_cycle == cycle);
            }
        }
    }
}


impl DualModuleSerial {
    /// every dual node that grows or shrinks is in the active list
    pub open spec fn active_covers(&self, interface: &DualModuleInterface) -> bool {
        forall|k: int| #[trigger] self.is_moving(interface, k) ==> self.active_list@.contains(k as usize)
    }

    /// the dual variable of the live internal node `k`
    pub open spec fn dual_of(&self, k: int) -> int {
        self.nodes@[k]->Some_0.dual_variable as int
    }

    /// `k` occurs among the first `i` entries of `s`
    pub open spec fn in_prefix(s: Seq<usize>, i: int, k: int) -> bool {
        exists|p: int| 0 <= p < i && #[trigger] s[p] as int == k
    }

    /// extending a prefix of a list without repetitions by one entry adds exactly that entry
    proof fn lemma_in_prefix_step(s: Seq<usize>, i: int)
        requires
            0 <= i < s.len(),
            forall|a: int, b: int| 0 <= a < b < s.len() ==> s[a] != s[b],
        ensures
            forall|x: int| #[trigger]
                Self::in_prefix(s, i + 1, x) == (Self::in_prefix(s, i, x) || s[i] as int == x),
            !Self::in_prefix(s, i, s[i] as int),
    {
        assert forall|x: int| #[trigger]
            Self::in_prefix(s, i + 1, x) == (Self::in_prefix(s, i, x) || s[i] as int == x) by {
            if Self::in_prefix(s, i + 1, x) {
                let p = choose|p: int| 0 <= p < i + 1 && #[trigger] s[p] as int == x;
                if p < i {
                    assert(Self::in_prefix(s, i, x));
                }
            }
            if Self::in_prefix(s, i, x) {
                let p = choose|p: int| 0 <= p < i && #[trigger] s[p] as int == x;
                assert(s[p] as int == x);
            }
            if s[i] as int == x {
                assert(s[i] as int == x);
            }
        }
        if Self::in_prefix(s, i, s[i] as int) {
            let p = choose|p: int| 0 <= p < i && #[trigger] s[p] as int == s[i] as int;
            assert(s[p] == s[i]);
        }
    }

    /// grow every dual node in the active list by `length` in the direction of its grow state,
    /// the shrinking nodes first; each growing or shrinking node changes its dual variable once
    pub fn grow(&mut self, interface: &DualModuleInterface, length: Weight) -> (r: Result<(), GrowError>)
        requires
            old(self).wf(),
            interface.wf(),
            old(self).coupled(interface),
            old(self).active_covers(interface),
            length > 0,
        ensures
            final(self).edge_modifier == old(self).edge_modifier,
            final(self).edges@.len() == old(self).edges@.len(),
            forall|e: int|
                0 <= e < final(self).edges@.len() ==> #[trigger] final(self).edges@[e].weight == old(self).edges@[
                    e
                ].weight,
            final(self).wf(),
            final(self).coupled(interface),
            r is Ok ==> final(self).active_covers(interface),
            r matches Err(error) ==> exists|k: int|
                0 <= k < final(self).nodes@.len() && #[trigger] final(self).grow_failure_either(
                    k,
                    length as int,
                    error,
                ),
            r is Ok ==> forall|k: int|
                0 <= k < final(self).nodes_length && #[trigger] final(self).nodes@[k] is Some
                    ==> final(self).dual_of(k) == old(self).dual_of(k) + length * interface.node(
                    k,
                ).grow_state.speed(),
    {
        let ghost start = *self;
        self.renew_active_list(interface);
        let ghost renewed = *self;
        proof {
            assert forall|k: int| #[trigger] self.is_moving(interface, k) implies self.active_list@.contains(
                k as usize,
            ) by {
                assert(start.is_moving(interface, k));
            }
        }
        let n = self.active_list.len();
        // first handle shrinks and then grow, to make sure they don't conflict
        let mut i: usize = 0;
        while i < n
            invariant
                self.wf(),
                interface.wf(),
                self.coupled(interface),
                renewed.wf(),
                self.edge_modifier == old(self).edge_modifier,
                self.edges@.len() == old(self).edges@.len(),
                forall|e: int|
                    0 <= e < self.edges@.len() ==> #[trigger] self.edges@[e].weight == old(self).edges@[e].weight,
                self.active_list == renewed.active_list,
                self.nodes_length == renewed.nodes_length,
                self.nodes@.len() == renewed.nodes@.len(),
                n == self.active_list@.len(),
                i <= n,
                length > 0,
                forall|j: int|
                    0 <= j < n ==> renewed.is_moving(interface, #[trigger] self.active_list@[j] as int),
                forall|a: int, b: int|
                    0 <= a < b < n ==> self.active_list@[a] != self.active_list@[b],
                forall|k: int|
                    0 <= k < self.nodes@.len() ==> (#[trigger] self.nodes@[k]) is Some
                        == renewed.nodes@[k] is Some,
                forall|k: int|
                    0 <= k < self.nodes_length && #[trigger] self.nodes@[k] is Some ==> self.dual_of(k)
                        == renewed.dual_of(k) - if interface.node(k).grow_state
                        == DualNodeGrowState::Shrink && Self::in_prefix(self.active_list@, i as int, k) {
                        length as int
                    } else {
                        0
                    },
            decreases n - i,
        {
            let k = self.active_list[i];
            proof {
                assert(renewed.is_moving(interface, k as int));
                assert(self.nodes@[k as int] is Some);
                assert(interface.is_live(k as int));
                Self::lemma_in_prefix_step(self.active_list@, i as int);
            }
            let grow_state = match &interface.nodes[k] {
                Some(node) => node.grow_state,
                None => DualNodeGrowState::Stay,
            };
            assert(grow_state == interface.node(k as int).grow_state);
            let ghost s0 = *self;
            if grow_state == DualNodeGrowState::Shrink {
                let origin = DualNodePtr { index: k };
                match self.grow_dual_node(interface, &origin, -length) {
                    Ok(()) => {},
                    Err(error) => {
                        assert(self.grow_failure_either(k as int, length as int, error));
                        assert(k < self.nodes@.len());
                        return Err(error);
                    },
                }
            }
            proof {
                assert forall|x: int|
                    0 <= x < self.nodes_length && #[trigger] self.nodes@[x] is Some implies self.dual_of(x)
                    == renewed.dual_of(x) - if interface.node(x).grow_state == DualNodeGrowState::Shrink
                    && Self::in_prefix(self.active_list@, i + 1, x) {
                    length as int
                } else {
                    0
                } by {
                    assert(s0.nodes@[x] is Some);
                    assert(grow_state == interface.node(k as int).grow_state);
                    if x == k as int {
                        assert(!Self::in_prefix(self.active_list@, i as int, x));
                    } else {
                        assert(self.dual_of(x) == s0.dual_of(x));
                    }
                    assert(Self::in_prefix(self.active_list@, i + 1, x) == (Self::in_prefix(
                        self.active_list@,
                        i as int,
                        x,
                    ) || k as int == x));
                }
            }
            i = i + 1;
        }
        let ghost shrunk = *self;
        // then grow those needed
        let mut i: usize = 0;
        while i < n
            invariant
                self.wf(),
                interface.wf(),
                self.coupled(interface),
                renewed.wf(),
                self.edge_modifier == old(self).edge_modifier,
                self.edges@.len() == old(self).edges@.len(),
                forall|e: int|
                    0 <= e < self.edges@.len() ==> #[trigger] self.edges@[e].weight == old(self).edges@[e].weight,
                self.active_list == renewed.active_list,
                self.nodes_length == renewed.nodes_length,
                self.nodes@.len() == renewed.nodes@.len(),
                n == self.active_list@.len(),
                i <= n,
                length > 0,
                forall|j: int|
                    0 <= j < n ==> renewed.is_moving(interface, #[trigger] self.active_list@[j] as int),
                forall|a: int, b: int|
                    0 <= a < b < n ==> self.active_list@[a] != self.active_list@[b],
                forall|k: int|
                    0 <= k < self.nodes@.len() ==> (#[trigger] self.nodes@[k]) is Some
                        == renewed.nodes@[k] is Some,
                forall|k: int|
                    0 <= k < self.nodes_length && #[trigger] self.nodes@[k] is Some ==> self.dual_of(k)
                        == shrunk.dual_of(k) + if interface.node(k).grow_state
                        == DualNodeGrowState::Grow && Self::in_prefix(self.active_list@, i as int, k) {
                        length as int
                    } else {
                        0
                    },
                forall|k: int|
                    0 <= k < self.nodes_length && #[trigger] shrunk.nodes@[k] is Some ==> shrunk.dual_of(k)
                        == renewed.dual_of(k) - if interface.node(k).grow_state
                        == DualNodeGrowState::Shrink && Self::in_prefix(self.active_list@, n as int, k) {
                        length as int
                    } else {
                        0
                    },
                forall|k: int|
                    0 <= k < self.nodes@.len() ==> (#[trigger] shrunk.nodes@[k]) is Some
                        == renewed.nodes@[k] is Some,
            decreases n - i,
        {
            let k = self.active_list[i];
            proof {
                assert(renewed.is_moving(interface, k as int));
                assert(self.nodes@[k as int] is Some);
                assert(interface.is_live(k as int));
                Self::lemma_in_prefix_step(self.active_list@, i as int);
            }
            let grow_state = match &interface.nodes[k] {
                Some(node) => node.grow_state,
                None => DualNodeGrowState::Stay,
            };
            assert(grow_state == interface.node(k as int).grow_state);
            let ghost s0 = *self;
            if grow_state == DualNodeGrowState::Grow {
                let origin = DualNodePtr { index: k };
                match self.grow_dual_node(interface, &origin, length) {
                    Ok(()) => {},
                    Err(error) => {
                        assert(self.grow_failure_either(k as int, length as int, error));
                        assert(k < self.nodes@.len());
                        return Err(error);
                    },
                }
            }
            proof {
                assert forall|x: int|
                    0 <= x < self.nodes_length && #[trigger] self.nodes@[x] is Some implies self.dual_of(x)
                    == shrunk.dual_of(x) + if interface.node(x).grow_state == DualNodeGrowState::Grow
                    && Self::in_prefix(self.active_list@, i + 1, x) {
                    length as int
                } else {
                    0
                } by {
                    assert(s0.nodes@[x] is Some);
                    assert(grow_state == interface.node(k as int).grow_state);
                    if x == k as int {
                        assert(!Self::in_prefix(self.active_list@, i as int, x));
                    } else {
                        assert(self.dual_of(x) == s0.dual_of(x));
                    }
                    assert(Self::in_prefix(self.active_list@, i + 1, x) == (Self::in_prefix(
                        self.active_list@,
                        i as int,
                        x,
                    ) || k as int == x));
                }
            }
            i = i + 1;
        }
        proof {
            assert forall|k: int|
                0 <= k < self.nodes_length && #[trigger] self.nodes@[k] is Some implies self.dual_of(k)
                == start.dual_of(k) + length * interface.node(k).grow_state.speed() by {
                assert(renewed.nodes@[k] is Some);
                assert(shrunk.nodes@[k] is Some);
                assert(renewed.dual_of(k) == start.dual_of(k));
                if interface.node(k).grow_state != DualNodeGrowState::Stay {
                    assert(renewed.is_moving(interface, k));
                    assert(self.active_list@.contains(k as usize));
                    let p = choose|p: int| 0 <= p < n && self.active_list@[p] == k as usize;
                    assert(self.active_list@[p] as int == k);
                    assert(Self::in_prefix(self.active_list@, n as int, k));
                }
            }
            assert forall|k: int| #[trigger] self.is_moving(interface, k) implies self.active_list@.contains(
                k as usize,
            ) by {
                assert(renewed.is_moving(interface, k));
            }
        }
        Ok(())
    }
}

/// the grow state of the interface node `ptr`, `Stay` where there is none
pub open spec fn state_of(interface: &DualModuleInterface, ptr: DualNodePtr) -> DualNodeGrowState {
    if ptr.index < interface.nodes@.len() && interface.nodes@[ptr.index as int] is Some {
        interface.nodes@[ptr.index as int]->Some_0.grow_state
    } else {
        DualNodeGrowState::Stay
    }
}

/// half of `x`, rounded towards zero
pub open spec fn half(x: int) -> int {
    if x >= 0 {
        x / 2
    } else {
        -((-x) / 2)
    }
}

/// whether a vertex is a mirror of a disabled unit
pub open spec fn mirror_blocked(vertex: Vertex) -> bool {
    vertex.mirror_unit matches Some((_, enabled)) && !enabled
}

fn state_of_exec(interface: &DualModuleInterface, ptr: &DualNodePtr) -> (r: DualNodeGrowState)
    ensures
        r == state_of(interface, *ptr),
{
    if ptr.index < interface.nodes.len() {
        match &interface.nodes[ptr.index] {
            Some(node) => node.grow_state,
            None => DualNodeGrowState::Stay,
        }
    } else {
        DualNodeGrowState::Stay
    }
}

fn half_exec(x: Weight) -> (r: Weight)
    requires
        -DUAL_BOUND * 4 <= x <= DUAL_BOUND * 4,
    ensures
        r == half(x as int),
{
    if x >= 0 {
        x / 2
    } else {
        -((-x) / 2)
    }
}

impl DualModuleSerial {
    /// the internal node recorded on one side of edge `e`, as seen at the active timestamp
    pub open spec fn edge_node(&self, e: int, is_left: bool) -> Option<usize> {
        let edge = self.edges@[e];
        if edge.timestamp != self.active_timestamp {
            None
        } else if is_left {
            edge.left_dual_node
        } else {
            edge.right_dual_node
        }
    }

    /// the grandson (defect) node recorded on one side of edge `e`, as seen at the active timestamp
    pub open spec fn edge_grandson(&self, e: int, is_left: bool) -> Option<usize> {
        let edge = self.edges@[e];
        if edge.timestamp != self.active_timestamp {
            None
        } else if is_left {
            edge.left_grandson_dual_node
        } else {
            edge.right_grandson_dual_node
        }
    }

    /// the part of edge `e` that no growth covers yet
    pub open spec fn remaining(&self, e: int) -> int {
        self.edges@[e].weight - self.growth_of(e, true) - self.growth_of(e, false)
    }

    /// the interface node that internal node `g` stands for, `fallback` where there is none
    pub open spec fn origin_or(&self, g: Option<usize>, fallback: DualNodePtr) -> DualNodePtr {
        match g {
            Some(x) => if x < self.nodes@.len() && self.nodes@[x as int] is Some {
                self.nodes@[x as int]->Some_0.origin
            } else {
                fallback
            },
            None => fallback,
        }
    }

    fn origin_or_exec(&self, g: Option<usize>, fallback: DualNodePtr) -> (r: DualNodePtr)
        ensures
            r == self.origin_or(g, fallback),
    {
        match g {
            Some(x) => if x < self.nodes.len() {
                match &self.nodes[x] {
                    Some(node) => node.origin,
                    None => fallback,
                }
            } else {
                fallback
            },
            None => fallback,
        }
    }

    /// what boundary entry `j` of internal node `k` (interface node `ptr`) says about changing its
    /// dual variable: a bound on the length (`None` where it sets none) and the event that stops
    /// the change where the bound is zero; growing, an edge towards a node of the same tree or a
    /// shrinking node sets no bound, one towards a growing node half of what remains, one towards
    /// a staying node or a vertex what remains, and a fully grown edge stops at a staying or
    /// growing node or at a virtual or blocked vertex; shrinking, an edge bounds it by its own
    /// growth on the node's side (an edge on the boundary without growth does not occur there)
    pub open spec fn entry_bound(
        &self,
        interface: &DualModuleInterface,
        k: int,
        j: int,
        is_grow: bool,
        ptr: DualNodePtr,
    ) -> (Option<int>, Option<MaxUpdateLength>) {
        let (is_left, e) = self.boundary_of(k)[j];
        let e = e as int;
        let edge = self.edges@[e];
        if !is_grow {
            (Some(self.growth_of(e, is_left)), None)
        } else {
            let remaining = self.remaining(e);
            let own_grandson = self.origin_or(self.edge_grandson(e, is_left), ptr);
            match self.edge_node(e, !is_left) {
                Some(p) => if p as int == k {
                    (None, None)
                } else {
                    let peer = self.origin_or(Some(p), DualNodePtr { index: p });
                    let peer_grandson = self.origin_or(self.edge_grandson(e, !is_left), peer);
                    let bound = match state_of(interface, peer) {
                        DualNodeGrowState::Grow => Some(half(remaining)),
                        DualNodeGrowState::Shrink => None,
                        DualNodeGrowState::Stay => Some(remaining),
                    };
                    if bound == Some(0int) {
                        (
                            bound,
                            Some(
                                MaxUpdateLength::Conflicting((peer, peer_grandson), (ptr, own_grandson)),
                            ),
                        )
                    } else {
                        (bound, None)
                    }
                },
                None => {
                    let peer_vertex = self.vertices@[if is_left {
                        edge.right as int
                    } else {
                        edge.left as int
                    }];
                    if remaining == 0 && (peer_vertex.is_virtual || mirror_blocked(peer_vertex)) {
                        (
                            Some(0int),
                            Some(
                                MaxUpdateLength::TouchingVirtual(
                                    (ptr, own_grandson),
                                    (peer_vertex.vertex_index, mirror_blocked(peer_vertex)),
                                ),
                            ),
                        )
                    } else {
                        (Some(remaining), None)
                    }
                },
            }
        }
    }

    /// the bound and the stopping event after the first `n` boundary entries of internal node `k`,
    /// starting from the bound `init`: the smallest bound, or the event of the first entry that
    /// stops the change
    pub open spec fn boundary_scan(
        &self,
        interface: &DualModuleInterface,
        k: int,
        n: int,
        is_grow: bool,
        ptr: DualNodePtr,
        init: int,
    ) -> (int, Option<MaxUpdateLength>)
        decreases n,
    {
        if n <= 0 {
            (init, None)
        } else {
            let (b, ev) = self.boundary_scan(interface, k, n - 1, is_grow, ptr, init);
            if ev is Some {
                (b, ev)
            } else {
                let (lim, ev2) = self.entry_bound(interface, k, n - 1, is_grow, ptr);
                match ev2 {
                    Some(x) => (b, Some(x)),
                    None => match lim {
                        Some(l) => (if l < b {
                            l
                        } else {
                            b
                        }, None),
                        None => (b, None),
                    },
                }
            }
        }
    }

    /// the potential conflict and the event after the first `n` edges around local vertex `v`: a
    /// fully grown edge towards a growing node is a potential conflict, and a second one towards
    /// another growing node makes a conflict between the two
    pub open spec fn stop_scan(&self, interface: &DualModuleInterface, v: int, n: int) -> (
        Option<(DualNodePtr, DualNodePtr)>,
        Option<MaxUpdateLength>,
    )
        decreases n,
    {
        if n <= 0 {
            (None, None)
        } else {
            let (pc, ev) = self.stop_scan(interface, v, n - 1);
            if ev is Some {
                (pc, ev)
            } else {
                let e = self.vertices@[v].edges@[n - 1] as int;
                let is_left = v == self.edges@[e].left;
                if self.remaining(e) == 0 {
                    match self.edge_node(e, !is_left) {
                        Some(p) => {
                            let peer = self.origin_or(Some(p), DualNodePtr { index: p });
                            let peer_grandson = self.origin_or(self.edge_grandson(e, !is_left), peer);
                            if state_of(interface, peer) == DualNodeGrowState::Grow {
                                match pc {
                                    Some((o, og)) => if peer != o {
                                        (
                                            pc,
                                            Some(
                                                MaxUpdateLength::Conflicting(
                                                    (o, og),
                                                    (peer, peer_grandson),
                                                ),
                                            ),
                                        )
                                    } else {
                                        (pc, None)
                                    },
                                    None => (Some((peer, peer_grandson)), None),
                                }
                            } else {
                                (pc, None)
                            }
                        },
                        None => (pc, None),
                    }
                } else {
                    (pc, None)
                }
            }
        }
    }

    /// the maximum length by which the interface node `ptr` (internal node `k`) can grow
    /// (`is_grow`) or shrink before something happens, or the event that stops it now: a
    /// shrinking node with a zero dual variable needs to expand if a blossom, or stops at its
    /// vertex, possibly with a conflict between the growing nodes that touch it
    pub open spec fn max_update_length_of(
        &self,
        interface: &DualModuleInterface,
        k: int,
        is_grow: bool,
        ptr: DualNodePtr,
    ) -> MaxUpdateLength {
        let node = self.nodes@[k]->Some_0;
        let n = node.boundary@.len() as int;
        let boundary_empty = n == 0;
        if is_grow {
            let (b, ev) = self.boundary_scan(interface, k, n, true, ptr, Weight::MAX as int);
            match ev {
                Some(x) => x,
                None => MaxUpdateLength::NonZeroGrow((b as Weight, boundary_empty)),
            }
        } else if node.dual_variable == 0 {
            match interface.node(ptr.index as int).class {
                DualNodeClass::Blossom { .. } => MaxUpdateLength::BlossomNeedExpand(ptr),
                DualNodeClass::DefectVertex { defect_index } => if defect_index < self.vertices@.len() {
                    let (pc, ev) = self.stop_scan(
                        interface,
                        defect_index as int,
                        self.vertices@[defect_index as int].edges@.len() as int,
                    );
                    match ev {
                        Some(x) => x,
                        None => MaxUpdateLength::VertexShrinkStop((ptr, pc)),
                    }
                } else {
                    MaxUpdateLength::VertexShrinkStop((ptr, None))
                },
            }
        } else {
            let top = if node.overgrown_stack@.len() > 0 && node.overgrown_stack@.last().1 < Weight::MAX {
                node.overgrown_stack@.last().1 as int
            } else {
                Weight::MAX as int
            };
            let init = if node.dual_variable < top {
                node.dual_variable as int
            } else {
                top
            };
            let (b, _) = self.boundary_scan(interface, k, n, false, ptr, init);
            MaxUpdateLength::NonZeroGrow((b as Weight, boundary_empty))
        }
    }

    /// every edge on the boundary of internal node `k` is up to date with the active timestamp
    pub open spec fn boundary_fresh(&self, k: int) -> bool {
        forall|j: int|
            0 <= j < self.boundary_of(k).len() ==> self.edges@[(#[trigger] self.boundary_of(k)[j]).1 as int].timestamp
                == self.active_timestamp
    }

    /// every edge around local vertex `v` is up to date with the active timestamp
    pub open spec fn vertex_fresh(&self, v: int) -> bool {
        forall|j: int|
            0 <= j < self.vertices@[v].edges@.len() ==> self.edges@[#[trigger] self.vertices@[v].edges@[j] as int].timestamp
                == self.active_timestamp
    }
}

impl DualModuleSerial {
    fn entry_bound_exec(
        &self,
        interface: &DualModuleInterface,
        k: usize,
        j: usize,
        is_grow: bool,
        ptr: &DualNodePtr,
    ) -> (r: (Option<Weight>, Option<MaxUpdateLength>))
        requires
            self.wf(),
            k < self.nodes@.len(),
            self.nodes@[k as int] is Some,
            j < self.boundary_of(k as int).len(),
            self.boundary_fresh(k as int),
        ensures
            opt_int(r.0) == self.entry_bound(interface, k as int, j as int, is_grow, *ptr).0,
            r.1 == self.entry_bound(interface, k as int, j as int, is_grow, *ptr).1,
            r.0 matches Some(b) ==> -2 * DUAL_BOUND <= b <= DUAL_BOUND,
            r.1 matches Some(x) ==> !(x is VertexShrinkStop),
    {
        let (is_left, e) = self.boundary_entry(k, j);
        assert(self.edge_wf(e as int));
        assert(self.edges@[e as int].timestamp == self.active_timestamp);
        let edge = &self.edges[e];
        if !is_grow {
            let g = if is_left {
                edge.left_growth
            } else {
                edge.right_growth
            };
            return (Some(g), None);
        }
        let remaining = edge.weight - edge.left_growth - edge.right_growth;
        let own_grandson = self.origin_or_exec(
            if is_left {
                edge.left_grandson_dual_node
            } else {
                edge.right_grandson_dual_node
            },
            *ptr,
        );
        let peer_node = if is_left {
            edge.right_dual_node
        } else {
            edge.left_dual_node
        };
        match peer_node {
            Some(p) => {
                if p == k {
                    return (None, None);
                }
                let peer = self.origin_or_exec(Some(p), DualNodePtr { index: p });
                let peer_grandson = self.origin_or_exec(
                    if is_left {
                        edge.right_grandson_dual_node
                    } else {
                        edge.left_grandson_dual_node
                    },
                    peer,
                );
                let bound = match state_of_exec(interface, &peer) {
                    DualNodeGrowState::Grow => half_exec(remaining),
                    DualNodeGrowState::Shrink => {
                        return (None, None);
                    },
                    DualNodeGrowState::Stay => remaining,
                };
                if bound == 0 {
                    (
                        Some(0),
                        Some(MaxUpdateLength::Conflicting((peer, peer_grandson), (*ptr, own_grandson))),
                    )
                } else {
                    (Some(bound), None)
                }
            },
            None => {
                let pv = if is_left {
                    edge.right
                } else {
                    edge.left
                };
                let peer_vertex = &self.vertices[pv];
                let blocked = peer_vertex.is_mirror_blocked();
                if remaining == 0 && (peer_vertex.is_virtual || blocked) {
                    (
                        Some(0),
                        Some(
                            MaxUpdateLength::TouchingVirtual(
                                (*ptr, own_grandson),
                                (peer_vertex.vertex_index, blocked),
                            ),
                        ),
                    )
                } else {
                    (Some(remaining), None)
                }
            },
        }
    }

    /// scan the boundary of internal node `k` from the bound `init`
    fn boundary_scan_exec(
        &self,
        interface: &DualModuleInterface,
        k: usize,
        is_grow: bool,
        ptr: &DualNodePtr,
        init: Weight,
    ) -> (r: (Weight, Option<MaxUpdateLength>))
        requires
            self.wf(),
            k < self.nodes@.len(),
            self.nodes@[k as int] is Some,
            self.boundary_fresh(k as int),
        ensures
            (r.0 as int, r.1) == self.boundary_scan(
                interface,
                k as int,
                self.boundary_of(k as int).len() as int,
                is_grow,
                *ptr,
                init as int,
            ),
            r.1 matches Some(x) ==> !(x is VertexShrinkStop),
    {
        let n = self.boundary_len(k);
        let mut bound = init;
        let mut j: usize = 0;
        while j < n
            invariant
                self.wf(),
                k < self.nodes@.len(),
                self.nodes@[k as int] is Some,
                self.boundary_fresh(k as int),
                n == self.boundary_of(k as int).len(),
                j <= n,
                (bound as int, None::<MaxUpdateLength>) == self.boundary_scan(
                    interface,
                    k as int,
                    j as int,
                    is_grow,
                    *ptr,
                    init as int,
                ),
            decreases n - j,
        {
            let (lim, ev) = self.entry_bound_exec(interface, k, j, is_grow, ptr);
            match ev {
                Some(x) => {
                    proof {
                        assert(self.boundary_scan(interface, k as int, j + 1, is_grow, *ptr, init as int)
                            == (bound as int, Some(x)));
                        self.lemma_scan_stops(interface, k as int, j + 1, n as int, is_grow, *ptr, init as int);
                    }
                    return (bound, Some(x));
                },
                None => {
                    match lim {
                        Some(l) => {
                            if l < bound {
                                bound = l;
                            }
                        },
                        None => {},
                    }
                },
            }
            j = j + 1;
        }
        (bound, None)
    }

    /// once the boundary scan has stopped it stays stopped
    proof fn lemma_scan_stops(
        &self,
        interface: &DualModuleInterface,
        k: int,
        i: int,
        n: int,
        is_grow: bool,
        ptr: DualNodePtr,
        init: int,
    )
        requires
            0 <= i <= n,
            self.boundary_scan(interface, k, i, is_grow, ptr, init).1 is Some,
        ensures
            self.boundary_scan(interface, k, n, is_grow, ptr, init) == self.boundary_scan(
                interface,
                k,
                i,
                is_grow,
                ptr,
                init,
            ),
        decreases n - i,
    {
        if i < n {
            self.lemma_scan_stops(interface, k, i, n - 1, is_grow, ptr, init);
        }
    }

    /// once the scan around a vertex has stopped it stays stopped
    proof fn lemma_stop_scan_stops(&self, interface: &DualModuleInterface, v: int, i: int, n: int)
        requires
            0 <= i <= n,
            self.stop_scan(interface, v, i).1 is Some,
        ensures
            self.stop_scan(interface, v, n) == self.stop_scan(interface, v, i),
        decreases n - i,
    {
        if i < n {
            self.lemma_stop_scan_stops(interface, v, i, n - 1);
        }
    }

    /// scan the edges around local vertex `v` of a shrinking defect node with zero dual variable
    fn stop_scan_exec(&self, interface: &DualModuleInterface, v: usize) -> (r: (
        Option<(DualNodePtr, DualNodePtr)>,
        Option<MaxUpdateLength>,
    ))
        requires
            self.wf(),
            v < self.vertices@.len(),
            self.vertex_fresh(v as int),
        ensures
            r == self.stop_scan(interface, v as int, self.vertices@[v as int].edges@.len() as int),
            r.1 matches Some(x) ==> !(x is VertexShrinkStop),
    {
        assert(self.vertex_wf(v as int));
        let m = self.vertices[v].edges.len();
        let mut pc: Option<(DualNodePtr, DualNodePtr)> = None;
        let mut i: usize = 0;
        while i < m
            invariant
                self.wf(),
                v < self.vertices@.len(),
                self.vertex_fresh(v as int),
                m == self.vertices@[v as int].edges@.len(),
                i <= m,
                (pc, None::<MaxUpdateLength>) == self.stop_scan(interface, v as int, i as int),
            decreases m - i,
        {
            let e = self.vertices[v].edges[i];
            assert(self.vertex_wf(v as int));
            assert(self.edges@[self.vertices@[v as int].edges@[i as int] as int].timestamp == self.active_timestamp);
            assert(self.edge_wf(e as int));
            let edge = &self.edges[e];
            let is_left = v == edge.left;
            let remaining = edge.weight - edge.left_growth - edge.right_growth;
            if remaining == 0 {
                let peer_node = if is_left {
                    edge.right_dual_node
                } else {
                    edge.left_dual_node
                };
                match peer_node {
                    Some(p) => {
                        let peer = self.origin_or_exec(Some(p), DualNodePtr { index: p });
                        let peer_grandson = self.origin_or_exec(
                            if is_left {
                                edge.right_grandson_dual_node
                            } else {
                                edge.left_grandson_dual_node
                            },
                            peer,
                        );
                        if state_of_exec(interface, &peer) == DualNodeGrowState::Grow {
                            match pc {
                                Some((o, og)) => {
                                    if peer != o {
                                        let ev = MaxUpdateLength::Conflicting((o, og), (peer, peer_grandson));
                                        proof {
                                            self.lemma_stop_scan_stops(interface, v as int, i + 1, m as int);
                                        }
                                        return (pc, Some(ev));
                                    }
                                },
                                None => {
                                    pc = Some((peer, peer_grandson));
                                },
                            }
                        }
                    },
                    None => {},
                }
            }
            i = i + 1;
        }
        (pc, None)
    }
}

impl DualModuleSerial {
    /// bring every edge on the boundary of internal node `k` up to date with the active timestamp
    fn refresh_boundary(&mut self, k: usize)
        requires
            old(self).wf(),
            k < old(self).nodes@.len(),
            old(self).nodes@[k as int] is Some,
        ensures
            final(self).wf(),
            final(self).stable(old(self)),
            final(self).nodes@ == old(self).nodes@,
            final(self).vertices@ == old(self).vertices@,
            final(self).active_list@ == old(self).active_list@,
            final(self).frame_unchanged(old(self)),
            final(self).boundary_fresh(k as int),
            forall|f: int|
                0 <= f < final(self).edges@.len() && old(self).edges@[f].timestamp
                    == old(self).active_timestamp ==> #[trigger] final(self).edges@[f].timestamp
                    == final(self).active_timestamp,
    {
        let ghost start = *self;
        let n = self.boundary_len(k);
        let mut j: usize = 0;
        while j < n
            invariant
                self.wf(),
                start.wf(),
                self.stable(&start),
                self.nodes@ == start.nodes@,
                self.vertices@ == start.vertices@,
                self.active_list@ == start.active_list@,
                self.frame_unchanged(&start),
                k < self.nodes@.len(),
                self.nodes@[k as int] is Some,
                n == self.boundary_of(k as int).len(),
                j <= n,
                forall|i: int|
                    0 <= i < j ==> self.edges@[(#[trigger] self.boundary_of(k as int)[i]).1 as int].timestamp
                        == self.active_timestamp,
                forall|f: int|
                    0 <= f < self.edges@.len() && start.edges@[f].timestamp == start.active_timestamp
                        ==> #[trigger] self.edges@[f].timestamp == self.active_timestamp,
            decreases n - j,
        {
            let (_, e) = self.boundary_entry(k, j);
            let ghost s0 = *self;
            self.dynamic_clear_edge(e);
            proof {
                Self::lemma_stable_trans(&start, &s0, self);
                assert forall|i: int|
                    0 <= i < j + 1 implies self.edges@[(#[trigger] self.boundary_of(k as int)[i]).1 as int].timestamp
                    == self.active_timestamp by {
                    let f = self.boundary_of(k as int)[i].1 as int;
                    assert(self.node_wf(k as int));
                    if i < j && f != e as int {
                        assert(s0.edges@[s0.boundary_of(k as int)[i].1 as int].timestamp == s0.active_timestamp);
                        assert(self.edges@[f] == s0.edges@[f]);
                    }
                }
                assert forall|f: int|
                    0 <= f < self.edges@.len() && start.edges@[f].timestamp == start.active_timestamp
                    implies #[trigger] self.edges@[f].timestamp == self.active_timestamp by {
                    assert(s0.edges@[f].timestamp == s0.active_timestamp);
                }
            }
            j = j + 1;
        }
    }

    /// bring every edge around local vertex `v` up to date with the active timestamp
    fn refresh_vertex(&mut self, v: usize)
        requires
            old(self).wf(),
            v < old(self).vertices@.len(),
        ensures
            final(self).wf(),
            final(self).stable(old(self)),
            final(self).nodes@ == old(self).nodes@,
            final(self).vertices@ == old(self).vertices@,
            final(self).active_list@ == old(self).active_list@,
            final(self).frame_unchanged(old(self)),
            final(self).vertex_fresh(v as int),
            forall|f: int|
                0 <= f < final(self).edges@.len() && old(self).edges@[f].timestamp
                    == old(self).active_timestamp ==> #[trigger] final(self).edges@[f].timestamp
                    == final(self).active_timestamp,
    {
        let ghost start = *self;
        assert(self.vertex_wf(v as int));
        let n = self.vertices[v].edges.len();
        let mut j: usize = 0;
        while j < n
            invariant
                self.wf(),
                start.wf(),
                self.stable(&start),
                self.nodes@ == start.nodes@,
                self.vertices@ == start.vertices@,
                self.active_list@ == start.active_list@,
                self.frame_unchanged(&start),
                v < self.vertices@.len(),
                n == self.vertices@[v as int].edges@.len(),
                j <= n,
                forall|i: int|
                    0 <= i < j ==> self.edges@[#[trigger] self.vertices@[v as int].edges@[i] as int].timestamp
                        == self.active_timestamp,
                forall|f: int|
                    0 <= f < self.edges@.len() && start.edges@[f].timestamp == start.active_timestamp
                        ==> #[trigger] self.edges@[f].timestamp == self.active_timestamp,
            decreases n - j,
        {
            assert(self.vertex_wf(v as int));
            let e = self.vertices[v].edges[j];
            let ghost s0 = *self;
            self.dynamic_clear_edge(e);
            proof {
                Self::lemma_stable_trans(&start, &s0, self);
                assert forall|i: int|
                    0 <= i < j + 1 implies self.edges@[#[trigger] self.vertices@[v as int].edges@[i] as int].timestamp
                    == self.active_timestamp by {
                    let f = self.vertices@[v as int].edges@[i] as int;
                    if i < j && f != e as int {
                        assert(s0.edges@[s0.vertices@[v as int].edges@[i] as int].timestamp == s0.active_timestamp);
                        assert(self.edges@[f] == s0.edges@[f]);
                    }
                }
                assert forall|f: int|
                    0 <= f < self.edges@.len() && start.edges@[f].timestamp == start.active_timestamp
                    implies #[trigger] self.edges@[f].timestamp == self.active_timestamp by {
                    assert(s0.edges@[f].timestamp == s0.active_timestamp);
                }
            }
            j = j + 1;
        }
    }

    /// the edges that the maximum update length of internal node `k` depends on are up to date:
    /// those on its boundary, and for a shrinking defect node with zero dual variable, those
    /// around its vertex
    pub open spec fn ready(&self, interface: &DualModuleInterface, k: int, is_grow: bool) -> bool {
        &&& self.boundary_fresh(k)
        &&& (interface.node(k).class matches DualNodeClass::DefectVertex { defect_index } ==> (!is_grow
            && self.nodes@[k]->Some_0.dual_variable == 0 && defect_index < self.vertices@.len()
            ==> self.vertex_fresh(defect_index as int)))
    }

    /// readiness survives any change that keeps the nodes and the vertices and leaves fresh edges
    /// fresh
    proof fn lemma_ready_persists(
        a: &Self,
        b: &Self,
        interface: &DualModuleInterface,
        k: int,
        is_grow: bool,
    )
        requires
            a.ready(interface, k, is_grow),
            a.wf(),
            0 <= k < a.nodes@.len(),
            a.nodes@[k] is Some,
            b.nodes@ == a.nodes@,
            b.vertices@ == a.vertices@,
            b.edges@.len() == a.edges@.len(),
            b.active_timestamp == a.active_timestamp,
            forall|f: int|
                0 <= f < b.edges@.len() && a.edges@[f].timestamp == a.active_timestamp
                    ==> #[trigger] b.edges@[f].timestamp == b.active_timestamp,
        ensures
            b.ready(interface, k, is_grow),
    {
        assert(a.node_wf(k));
        assert forall|j: int| 0 <= j < b.boundary_of(k).len() implies b.edges@[(
        #[trigger] b.boundary_of(k)[j]).1 as int].timestamp == b.active_timestamp by {
            assert(a.edges@[a.boundary_of(k)[j].1 as int].timestamp == a.active_timestamp);
        }
        match interface.node(k).class {
            DualNodeClass::DefectVertex { defect_index } => {
                if !is_grow && b.nodes@[k]->Some_0.dual_variable == 0 && defect_index
                    < b.vertices@.len() {
                    let v = defect_index as int;
                    assert(a.vertex_wf(v));
                    assert forall|j: int| 0 <= j < b.vertices@[v].edges@.len() implies b.edges@[
                    #[trigger] b.vertices@[v].edges@[j] as int].timestamp == b.active_timestamp by {
                        assert(a.edges@[a.vertices@[v].edges@[j] as int].timestamp
                            == a.active_timestamp);
                    }
                }
            },
            _ => {},
        }
    }

    /// bring the edges that the maximum update length of internal node `k` depends on up to date
    fn refresh_for(&mut self, interface: &DualModuleInterface, k: usize, is_grow: bool)
        requires
            old(self).wf(),
            interface.wf(),
            old(self).coupled(interface),
            interface.is_live(k as int),
        ensures
            final(self).wf(),
            final(self).stable(old(self)),
            final(self).coupled(interface),
            final(self).nodes@ == old(self).nodes@,
            final(self).vertices@ == old(self).vertices@,
            final(self).active_list@ == old(self).active_list@,
            final(self).frame_unchanged(old(self)),
            final(self).ready(interface, k as int, is_grow),
            forall|f: int|
                0 <= f < final(self).edges@.len() && old(self).edges@[f].timestamp
                    == old(self).active_timestamp ==> #[trigger] final(self).edges@[f].timestamp
                    == final(self).active_timestamp,
    {
        let ghost start = *self;
        self.refresh_boundary(k);
        proof {
            Self::lemma_stable_coupled(&start, self, interface);
        }
        if is_grow {
            return;
        }
        let dual_variable = match &self.nodes[k] {
            Some(node) => node.dual_variable,
            None => 0,
        };
        if dual_variable != 0 {
            return;
        }
        let defect = match &interface.nodes[k] {
            Some(node) => match &node.class {
                DualNodeClass::Blossom { .. } => {
                    return;
                },
                DualNodeClass::DefectVertex { defect_index } => *defect_index,
            },
            None => {
                return;
            },
        };
        if defect < self.vertices.len() {
            let ghost s0 = *self;
            self.refresh_vertex(defect);
            proof {
                Self::lemma_stable_trans(&start, &s0, self);
                Self::lemma_stable_coupled(&start, self, interface);
                assert forall|f: int|
                    0 <= f < self.edges@.len() && start.edges@[f].timestamp == start.active_timestamp
                    implies #[trigger] self.edges@[f].timestamp == self.active_timestamp by {
                    assert(s0.edges@[f].timestamp == s0.active_timestamp);
                }
                assert(s0.node_wf(k as int));
                assert forall|j: int| 0 <= j < self.boundary_of(k as int).len() implies self.edges@[(
                #[trigger] self.boundary_of(k as int)[j]).1 as int].timestamp == self.active_timestamp by {
                    assert(s0.edges@[s0.boundary_of(k as int)[j].1 as int].timestamp == s0.active_timestamp);
                }
            }
        }
    }

    /// the maximum update length of a dual node whose edges are up to date
    fn max_update_length_read(
        &self,
        interface: &DualModuleInterface,
        dual_node_ptr: &DualNodePtr,
        is_grow: bool,
    ) -> (r: MaxUpdateLength)
        requires
            self.wf(),
            interface.wf(),
            self.coupled(interface),
            interface.is_live(dual_node_ptr.index as int),
            self.ready(interface, dual_node_ptr.index as int, is_grow),
        ensures
            r == self.max_update_length_of(interface, dual_node_ptr.index as int, is_grow, *dual_node_ptr),
            r matches MaxUpdateLength::VertexShrinkStop((n, _)) ==> n == *dual_node_ptr,
    {
        let k = self.get_dual_node_internal_ptr(interface, dual_node_ptr);
        let (dual_variable, top) = match &self.nodes[k] {
            Some(node) => {
                let top: Weight = if node.overgrown_stack.len() > 0 {
                    node.overgrown_stack[node.overgrown_stack.len() - 1].1
                } else {
                    Weight::MAX
                };
                (node.dual_variable, top)
            },
            None => (0, Weight::MAX),
        };
        let boundary_empty = self.boundary_len(k) == 0;
        if is_grow {
            let (bound, ev) = self.boundary_scan_exec(interface, k, true, dual_node_ptr, Weight::MAX);
            return match ev {
                Some(x) => x,
                None => MaxUpdateLength::NonZeroGrow((bound, boundary_empty)),
            };
        }
        if dual_variable == 0 {
            let defect = match &interface.nodes[dual_node_ptr.index] {
                Some(node) => match &node.class {
                    DualNodeClass::Blossom { .. } => {
                        return MaxUpdateLength::BlossomNeedExpand(*dual_node_ptr);
                    },
                    DualNodeClass::DefectVertex { defect_index } => *defect_index,
                },
                None => {
                    return MaxUpdateLength::BlossomNeedExpand(*dual_node_ptr);
                },
            };
            // try to report a conflict or give a vertex shrink stop with a potential conflict
            let vertex_count = self.vertices.len();
            assert(self.owning_range.range_start == 0 && self.owning_range.range_end == vertex_count);
            match self.get_vertex_index(defect) {
                Some(v) => {
                    let (pc, ev) = self.stop_scan_exec(interface, v);
                    return match ev {
                        Some(x) => x,
                        None => MaxUpdateLength::VertexShrinkStop((*dual_node_ptr, pc)),
                    };
                },
                None => {
                    return MaxUpdateLength::VertexShrinkStop((*dual_node_ptr, None));
                },
            }
        }
        let init = if dual_variable < top {
            dual_variable
        } else {
            top
        };
        let (bound, _) = self.boundary_scan_exec(interface, k, false, dual_node_ptr, init);
        MaxUpdateLength::NonZeroGrow((bound, boundary_empty))
    }

    /// the maximum length by which a dual node can grow (`is_grow`) or shrink before something
    /// happens, or the event that stops it now; unless `simultaneous_update`, the node is first
    /// prepared to grow or shrink
    pub fn compute_maximum_update_length_dual_node(
        &mut self,
        interface: &DualModuleInterface,
        dual_node_ptr: &DualNodePtr,
        is_grow: bool,
        simultaneous_update: bool,
    ) -> (r: MaxUpdateLength)
        requires
            old(self).wf(),
            interface.wf(),
            old(self).coupled(interface),
            interface.is_live(dual_node_ptr.index as int),
        ensures
            final(self).wf(),
            final(self).stable(old(self)),
            final(self).coupled(interface),
            !simultaneous_update ==> exists|prepared: Self, trace: Seq<Self>, results: Seq<bool>|
                #[trigger] prepared.prepared_by_rounds(old(self), dual_node_ptr.index as int, is_grow, trace, results)
                    && final(self).nodes@ == prepared.nodes@,
            simultaneous_update ==> final(self).nodes@ == old(self).nodes@,
            r == final(self).max_update_length_of(
                interface,
                dual_node_ptr.index as int,
                is_grow,
                *dual_node_ptr,
            ),
    {
        let ghost start = *self;
        if !simultaneous_update {
            // when `simultaneous_update` is set, it's assumed that all nodes are prepared to grow
            // or shrink, since preparing them here one by one would be inefficient
            self.prepare_dual_node_growth(interface, dual_node_ptr, is_grow);
        }
        proof {
            Self::lemma_stable_coupled(&start, self, interface);
        }
        let ghost s0 = *self;
        self.refresh_for(interface, dual_node_ptr.index, is_grow);
        proof {
            Self::lemma_stable_trans(&start, &s0, self);
            if !simultaneous_update {
                let (trace, results) = choose|trace: Seq<Self>, results: Seq<bool>|
                    #[trigger] s0.prepared_by_rounds(&start, dual_node_ptr.index as int, is_grow, trace, results);
                assert(s0.prepared_by_rounds(&start, dual_node_ptr.index as int, is_grow, trace, results));
            }
        }
        self.max_update_length_read(interface, dual_node_ptr, is_grow)
    }
}

impl DualModuleSerial {
    /// the group of maximum update lengths of the first `n` nodes of the active list, each growing
    /// or shrinking node added in turn
    pub open spec fn group_fold(&self, interface: &DualModuleInterface, n: int) -> GroupSummary
        decreases n,
    {
        if n <= 0 {
            (Some((Weight::MAX, false)), Seq::empty(), Map::empty())
        } else {
            let g = self.group_fold(interface, n - 1);
            let k = self.active_list@[n - 1];
            let grow_state = interface.node(k as int).grow_state;
            if grow_state == DualNodeGrowState::Stay {
                g
            } else {
                let m = self.max_update_length_of(
                    interface,
                    k as int,
                    grow_state == DualNodeGrowState::Grow,
                    DualNodePtr { index: k },
                );
                add_summary(g, m, representative_of(interface, m))
            }
        }
    }

    /// whether the node at position `j` of the active list, in grow state `state`, is prepared
    /// once round `round` has reached position `i`: the shrinking nodes are prepared in the first
    /// round, the growing ones in the second
    pub open spec fn prepared_already(state: DualNodeGrowState, round: int, i: int, j: int) -> bool {
        ||| state == DualNodeGrowState::Shrink && (round > 0 || j < i)
        ||| state == DualNodeGrowState::Grow && (round > 1 || (round == 1 && j < i))
    }

    /// prepare every node in the active list to grow or shrink, the shrinking ones first; staying
    /// nodes are not touched, as they may have become part of a blossom
    pub fn prepare_all(&mut self, interface: &DualModuleInterface)
        requires
            old(self).wf(),
            interface.wf(),
            old(self).coupled(interface),
        ensures
            final(self).wf(),
            final(self).same_shape(old(self)),
            final(self).coupled(interface),
            forall|j: int|
                0 <= j < final(self).active_list@.len() ==> final(self).is_moving(
                    interface,
                    #[trigger] final(self).active_list@[j] as int,
                ),
            forall|i: int, j: int|
                0 <= i < j < final(self).active_list@.len() ==> final(self).active_list@[i]
                    != final(self).active_list@[j],
            forall|k: usize|
                old(self).active_list@.contains(k) && final(self).is_moving(interface, k as int)
                    ==> final(self).active_list@.contains(k),
            old(self).active_covers(interface) ==> final(self).active_covers(interface),
            forall|j: int|
                #![trigger final(self).active_list@[j]]
                0 <= j < final(self).active_list@.len() ==> {
                    let k = final(self).active_list@[j] as int;
                    let st = interface.node(k).grow_state;
                    &&& st == DualNodeGrowState::Grow ==> final(self).node_prepared(old(self), k, true)
                    &&& st == DualNodeGrowState::Shrink ==> final(self).node_prepared(old(self), k, false)
                },
    {
        let ghost start = *self;
        self.renew_active_list(interface);
        let ghost renewed = *self;
        let n = self.active_list.len();
        let mut round: usize = 0;
        while round < 2
            invariant
                self.wf(),
                interface.wf(),
                renewed.wf(),
                renewed.coupled(interface),
                self.stable(&renewed),
                self.coupled(interface),
                n == self.active_list@.len(),
                round <= 2,
                start.wf(),
                forall|a: int, b: int| 0 <= a < b < n ==> self.active_list@[a] != self.active_list@[b],
                forall|j: int|
                    0 <= j < n ==> renewed.is_moving(interface, #[trigger] self.active_list@[j] as int),
                forall|j: int|
                    #![trigger self.active_list@[j]]
                    0 <= j < n ==> {
                        let k = self.active_list@[j] as int;
                        let st = interface.node(k).grow_state;
                        &&& Self::prepared_already(st, round as int, 0, j) ==> self.node_prepared(
                            &start,
                            k,
                            st == DualNodeGrowState::Grow,
                        )
                        &&& !Self::prepared_already(st, round as int, 0, j) ==> self.prepared_parts(k)
                            == start.prepared_parts(k)
                    },
            decreases 2 - round,
        {
            let mut i: usize = 0;
            while i < n
                invariant
                    self.wf(),
                    interface.wf(),
                    renewed.wf(),
                    renewed.coupled(interface),
                    self.stable(&renewed),
                    self.coupled(interface),
                    n == self.active_list@.len(),
                    i <= n,
                    round < 2,
                    start.wf(),
                    forall|a: int, b: int| 0 <= a < b < n ==> self.active_list@[a] != self.active_list@[b],
                    forall|j: int|
                        0 <= j < n ==> renewed.is_moving(interface, #[trigger] self.active_list@[j] as int),
                    forall|j: int|
                        #![trigger self.active_list@[j]]
                        0 <= j < n ==> {
                            let k = self.active_list@[j] as int;
                            let st = interface.node(k).grow_state;
                            &&& Self::prepared_already(st, round as int, i as int, j) ==> self.node_prepared(
                                &start,
                                k,
                                st == DualNodeGrowState::Grow,
                            )
                            &&& !Self::prepared_already(st, round as int, i as int, j) ==> self.prepared_parts(k)
                                == start.prepared_parts(k)
                        },
                decreases n - i,
            {
                let k = self.active_list[i];
                proof {
                    assert(renewed.is_moving(interface, k as int));
                    assert(interface.is_live(k as int));
                }
                let grow_state = match &interface.nodes[k] {
                    Some(node) => node.grow_state,
                    None => DualNodeGrowState::Stay,
                };
                let wanted = if round == 0 {
                    DualNodeGrowState::Shrink
                } else {
                    DualNodeGrowState::Grow
                };
                let ghost s0 = *self;
                if grow_state == wanted {
                    self.prepare_dual_node_growth(interface, &DualNodePtr { index: k }, round == 1);
                    proof {
                        Self::lemma_stable_trans(&renewed, &s0, self);
                        Self::lemma_stable_coupled(&renewed, self, interface);
                        let g: bool = round == 1;
                        let (trace, results) = choose|trace: Seq<Self>, results: Seq<bool>|
                            #[trigger] self.prepared_by_rounds(&s0, k as int, g, trace, results);
                        assert(self.prepared_by_rounds(&s0, k as int, g, trace, results));
                        assert(s0.active_list@[i as int] == k);
                        assert(self.node_prepared(&start, k as int, round == 1));
                    }
                }
                proof {
                    assert forall|j: int|
                        #![trigger self.active_list@[j]]
                        0 <= j < n implies {
                            let kk = self.active_list@[j] as int;
                            let st = interface.node(kk).grow_state;
                            &&& Self::prepared_already(st, round as int, i + 1, j) ==> self.node_prepared(
                                &start,
                                kk,
                                st == DualNodeGrowState::Grow,
                            )
                            &&& !Self::prepared_already(st, round as int, i + 1, j) ==> self.prepared_parts(kk)
                                == start.prepared_parts(kk)
                        } by {
                        let kk = s0.active_list@[j] as int;
                        let st = interface.node(kk).grow_state;
                        assert(s0.active_list@[j] == self.active_list@[j]);
                        if j != i {
                            if grow_state == wanted {
                                assert(s0.active_list@[j] != s0.active_list@[i as int]);
                                assert(self.nodes@[kk] == s0.nodes@[kk]);
                            }
                            if Self::prepared_already(st, round as int, i as int, j) {
                                Self::lemma_node_prepared_frame(&s0, self, &start, kk, st == DualNodeGrowState::Grow);
                            }
                        }
                    }
                }
                i = i + 1;
            }
            round = round + 1;
        }
        proof {
            Self::lemma_same_shape_trans(&start, &renewed, self);
            assert forall|k: usize|
                start.active_list@.contains(k) && self.is_moving(interface, k as int) implies self.active_list@.contains(
                k,
            ) by {
                assert(renewed.is_moving(interface, k as int));
            }
            if start.active_covers(interface) {
                assert forall|k: int| #[trigger] self.is_moving(interface, k) implies self.active_list@.contains(
                    k as usize,
                ) by {
                    assert(start.is_moving(interface, k));
                    assert(start.active_list@.contains(k as usize));
                    assert(renewed.is_moving(interface, k));
                }
            }
        }
    }

    /// the over-grown stack of internal node `k` here is the one of `other` without the top
    /// entries that were no longer over-grown, and its top is still over-grown
    pub open spec fn trimmed_from(&self, other: &Self, k: int) -> bool {
        let st0 = other.nodes@[k]->Some_0.overgrown_stack@;
        let st1 = self.nodes@[k]->Some_0.overgrown_stack@;
        &&& st1.len() <= st0.len()
        &&& st1 == st0.take(st1.len() as int)
        &&& forall|j: int| st1.len() <= j < st0.len() ==> (#[trigger] st0[j]).1 == 0
        &&& st1.len() > 0 ==> st1.last().1 != 0
    }

    /// trimming an already trimmed stack again leaves it trimmed from the first one
    pub proof fn lemma_trimmed_trans(a: &Self, b: &Self, c: &Self, k: int)
        requires
            b.trimmed_from(a, k),
            c.trimmed_from(b, k),
        ensures
            c.trimmed_from(a, k),
    {
        let st0 = a.nodes@[k]->Some_0.overgrown_stack@;
        let stm = b.nodes@[k]->Some_0.overgrown_stack@;
        let st1 = c.nodes@[k]->Some_0.overgrown_stack@;
        assert(st1 =~= st0.take(st1.len() as int)) by {
            assert forall|i: int| 0 <= i < st1.len() implies st1[i] == st0[i] by {
                assert(st1[i] == stm[i]);
                assert(stm[i] == st0[i]);
            }
        }
        assert forall|i: int| st1.len() <= i < st0.len() implies (#[trigger] st0[i]).1 == 0 by {
            if i < stm.len() {
                assert(stm[i] == st0[i]);
            }
        }
    }

    /// prepare the given nodes that this module holds to shrink
    pub fn prepare_nodes_shrink(&mut self, interface: &DualModuleInterface, nodes_circle: &Vec<DualNodePtr>)
        requires
            old(self).wf(),
            interface.wf(),
            old(self).coupled(interface),
            forall|i: int|
                0 <= i < nodes_circle@.len() ==> interface.is_live(#[trigger] nodes_circle@[i].index as int),
        ensures
            final(self).wf(),
            final(self).stable(old(self)),
            final(self).coupled(interface),
            forall|x: int|
                0 <= x < final(self).nodes@.len() && (forall|i: int|
                    0 <= i < nodes_circle@.len() ==> #[trigger] nodes_circle@[i].index != x) ==> #[trigger] final(self).nodes@[x]
                    == old(self).nodes@[x],
            forall|i: int|
                0 <= i < nodes_circle@.len() ==> #[trigger] final(self).trimmed_from(
                    old(self),
                    nodes_circle@[i].index as int,
                ),
    {
        let ghost start = *self;
        let mut i: usize = 0;
        while i < nodes_circle.len()
            invariant
                forall|i: int|
                    0 <= i < nodes_circle@.len() ==> interface.is_live(#[trigger] nodes_circle@[i].index as int),
                self.wf(),
                interface.wf(),
                start.wf(),
                start.coupled(interface),
                self.stable(&start),
                self.coupled(interface),
                i <= nodes_circle@.len(),
                forall|x: int|
                    0 <= x < self.nodes@.len() && (forall|q: int|
                        0 <= q < i ==> #[trigger] nodes_circle@[q].index != x) ==> #[trigger] self.nodes@[x]
                        == start.nodes@[x],
                forall|q: int| 0 <= q < i ==> #[trigger] self.trimmed_from(&start, nodes_circle@[q].index as int),
            decreases nodes_circle.len() - i,
        {
            let ghost before = *self;
            let dual_node_ptr = nodes_circle[i];
            assert(interface.is_live(nodes_circle@[i as int].index as int));
            let ghost k = dual_node_ptr.index as int;
            proof {
                assert(self.unit_module_info is None);
            }
            if self.contains_dual_node(&dual_node_ptr) {
                let ghost s0 = *self;
                self.prepare_dual_node_growth(interface, &dual_node_ptr, false);
                proof {
                    Self::lemma_stable_trans(&start, &s0, self);
                    Self::lemma_stable_coupled(&start, self, interface);
                    assert(self.trimmed_from(&s0, k));
                    if forall|q: int| 0 <= q < i ==> #[trigger] nodes_circle@[q].index != k {
                        assert(s0.nodes@[k] == start.nodes@[k]);
                    } else {
                        let q = choose|q: int| 0 <= q < i && #[trigger] nodes_circle@[q].index == k;
                        assert(s0.trimmed_from(&start, nodes_circle@[q].index as int));
                        Self::lemma_trimmed_trans(&start, &s0, self, k);
                    }
                    assert forall|q: int| 0 <= q < i + 1 implies #[trigger] self.trimmed_from(&start, nodes_circle@[q].index as int) by {
                        if q < i && nodes_circle@[q].index != k {
                            assert(before.trimmed_from(&start, nodes_circle@[q].index as int));
                            assert(self.nodes@[nodes_circle@[q].index as int] == before.nodes@[nodes_circle@[q].index as int]);
                        }
                    }
                    assert forall|x: int|
                        0 <= x < self.nodes@.len() && (forall|q: int|
                            0 <= q < i + 1 ==> #[trigger] nodes_circle@[q].index != x) implies #[trigger] self.nodes@[x]
                            == start.nodes@[x] by {
                        assert(nodes_circle@[i as int].index != x);
                        assert forall|q: int| 0 <= q < i implies #[trigger] nodes_circle@[q].index != x by {}
                    }
                }
            }
            i = i + 1;
        }
    }

    /// the maximum update length of the whole module: every growing or shrinking node in the
    /// active list is prepared and its maximum update length added to the group
    pub fn compute_maximum_update_length(&mut self, interface: &DualModuleInterface) -> (r: GroupMaxUpdateLength)
        requires
            old(self).wf(),
            interface.wf(),
            old(self).coupled(interface),
        ensures
            final(self).wf(),
            final(self).same_shape(old(self)),
            final(self).coupled(interface),
            forall|j: int|
                0 <= j < final(self).active_list@.len() ==> final(self).is_moving(
                    interface,
                    #[trigger] final(self).active_list@[j] as int,
                ),
            r.summary() == final(self).group_fold(interface, final(self).active_list@.len() as int),
            old(self).active_covers(interface) ==> final(self).active_covers(interface),
            forall|j: int|
                #![trigger final(self).active_list@[j]]
                0 <= j < final(self).active_list@.len() ==> {
                    let k = final(self).active_list@[j] as int;
                    let st = interface.node(k).grow_state;
                    &&& st == DualNodeGrowState::Grow ==> final(self).node_prepared(old(self), k, true)
                    &&& st == DualNodeGrowState::Shrink ==> final(self).node_prepared(old(self), k, false)
                },
    {
        let ghost start = *self;
        // first prepare all nodes for individual grow or shrink
        self.prepare_all(interface);
        let ghost prepared = *self;
        let n = self.active_list.len();
        // bring the edges that each moving node depends on up to date
        let mut i: usize = 0;
        while i < n
            invariant
                self.wf(),
                interface.wf(),
                prepared.wf(),
                prepared.coupled(interface),
                self.stable(&prepared),
                self.coupled(interface),
                self.nodes@ == prepared.nodes@,
                self.vertices@ == prepared.vertices@,
                n == self.active_list@.len(),
                i <= n,
                forall|j: int|
                    0 <= j < n ==> prepared.is_moving(interface, #[trigger] self.active_list@[j] as int),
                forall|j: int|
                    0 <= j < i ==> self.ready(
                        interface,
                        #[trigger] self.active_list@[j] as int,
                        interface.node(self.active_list@[j] as int).grow_state == DualNodeGrowState::Grow,
                    ),
            decreases n - i,
        {
            let k = self.active_list[i];
            proof {
                assert(prepared.is_moving(interface, k as int));
                assert(interface.is_live(k as int));
            }
            let is_grow = match &interface.nodes[k] {
                Some(node) => node.grow_state == DualNodeGrowState::Grow,
                None => false,
            };
            let ghost s0 = *self;
            self.refresh_for(interface, k, is_grow);
            proof {
                Self::lemma_stable_trans(&prepared, &s0, self);
                assert forall|j: int| 0 <= j < i + 1 implies self.ready(
                    interface,
                    #[trigger] self.active_list@[j] as int,
                    interface.node(self.active_list@[j] as int).grow_state == DualNodeGrowState::Grow,
                ) by {
                    if j < i {
                        let kj = self.active_list@[j] as int;
                        assert(prepared.is_moving(interface, kj));
                        assert(s0.ready(interface, kj, interface.node(kj).grow_state == DualNodeGrowState::Grow));
                        Self::lemma_ready_persists(
                            &s0,
                            self,
                            interface,
                            kj,
                            interface.node(kj).grow_state == DualNodeGrowState::Grow,
                        );
                    }
                }
            }
            i = i + 1;
        }
        let mut group = GroupMaxUpdateLength::new();
        let mut i: usize = 0;
        while i < n
            invariant
                self.wf(),
                interface.wf(),
                self.coupled(interface),
                n == self.active_list@.len(),
                i <= n,
                forall|j: int|
                    0 <= j < n ==> prepared.is_moving(interface, #[trigger] self.active_list@[j] as int),
                self.nodes@ == prepared.nodes@,
                self.nodes_length == prepared.nodes_length,
                forall|j: int|
                    0 <= j < n ==> self.ready(
                        interface,
                        #[trigger] self.active_list@[j] as int,
                        interface.node(self.active_list@[j] as int).grow_state == DualNodeGrowState::Grow,
                    ),
                group.summary() == self.group_fold(interface, i as int),
            decreases n - i,
        {
            let k = self.active_list[i];
            proof {
                assert(prepared.is_moving(interface, k as int));
                assert(interface.is_live(k as int));
                assert(self.ready(interface, k as int, interface.node(k as int).grow_state == DualNodeGrowState::Grow));
            }
            let grow_state = match &interface.nodes[k] {
                Some(node) => node.grow_state,
                None => DualNodeGrowState::Stay,
            };
            if grow_state != DualNodeGrowState::Stay {
                let ptr = DualNodePtr { index: k };
                let max_update_length = self.max_update_length_read(
                    interface,
                    &ptr,
                    grow_state == DualNodeGrowState::Grow,
                );
                group.add(max_update_length, interface);
            }
            i = i + 1;
        }
        proof {
            Self::lemma_same_shape_trans(&start, &prepared, self);
            assert forall|j: int|
                #![trigger self.active_list@[j]]
                0 <= j < self.active_list@.len() implies {
                    let k = self.active_list@[j] as int;
                    let st = interface.node(k).grow_state;
                    &&& st == DualNodeGrowState::Grow ==> self.node_prepared(&start, k, true)
                    &&& st == DualNodeGrowState::Shrink ==> self.node_prepared(&start, k, false)
                } by {
                let k = self.active_list@[j] as int;
                assert(prepared.active_list@[j] == self.active_list@[j]);
                let st = interface.node(k).grow_state;
                if st == DualNodeGrowState::Grow {
                    Self::lemma_node_prepared_frame(&prepared, self, &start, k, true);
                }
                if st == DualNodeGrowState::Shrink {
                    Self::lemma_node_prepared_frame(&prepared, self, &start, k, false);
                }
            }
            if start.active_covers(interface) {
                assert forall|k: int| #[trigger] self.is_moving(interface, k) implies self.active_list@.contains(
                    k as usize,
                ) by {
                    assert(prepared.is_moving(interface, k));
                }
            }
        }
        group
    }
}

impl DualModuleSerial {
    /// internal node `x` is a live member of `circle` whose boundary holds side `s` of edge `e`
    pub open spec fn circle_holds(&self, circle: Seq<DualNodePtr>, x: usize, s: bool, e: EdgeIndex) -> bool {
        exists|i: int|
            0 <= i < circle.len() && #[trigger] circle[i].index == x && x < self.nodes@.len()
                && self.nodes@[x as int] is Some && self.boundary_of(x as int).contains((s, e))
    }

    /// every boundary entry of the live members of `circle` before position `n` records a live
    /// member of the circle that holds that entry
    pub open spec fn circle_restored(&self, circle: Seq<DualNodePtr>, n: int) -> bool {
        forall|i: int, j: int|
            0 <= i < n && circle[i].index < self.nodes@.len() && self.nodes@[circle[i].index as int] is Some
                && 0 <= j < self.boundary_of(circle[i].index as int).len() ==> {
                let (s, e) = #[trigger] self.boundary_of(circle[i].index as int)[j];
                &&& self.edges@[e as int].timestamp == self.active_timestamp
                &&& self.edge_node(e as int, s) matches Some(x) && self.circle_holds(circle, x, s, e)
            }
    }

    /// record `node` on side `is_left` of edge `e`, keeping its grandson
    fn set_edge_node(&mut self, e: usize, is_left: bool, node: Option<usize>)
        requires
            old(self).wf(),
            e < old(self).edges@.len(),
            opt_lt(node, old(self).nodes@.len() as int),
        ensures
            final(self).wf(),
            final(self).stable(old(self)),
            final(self).vertices@ == old(self).vertices@,
            final(self).nodes@ == old(self).nodes@,
            final(self).active_list@ == old(self).active_list@,
            final(self).frame_unchanged(old(self)),
            final(self).edges@.len() == old(self).edges@.len(),
            forall|f: int|
                0 <= f < final(self).edges@.len() && f != e ==> final(self).edges@[f] == old(self).edges@[f],
            final(self).edges@[e as int].timestamp == final(self).active_timestamp,
            final(self).edge_node(e as int, is_left) == node,
            final(self).edge_node(e as int, !is_left) == old(self).edge_node(e as int, !is_left),
    {
        let ghost start = *self;
        self.dynamic_clear_edge(e);
        let grandson = if is_left {
            self.edges[e].left_grandson_dual_node
        } else {
            self.edges[e].right_grandson_dual_node
        };
        proof {
            assert(self.edge_wf(e as int));
        }
        let ghost s0 = *self;
        assert(s0.edge_node(e as int, !is_left) == start.edge_node(e as int, !is_left));
        self.set_edge_side(e, is_left, node, grandson);
        proof {
            Self::lemma_stable_trans(&start, &s0, self);
        }
    }

    /// remove a blossom whose dual variable is zero: the edges on its boundary are handed back to
    /// the nodes of its circle
    pub fn remove_blossom(&mut self, interface: &DualModuleInterface, dual_node_ptr: DualNodePtr)
        requires
            old(self).wf(),
            interface.wf(),
            old(self).coupled(interface),
            interface.is_live(dual_node_ptr.index as int),
            interface.node(dual_node_ptr.index as int).class is Blossom,
        ensures
            final(self).edge_modifier == old(self).edge_modifier,
            final(self).wf(),
            final(self).nodes@.len() == old(self).nodes@.len(),
            final(self).nodes_length == old(self).nodes_length,
            final(self).vertices@.len() == old(self).vertices@.len(),
            final(self).edges@.len() == old(self).edges@.len(),
            final(self).active_timestamp == old(self).active_timestamp,
            final(self).active_list@ == old(self).active_list@,
            final(self).nodes@[dual_node_ptr.index as int] is None,
            final(self).unit_module_info == old(self).unit_module_info,
            final(self).owning_range == old(self).owning_range,
            forall|j: int|
                0 <= j < final(self).nodes@.len() && j != dual_node_ptr.index ==> {
                    &&& (#[trigger] final(self).nodes@[j]) is Some == old(self).nodes@[j] is Some
                    &&& final(self).nodes@[j] is Some ==> final(self).dual_of(j) == old(self).dual_of(j)
                        && final(self).nodes@[j]->Some_0.origin == old(self).nodes@[j]->Some_0.origin
                        && final(self).nodes@[j]->Some_0.index == old(self).nodes@[j]->Some_0.index
                },
            forall|e: int|
                0 <= e < final(self).edges@.len() ==> {
                    &&& (#[trigger] final(self).edges@[e]).weight == old(self).edges@[e].weight
                    &&& final(self).growth_of(e, true) == old(self).growth_of(e, true)
                    &&& final(self).growth_of(e, false) == old(self).growth_of(e, false)
                },
            final(self).circle_restored(
                interface.node(dual_node_ptr.index as int).class->nodes_circle@,
                interface.node(dual_node_ptr.index as int).class->nodes_circle@.len() as int,
            ),
    {
        let ghost start = *self;
        // prepare the blossom into shrinking
        self.prepare_dual_node_growth(interface, &dual_node_ptr, false);
        proof {
            Self::lemma_stable_coupled(&start, self, interface);
        }
        let k = self.get_dual_node_internal_ptr(interface, &dual_node_ptr);
        let ghost prepared = *self;
        // recover edge belongings
        let n = self.boundary_len(k);
        let mut j: usize = 0;
        while j < n
            invariant
                self.wf(),
                prepared.wf(),
                self.stable(&prepared),
                self.nodes@ == prepared.nodes@,
                self.active_list@ == prepared.active_list@,
                k < self.nodes@.len(),
                self.nodes@[k as int] is Some,
                n == self.boundary_of(k as int).len(),
                j <= n,
            decreases n - j,
        {
            let (is_left, e) = self.boundary_entry(k, j);
            let ghost s0 = *self;
            self.set_edge_node(e, is_left, None);
            proof {
                Self::lemma_stable_trans(&prepared, &s0, self);
            }
            j = j + 1;
        }
        let circle = match &interface.nodes[dual_node_ptr.index] {
            Some(node) => match &node.class {
                DualNodeClass::Blossom { nodes_circle, .. } => nodes_circle,
                DualNodeClass::DefectVertex { .. } => {
                    proof {
                        assert(false);
                    }
                    return;
                },
            },
            None => {
                return;
            },
        };
        assert(interface.node_wf(k as int));
        let ghost cleared = *self;
        let m = circle.len();
        let mut i: usize = 0;
        while i < m
            invariant
                self.wf(),
                prepared.wf(),
                self.stable(&prepared),
                self.nodes@ == prepared.nodes@,
                self.active_list@ == prepared.active_list@,
                m == circle@.len(),
                i <= m,
                self.circle_restored(circle@, i as int),
            decreases m - i,
        {
            let c = circle[i].index;
            if c < self.nodes.len() && self.nodes[c].is_some() {
                let nb = self.boundary_len(c);
                let mut j: usize = 0;
                let ghost before = *self;
                while j < nb
                    invariant
                        self.wf(),
                        prepared.wf(),
                        self.stable(&prepared),
                        self.nodes@ == prepared.nodes@,
                        self.active_list@ == prepared.active_list@,
                        m == circle@.len(),
                        i < m,
                        c == circle@[i as int].index,
                        c < self.nodes@.len(),
                        self.nodes@[c as int] is Some,
                        nb == self.boundary_of(c as int).len(),
                        j <= nb,
                        self.circle_restored(circle@, i as int),
                        forall|q: int|
                            0 <= q < j ==> {
                                let (s, e) = #[trigger] self.boundary_of(c as int)[q];
                                &&& self.edges@[e as int].timestamp == self.active_timestamp
                                &&& self.edge_node(e as int, s) matches Some(x) && self.circle_holds(
                                    circle@,
                                    x,
                                    s,
                                    e,
                                )
                            },
                    decreases nb - j,
                {
                    let (is_left, e) = self.boundary_entry(c, j);
                    let ghost s0 = *self;
                    self.set_edge_node(e, is_left, Some(c));
                    proof {
                        Self::lemma_stable_trans(&prepared, &s0, self);
                        assert(self.boundary_of(c as int)[j as int] == (is_left, e));
                        assert(self.circle_holds(circle@, c, is_left, e)) by {
                            assert(circle@[i as int].index == c);
                            assert(self.boundary_of(c as int)[j as int] == (is_left, e));
                        }
                        assert forall|q: int| 0 <= q < j + 1 implies {
                            let (s, f) = #[trigger] self.boundary_of(c as int)[q];
                            &&& self.edges@[f as int].timestamp == self.active_timestamp
                            &&& self.edge_node(f as int, s) matches Some(x) && self.circle_holds(
                                circle@,
                                x,
                                s,
                                f,
                            )
                        } by {
                            let (s, f) = self.boundary_of(c as int)[q];
                            assert(self.node_wf(c as int));
                            if q < j {
                                assert(s0.boundary_of(c as int)[q] == (s, f));
                                if f != e {
                                    assert(self.edges@[f as int] == s0.edges@[f as int]);
                                } else if s != is_left {
                                    assert(self.edge_node(f as int, s) == s0.edge_node(f as int, s));
                                }
                            }
                        }
                        assert forall|i2: int, j2: int|
                            0 <= i2 < i && circle@[i2].index < self.nodes@.len() && self.nodes@[circle@[i2].index as int] is Some
                                && 0 <= j2 < self.boundary_of(circle@[i2].index as int).len() implies {
                            let (s, f) = #[trigger] self.boundary_of(circle@[i2].index as int)[j2];
                            &&& self.edges@[f as int].timestamp == self.active_timestamp
                            &&& self.edge_node(f as int, s) matches Some(x) && self.circle_holds(
                                circle@,
                                x,
                                s,
                                f,
                            )
                        } by {
                            let (s, f) = self.boundary_of(circle@[i2].index as int)[j2];
                            assert(self.node_wf(circle@[i2].index as int));
                            assert(s0.boundary_of(circle@[i2].index as int)[j2] == (s, f));
                            if f != e {
                                assert(self.edges@[f as int] == s0.edges@[f as int]);
                            } else if s != is_left {
                                assert(self.edge_node(f as int, s) == s0.edge_node(f as int, s));
                            }
                        }
                    }
                    j = j + 1;
                }
            }
            proof {
                assert forall|i2: int, j2: int|
                    0 <= i2 < i + 1 && circle@[i2].index < self.nodes@.len() && self.nodes@[circle@[i2].index as int] is Some
                        && 0 <= j2 < self.boundary_of(circle@[i2].index as int).len() implies {
                    let (s, f) = #[trigger] self.boundary_of(circle@[i2].index as int)[j2];
                    &&& self.edges@[f as int].timestamp == self.active_timestamp
                    &&& self.edge_node(f as int, s) matches Some(x) && self.circle_holds(circle@, x, s, f)
                } by {
                    if i2 == i {
                        assert(self.boundary_of(c as int)[j2] == self.boundary_of(circle@[i2].index as int)[j2]);
                    }
                }
            }
            i = i + 1;
        }
        // simply remove this blossom node
        let ghost pre = *self;
        self.nodes.set(k, None);
        proof {
            assert forall|q: int| 0 <= q < self.nodes@.len() implies #[trigger] self.node_wf(q) by {
                if q != k as int {
                    assert(pre.node_wf(q));
                }
            }
            Self::lemma_wf_preserved(&pre, self);
            assert forall|x: usize, s: bool, f: EdgeIndex|
                pre.circle_holds(circle@, x, s, f) implies self.circle_holds(circle@, x, s, f) by {
                let w = choose|w: int|
                    0 <= w < circle@.len() && #[trigger] circle@[w].index == x && x < pre.nodes@.len()
                        && pre.nodes@[x as int] is Some && pre.boundary_of(x as int).contains((s, f));
                assert(interface.is_live(circle@[w].index as int));
                assert(x != k);
                assert(self.nodes@[x as int] == pre.nodes@[x as int]);
            }
            assert forall|i2: int, j2: int|
                0 <= i2 < m && circle@[i2].index < self.nodes@.len() && self.nodes@[circle@[i2].index as int] is Some
                    && 0 <= j2 < self.boundary_of(circle@[i2].index as int).len() implies {
                let (s, f) = #[trigger] self.boundary_of(circle@[i2].index as int)[j2];
                &&& self.edges@[f as int].timestamp == self.active_timestamp
                &&& self.edge_node(f as int, s) matches Some(x) && self.circle_holds(circle@, x, s, f)
            } by {
                let c2 = circle@[i2].index as int;
                assert(c2 != k as int);
                assert(self.nodes@[c2] == pre.nodes@[c2]);
                assert(pre.boundary_of(c2)[j2] == self.boundary_of(c2)[j2]);
            }
        }
    }
}

impl DualModuleSerial {
    /// the module follows the interface: its nodes correspond to the interface's, its dual
    /// variables equal those the interface computes, and every growing or shrinking node is in
    /// its active list
    pub open spec fn synced(&self, interface: &DualModuleInterface) -> bool {
        &&& self.coupled(interface)
        &&& self.active_covers(interface)
        &&& forall|k: int| #[trigger] interface.is_live(k) ==> self.dual_of(k) == interface.dual_variable_of(k)
    }
}

impl DualModuleSerial {
    /// set the weight of edge `e`, bringing it up to date first
    fn set_edge_weight(&mut self, e: usize, weight: Weight) -> (original: Weight)
        requires
            old(self).wf(),
            e < old(self).edges@.len(),
            0 <= weight <= DUAL_BOUND,
        ensures
            final(self).wf(),
            original == old(self).edges@[e as int].weight,
            final(self).edges@.len() == old(self).edges@.len(),
            final(self).edge_triples() == old(self).edge_triples().update(
                e as int,
                (old(self).edges@[e as int].left, old(self).edges@[e as int].right, weight),
            ),
            final(self).vertices@ == old(self).vertices@,
            final(self).nodes@ == old(self).nodes@,
            final(self).nodes_length == old(self).nodes_length,
            final(self).active_list@ == old(self).active_list@,
            final(self).edge_modifier == old(self).edge_modifier,
            final(self).active_timestamp == old(self).active_timestamp,
            final(self).unit_module_info == old(self).unit_module_info,
            final(self).owning_range == old(self).owning_range,
    {
        let ghost start = *self;
        self.dynamic_clear_edge(e);
        let ghost pre = *self;
        assert(pre.edge_wf(e as int));
        let original = self.edges[e].weight;
        self.edges[e].weight = weight;
        proof {
            assert(self.edge_wf(e as int));
            Self::lemma_wf_preserved(&pre, self);
            assert(self.edge_triples() =~= start.edge_triples().update(
                e as int,
                (start.edges@[e as int].left, start.edges@[e as int].right, weight),
            ));
        }
        original
    }

    /// change the weights of some edges, remembering each original weight so that
    /// [`DualModuleSerial::clear`] restores them
    pub fn load_edge_modifier(&mut self, edge_modifier: &Vec<(EdgeIndex, Weight)>)
        requires
            old(self).wf(),
            old(self).edge_modifier.modified@.len() == 0,
            modifier_valid(old(self).edges@.len(), edge_modifier@),
        ensures
            final(self).wf(),
            final(self).edge_triples() == apply_modifier(old(self).edge_triples(), edge_modifier@),
            final(self).edge_modifier.modified@ == modifier_record(old(self).edge_triples(), edge_modifier@),
            final(self).vertices@ == old(self).vertices@,
            final(self).nodes@ == old(self).nodes@,
            final(self).nodes_length == old(self).nodes_length,
            final(self).active_list@ == old(self).active_list@,
            final(self).unit_module_info == old(self).unit_module_info,
            final(self).owning_range == old(self).owning_range,
    {
        let ghost start = *self;
        let mut i: usize = 0;
        while i < edge_modifier.len()
            invariant
                self.wf(),
                i <= edge_modifier@.len(),
                modifier_valid(start.edges@.len(), edge_modifier@),
                self.edges@.len() == start.edges@.len(),
                self.edge_triples() == apply_modifier(start.edge_triples(), edge_modifier@.take(i as int)),
                self.edge_modifier.modified@ == modifier_record(start.edge_triples(), edge_modifier@.take(i as int)),
                self.vertices@ == start.vertices@,
                self.nodes@ == start.nodes@,
                self.nodes_length == start.nodes_length,
                self.active_list@ == start.active_list@,
                self.unit_module_info == start.unit_module_info,
                self.owning_range == start.owning_range,
            decreases edge_modifier.len() - i,
        {
            let (edge_index, target_weight) = edge_modifier[i];
            proof {
                let (e, w) = edge_modifier@[i as int];
                assert(e < start.edges@.len() && 0 <= w <= crate::complete_graph::MAX_EDGE_WEIGHT);
                assert(edge_modifier@.take(i + 1).drop_last() == edge_modifier@.take(i as int));
            }
            let ghost pre = *self;
            let original_weight = self.set_edge_weight(edge_index, target_weight);
            proof {
                assert(pre.edge_triples()[edge_index as int].2 == original_weight);
                assert(pre.edge_wf(edge_index as int));
            }
            let ghost mid = *self;
            self.edge_modifier.push_modified_edge(edge_index, original_weight);
            proof {
                assert forall|j: int| 0 <= j < self.edge_modifier.modified@.len() implies (
                #[trigger] self.edge_modifier.modified@[j]).0 < self.edges@.len() && 0
                    <= self.edge_modifier.modified@[j].1 <= DUAL_BOUND by {
                    assert(self.edges@ == mid.edges@);
                    if j < mid.edge_modifier.modified@.len() {
                        assert(mid.edge_modifier.modified@[j] == self.edge_modifier.modified@[j]);
                        assert(mid.wf());
                        assert(mid.edge_modifier.modified@[j].0 < mid.edges@.len());
                        assert(0 <= mid.edge_modifier.modified@[j].1 <= DUAL_BOUND);
                    } else {
                        assert(self.edge_modifier.modified@[j] == (edge_index, original_weight));
                        assert(pre.edge_wf(edge_index as int));
                        assert(edge_index < start.edges@.len());
                    }
                }
                Self::lemma_wf_preserved(&mid, self);
                assert(self.edge_triples() == mid.edge_triples());
            }
            i = i + 1;
        }
        proof {
            assert(edge_modifier@.take(edge_modifier@.len() as int) == edge_modifier@);
        }
    }

    /// erase some edges: their weights become zero
    pub fn load_erasures(&mut self, erasures: &Vec<EdgeIndex>)
        requires
            old(self).wf(),
            old(self).edge_modifier.modified@.len() == 0,
            forall|k: int| 0 <= k < erasures@.len() ==> #[trigger] erasures@[k] < old(self).edges@.len(),
        ensures
            final(self).wf(),
            final(self).edge_triples() == apply_modifier(
                old(self).edge_triples(),
                erasures@.map_values(|e: EdgeIndex| (e, 0 as Weight)),
            ),
            final(self).edge_modifier.modified@ == modifier_record(
                old(self).edge_triples(),
                erasures@.map_values(|e: EdgeIndex| (e, 0 as Weight)),
            ),
            final(self).vertices@ == old(self).vertices@,
            final(self).nodes@ == old(self).nodes@,
            final(self).nodes_length == old(self).nodes_length,
            final(self).active_list@ == old(self).active_list@,
            final(self).unit_module_info == old(self).unit_module_info,
            final(self).owning_range == old(self).owning_range,
    {
        let mut edge_modifier: Vec<(EdgeIndex, Weight)> = Vec::new();
        let mut i: usize = 0;
        while i < erasures.len()
            invariant
                i <= erasures@.len(),
                edge_modifier@ == erasures@.take(i as int).map_values(|e: EdgeIndex| (e, 0 as Weight)),
            decreases erasures.len() - i,
        {
            edge_modifier.push((erasures[i], 0));
            i = i + 1;
            proof {
                assert(edge_modifier@ =~= erasures@.take(i as int).map_values(|e: EdgeIndex| (e, 0 as Weight)));
            }
        }
        proof {
            assert(erasures@.take(erasures@.len() as int) == erasures@);
            assert forall|k: int| 0 <= k < edge_modifier@.len() implies {
                let (e, w) = #[trigger] edge_modifier@[k];
                &&& e < self.edges@.len()
                &&& 0 <= w <= crate::complete_graph::MAX_EDGE_WEIGHT
            } by {
                assert(erasures@[k] < self.edges@.len());
            }
        }
        self.load_edge_modifier(&edge_modifier);
    }

    /// set dynamic weights on some edges
    pub fn load_dynamic_weights(&mut self, dynamic_weights: &Vec<(EdgeIndex, Weight)>)
        requires
            old(self).wf(),
            old(self).edge_modifier.modified@.len() == 0,
            modifier_valid(old(self).edges@.len(), dynamic_weights@),
        ensures
            final(self).wf(),
            final(self).edge_triples() == apply_modifier(old(self).edge_triples(), dynamic_weights@),
            final(self).edge_modifier.modified@ == modifier_record(old(self).edge_triples(), dynamic_weights@),
            final(self).vertices@ == old(self).vertices@,
            final(self).nodes@ == old(self).nodes@,
            final(self).nodes_length == old(self).nodes_length,
            final(self).active_list@ == old(self).active_list@,
            final(self).unit_module_info == old(self).unit_module_info,
            final(self).owning_range == old(self).owning_range,
    {
        self.load_edge_modifier(dynamic_weights);
    }
}

impl DualModuleSerial {
    /// the internal node of a dual node, adding one (in the next slot, with the given dual
    /// variable and an empty boundary, and in the active list) when this module does not hold it
    pub fn get_otherwise_add_dual_node(&mut self, dual_node_ptr: &DualNodePtr, dual_variable: Weight) -> (r: usize)
        requires
            old(self).wf(),
            old(self).nodes_length < usize::MAX,
            -DUAL_BOUND <= dual_variable <= DUAL_BOUND,
            old(self).spec_dual_node_index(*dual_node_ptr) matches Some(i) ==> i < old(self).nodes@.len()
                && old(self).nodes@[i as int] is Some,
        ensures
            final(self).wf(),
            r < final(self).nodes@.len(),
            final(self).nodes@[r as int] is Some,
            old(self).spec_dual_node_index(*dual_node_ptr) matches Some(i) ==> r == i && *final(self)
                == *old(self),
            final(self).spec_dual_node_index(*dual_node_ptr) == Some(r),
            forall|p: DualNodePtr|
                p.index != dual_node_ptr.index ==> #[trigger] final(self).spec_dual_node_index(p)
                    == old(self).spec_dual_node_index(p),
            final(self).vertices@ == old(self).vertices@,
            final(self).edges@ == old(self).edges@,
            final(self).active_timestamp == old(self).active_timestamp,
            final(self).owning_range == old(self).owning_range,
            final(self).frame_unchanged(old(self)),
            final(self).nodes_length >= old(self).nodes_length,
            final(self).nodes@.len() >= old(self).nodes@.len(),
            forall|j: int|
                0 <= j < old(self).nodes_length && j < old(self).nodes@.len() ==> final(self).nodes@[j]
                    == old(self).nodes@[j],
            forall|j: int|
                0 <= j < old(self).nodes@.len() && old(self).nodes@[j] is Some ==> #[trigger] final(self).nodes@[j] is Some,
            final(self).sync_requests@ == old(self).sync_requests@,
            final(self).active_list@.len() >= old(self).active_list@.len(),
            final(self).active_list@.subrange(0, old(self).active_list@.len() as int) == old(self).active_list@,
            final(self).nodes_length <= old(self).nodes_length + 1,
            final(self).unit_module_info is Some <==> old(self).unit_module_info is Some,
            old(self).spec_dual_node_index(*dual_node_ptr) is None ==> {
                &&& r == old(self).nodes_length
                &&& final(self).nodes_length == old(self).nodes_length + 1
                &&& final(self).nodes@[r as int]->Some_0.origin == *dual_node_ptr
                &&& final(self).nodes@[r as int]->Some_0.dual_variable == dual_variable
                &&& final(self).boundary_of(r as int).len() == 0
                &&& final(self).active_list@ == old(self).active_list@.push(r)
                &&& forall|j: int|
                    0 <= j < old(self).nodes@.len() && j != r ==> final(self).nodes@[j] == old(self).nodes@[j]
            },
    {
        match self.get_dual_node_index(dual_node_ptr) {
            Some(index) => index,
            None => {
                // add a new internal dual node corresponding to the dual_node_ptr
                let ghost pre = *self;
                self.register_dual_node_ptr(dual_node_ptr);
                let ghost registered = *self;
                let k = self.install_new_node(*dual_node_ptr, dual_variable);
                self.push_active(k);
                proof {
                    assert forall|p: DualNodePtr| p.index != dual_node_ptr.index implies #[trigger] self.spec_dual_node_index(p)
                        == pre.spec_dual_node_index(p) by {
                        assert(registered.spec_dual_node_index(p) == pre.spec_dual_node_index(p));
                    }
                }
                k
            },
        }
    }
}

/// undoing recorded modifications gives weights that depend on the weights undone only, not on
/// the ends of the edges
pub proof fn lemma_restore_weights_only(
    a: Seq<(VertexIndex, VertexIndex, Weight)>,
    b: Seq<(VertexIndex, VertexIndex, Weight)>,
    record: Seq<(EdgeIndex, Weight)>,
)
    requires
        a.len() == b.len(),
        forall|e: int| 0 <= e < a.len() ==> #[trigger] a[e].2 == b[e].2,
        forall|k: int| 0 <= k < record.len() ==> (#[trigger] record[k]).0 < a.len(),
    ensures
        restore_modifier(a, record).len() == a.len(),
        restore_modifier(b, record).len() == a.len(),
        forall|e: int| 0 <= e < a.len() ==> #[trigger] restore_modifier(a, record)[e].2 == restore_modifier(b, record)[e].2,
    decreases record.len(),
{
    if record.len() > 0 {
        let (e, w) = record.last();
        assert(record[record.len() - 1] == (e, w));
        let a1 = a.update(e as int, (a[e as int].0, a[e as int].1, w));
        let b1 = b.update(e as int, (b[e as int].0, b[e as int].1, w));
        assert forall|k: int| 0 <= k < record.drop_last().len() implies (#[trigger] record.drop_last()[k]).0 < a1.len() by {
            assert(record.drop_last()[k] == record[k]);
        }
        assert forall|f: int| 0 <= f < a1.len() implies #[trigger] a1[f].2 == b1[f].2 by {
        }
        lemma_restore_weights_only(a1, b1, record.drop_last());
    }
}

/// Loading weights, then any operations that keep the edge weights and the record of the
/// loaded weights, and then clearing the module gives every edge back its weight: loading records
/// each weight it overwrites, and clearing undoes the records in reverse order.
pub proof fn lemma_clear_restores_weights(
    before: DualModuleSerial,
    loaded: DualModuleSerial,
    current: DualModuleSerial,
    cleared: DualModuleSerial,
    edge_modifier: Seq<(EdgeIndex, Weight)>,
)
    requires
        modifier_valid(before.edges@.len(), edge_modifier),
        loaded.edge_triples() == apply_modifier(before.edge_triples(), edge_modifier),
        loaded.edge_modifier.modified@ == modifier_record(before.edge_triples(), edge_modifier),
        current.edges@.len() == loaded.edges@.len(),
        forall|e: int| 0 <= e < current.edges@.len() ==> #[trigger] current.edges@[e].weight == loaded.edges@[e].weight,
        current.edge_modifier == loaded.edge_modifier,
        cleared.edge_triples() == restore_modifier(current.edge_triples(), current.edge_modifier.modified@),
    ensures
        cleared.edges@.len() == before.edges@.len(),
        forall|e: int| 0 <= e < before.edges@.len() ==> #[trigger] cleared.edges@[e].weight == before.edges@[e].weight,
{
    crate::complete_graph::lemma_reset_undoes_modifier(before.edge_triples(), edge_modifier);
    crate::complete_graph::lemma_apply_modifier_len(before.edge_triples(), edge_modifier);
    let record = loaded.edge_modifier.modified@;
    assert(record.len() == edge_modifier.len()) by {
        lemma_record_len(before.edge_triples(), edge_modifier);
    }
    assert forall|k: int| 0 <= k < record.len() implies (#[trigger] record[k]).0 < loaded.edges@.len() by {
        lemma_record_entry(before.edge_triples(), edge_modifier, k);
    }
    assert forall|e: int| 0 <= e < current.edges@.len() implies #[trigger] current.edge_triples()[e].2 == loaded.edge_triples()[e].2 by {
    }
    lemma_restore_weights_only(current.edge_triples(), loaded.edge_triples(), record);
    assert forall|e: int| 0 <= e < before.edges@.len() implies #[trigger] cleared.edges@[e].weight == before.edges@[e].weight by {
        assert(cleared.edge_triples()[e].2 == cleared.edges@[e].weight);
        assert(before.edge_triples()[e].2 == before.edges@[e].weight);
    }
}

/// the record of a modifier has one entry per modification
proof fn lemma_record_len(weighted_edges: Seq<(VertexIndex, VertexIndex, Weight)>, modifier: Seq<(EdgeIndex, Weight)>)
    ensures
        modifier_record(weighted_edges, modifier).len() == modifier.len(),
    decreases modifier.len(),
{
    if modifier.len() > 0 {
        lemma_record_len(weighted_edges, modifier.drop_last());
    }
}

/// each entry of the record of a modifier names the edge that the modification names
proof fn lemma_record_entry(weighted_edges: Seq<(VertexIndex, VertexIndex, Weight)>, modifier: Seq<(EdgeIndex, Weight)>, k: int)
    requires
        0 <= k < modifier.len(),
    ensures
        modifier_record(weighted_edges, modifier)[k].0 == modifier[k].0,
    decreases modifier.len(),
{
    lemma_record_len(weighted_edges, modifier.drop_last());
    if k < modifier.len() - 1 {
        lemma_record_entry(weighted_edges, modifier.drop_last(), k);
        assert(modifier.drop_last()[k] == modifier[k]);
    } else {
        assert(modifier.last() == modifier[k]);
    }
}

/// why the internal state of a serial dual module is not consistent
#[derive(Debug, Clone, Copy, PartialEq, Eq, Structural)]
pub enum SerialSanityError {
    /// a vertex records a grandson but no propagated node
    MissingPropagatedNode { vertex_index: VertexIndex },
    /// a vertex records a propagated node but no grandson
    MissingGrandson { vertex_index: VertexIndex },
    /// a recorded internal node, or the dual node it stands for, does not exist
    DanglingNode { node: usize },
    /// the grandson of a propagated node is not a defect node
    GrandsonNotVertex { grandson: usize },
    /// a defect node is propagated with another grandson than itself
    GrandsonNotSelf { node: usize, grandson: usize },
    /// the grandson of a propagated blossom is not inside it
    GrandsonNotDescendant { node: usize, grandson: usize },
    /// a boundary edge appears twice among the nodes that are not inside a blossom
    DuplicateBoundaryEdge { is_left: bool, edge_index: EdgeIndex, first_node: usize, second_node: usize },
}

impl DualModuleInterface {
    /// the dual node in slot `a` is a blossom that (transitively) contains slot `d`
    pub open spec fn contains_below(&self, a: int, d: int) -> bool
        decreases self.nodes_length - d,
    {
        if self.is_live(d) {
            match self.node(d).parent_blossom {
                Some(p) => p.index == a || (d < p.index < self.nodes_length && self.contains_below(
                    a,
                    p.index as int,
                )),
                None => false,
            }
        } else {
            false
        }
    }

    /// whether the dual node in slot `a` contains slot `d`, walking up the parents of `d`
    pub fn contains_below_exec(&self, a: usize, d: usize) -> (r: bool)
        requires
            self.wf(),
        ensures
            r == self.contains_below(a as int, d as int),
        decreases self.nodes_length - d,
    {
        if d >= self.nodes_length {
            return false;
        }
        match &self.nodes[d] {
            Some(node) => match node.parent_blossom {
                Some(p) => {
                    if p.index == a {
                        true
                    } else if d < p.index && p.index < self.nodes_length {
                        self.contains_below_exec(a, p.index)
                    } else {
                        false
                    }
                },
                None => false,
            },
            None => false,
        }
    }
}

impl DualModuleSerial {
    /// the interface node that internal node `k` stands for exists, and so does it
    pub open spec fn node_alive(&self, interface: &DualModuleInterface, k: int) -> bool {
        &&& 0 <= k < self.nodes@.len()
        &&& self.nodes@[k] is Some
        &&& interface.is_live(self.nodes@[k]->Some_0.origin.index as int)
    }

    /// the interface node of internal node `k`
    pub open spec fn interface_node(&self, interface: &DualModuleInterface, k: int) -> DualNode {
        interface.node(self.nodes@[k]->Some_0.origin.index as int)
    }

    /// the grandson `g` of the propagated node `p` is a defect node: `p` itself if `p` is a defect
    /// node, and a node inside `p` otherwise
    pub open spec fn grandson_sane(&self, interface: &DualModuleInterface, p: int, g: int) -> bool {
        &&& self.node_alive(interface, p)
        &&& self.node_alive(interface, g)
        &&& self.interface_node(interface, g).class is DefectVertex
        &&& if self.interface_node(interface, p).class is DefectVertex {
            p == g
        } else {
            interface.contains_below(
                self.nodes@[p]->Some_0.origin.index as int,
                self.nodes@[g]->Some_0.origin.index as int,
            )
        }
    }

    /// vertex `v`, as seen at the active timestamp, records a propagated node exactly when it
    /// records a grandson, and a sane pair
    pub open spec fn vertex_sane(&self, interface: &DualModuleInterface, v: int) -> bool {
        let vertex = self.vertices@[v];
        vertex.timestamp != self.active_timestamp || match (
            vertex.propagated_dual_node,
            vertex.propagated_grandson_dual_node,
        ) {
            (Some(p), Some(g)) => self.grandson_sane(interface, p as int, g as int),
            (None, None) => true,
            _ => false,
        }
    }

    /// internal node `k` is a live node that is not inside a blossom
    pub open spec fn top_level(&self, interface: &DualModuleInterface, k: int) -> bool {
        &&& 0 <= k < self.nodes_length
        &&& self.node_alive(interface, k)
        &&& self.interface_node(interface, k).parent_blossom is None
    }

    /// position `(k1, j1)` comes before position `(k, j)` in the scan of the boundaries
    pub open spec fn before(k: int, j: int, k1: int, j1: int) -> bool {
        k1 < k || (k1 == k && j1 < j)
    }

    /// position `(k1, j1)`, before `(k, j)`, holds the entry `(s, f)` on the boundary of a
    /// top-level node
    pub open spec fn holds_entry(&self, interface: &DualModuleInterface, k1: int, j1: int, s: bool, f: int, k: int, j: int) -> bool {
        &&& self.top_level(interface, k1)
        &&& 0 <= j1 < self.boundary_of(k1).len()
        &&& Self::before(k, j, k1, j1)
        &&& self.boundary_of(k1)[j1] == (s, f as usize)
    }

    /// no two positions before `(k, j)` on the boundaries of top-level nodes hold the same entry
    pub open spec fn boundary_unique_before(&self, interface: &DualModuleInterface, k: int, j: int) -> bool {
        forall|k1: int, j1: int, k2: int, j2: int|
            #![trigger self.boundary_of(k1)[j1], self.boundary_of(k2)[j2]]
            self.top_level(interface, k1) && self.top_level(interface, k2) && 0 <= j1 < self.boundary_of(
                k1,
            ).len() && 0 <= j2 < self.boundary_of(k2).len() && Self::before(k, j, k1, j1) && Self::before(
                k,
                j,
                k2,
                j2,
            ) && (k1 != k2 || j1 != j2) ==> self.boundary_of(k1)[j1] != self.boundary_of(k2)[j2]
    }

    /// every vertex is sane and no boundary edge appears twice among the top-level nodes
    pub open spec fn sane(&self, interface: &DualModuleInterface) -> bool {
        &&& forall|v: int| 0 <= v < self.vertices@.len() ==> #[trigger] self.vertex_sane(interface, v)
        &&& self.boundary_unique_before(interface, self.nodes_length as int, 0)
    }

    fn node_alive_exec(&self, interface: &DualModuleInterface, k: usize) -> (r: bool)
        requires
            interface.nodes_length <= interface.nodes@.len(),
        ensures
            r == self.node_alive(interface, k as int),
    {
        if k >= self.nodes.len() {
            return false;
        }
        match &self.nodes[k] {
            Some(node) => interface.check_ptr_belonging(&node.origin),
            None => false,
        }
    }

    /// check that the grandson `g` of the propagated node `p` is sane
    pub fn sanity_check_grandson(&self, interface: &DualModuleInterface, p: usize, g: usize) -> (r: Result<(), SerialSanityError>)
        requires
            interface.wf(),
        ensures
            r is Ok <==> self.grandson_sane(interface, p as int, g as int),
    {
        if !self.node_alive_exec(interface, p) {
            return Err(SerialSanityError::DanglingNode { node: p });
        }
        if !self.node_alive_exec(interface, g) {
            return Err(SerialSanityError::DanglingNode { node: g });
        }
        let (p_origin, g_origin) = match (&self.nodes[p], &self.nodes[g]) {
            (Some(pn), Some(gn)) => (pn.origin.index, gn.origin.index),
            _ => {
                return Err(SerialSanityError::DanglingNode { node: p });
            },
        };
        let (p_is_defect, g_is_defect) = match (&interface.nodes[p_origin], &interface.nodes[g_origin]) {
            (Some(pd), Some(gd)) => (!pd.class.is_blossom(), !gd.class.is_blossom()),
            _ => {
                return Err(SerialSanityError::DanglingNode { node: p });
            },
        };
        if !g_is_defect {
            return Err(SerialSanityError::GrandsonNotVertex { grandson: g });
        }
        if p_is_defect {
            if p != g {
                return Err(SerialSanityError::GrandsonNotSelf { node: p, grandson: g });
            }
        } else {
            // test if grandson is a real grandson
            if !interface.contains_below_exec(p_origin, g_origin) {
                return Err(SerialSanityError::GrandsonNotDescendant { node: p, grandson: g });
            }
        }
        Ok(())
    }

    /// do a sanity check of if all the nodes are in consistent state: each vertex records a
    /// propagated node together with a sane grandson, and no boundary edge appears twice among
    /// the nodes that are not inside a blossom
    pub fn sanity_check(&self, interface: &DualModuleInterface) -> (r: Result<(), SerialSanityError>)
        requires
            self.wf(),
            interface.wf(),
        ensures
            r is Ok <==> self.sane(interface),
    {
        let mut v: usize = 0;
        while v < self.vertices.len()
            invariant
                self.wf(),
                interface.wf(),
                v <= self.vertices@.len(),
                forall|u: int| 0 <= u < v ==> #[trigger] self.vertex_sane(interface, u),
            decreases self.vertices@.len() - v,
        {
            let vertex = &self.vertices[v];
            if vertex.timestamp == self.active_timestamp {
                match (vertex.propagated_dual_node, vertex.propagated_grandson_dual_node) {
                    (Some(p), Some(g)) => {
                        match self.sanity_check_grandson(interface, p, g) {
                            Ok(()) => {},
                            Err(e) => {
                                assert(!self.vertex_sane(interface, v as int));
                                return Err(e);
                            },
                        }
                    },
                    (None, Some(_)) => {
                        assert(!self.vertex_sane(interface, v as int));
                        return Err(SerialSanityError::MissingPropagatedNode { vertex_index: vertex.vertex_index });
                    },
                    (Some(_), None) => {
                        assert(!self.vertex_sane(interface, v as int));
                        return Err(SerialSanityError::MissingGrandson { vertex_index: vertex.vertex_index });
                    },
                    (None, None) => {},
                }
            }
            v = v + 1;
        }
        // sanity check that boundary doesn't include duplicate edges
        let edge_num = self.edges.len();
        let mut seen_left: Vec<Option<usize>> = Vec::new();
        let mut seen_right: Vec<Option<usize>> = Vec::new();
        let mut e: usize = 0;
        while e < edge_num
            invariant
                e <= edge_num == self.edges@.len(),
                seen_left@.len() == e,
                seen_right@.len() == e,
                forall|f: int| 0 <= f < e ==> seen_left@[f] is None && seen_right@[f] is None,
            decreases edge_num - e,
        {
            seen_left.push(None);
            seen_right.push(None);
            e = e + 1;
        }
        let mut k: usize = 0;
        while k < self.nodes_length
            invariant
                self.wf(),
                interface.wf(),
                k <= self.nodes_length,
                forall|u: int| 0 <= u < self.vertices@.len() ==> #[trigger] self.vertex_sane(interface, u),
                seen_left@.len() == edge_num == self.edges@.len(),
                seen_right@.len() == edge_num,
                self.boundary_unique_before(interface, k as int, 0),
                forall|k1: int, j1: int|
                    #![trigger self.boundary_of(k1)[j1]]
                    self.top_level(interface, k1) && 0 <= j1 < self.boundary_of(k1).len()
                        && Self::before(k as int, 0, k1, j1) ==> if self.boundary_of(k1)[j1].0 {
                        seen_left@[self.boundary_of(k1)[j1].1 as int] == Some(k1 as usize)
                    } else {
                        seen_right@[self.boundary_of(k1)[j1].1 as int] == Some(k1 as usize)
                    },
                forall|f: int|
                    0 <= f < edge_num ==> ((#[trigger] seen_left@[f]) is Some ==> exists|j1: int|
                        #[trigger] self.holds_entry(interface, seen_left@[f]->Some_0 as int, j1, true, f, k as int, 0)),
                forall|f: int|
                    0 <= f < edge_num ==> ((#[trigger] seen_right@[f]) is Some ==> exists|j1: int|
                        #[trigger] self.holds_entry(interface, seen_right@[f]->Some_0 as int, j1, false, f, k as int, 0)),
            decreases self.nodes_length - k,
        {
            let top = if self.node_alive_exec(interface, k) {
                match &self.nodes[k] {
                    Some(node) => match &interface.nodes[node.origin.index] {
                        Some(dual_node) => dual_node.parent_blossom.is_none(),
                        None => false,
                    },
                    None => false,
                }
            } else {
                false
            };
            if top {
                let n = self.boundary_len(k);
                let mut j: usize = 0;
                while j < n
                    invariant
                        self.wf(),
                        interface.wf(),
                        k < self.nodes_length,
                        self.top_level(interface, k as int),
                        n == self.boundary_of(k as int).len(),
                        j <= n,
                        seen_left@.len() == edge_num == self.edges@.len(),
                        seen_right@.len() == edge_num,
                        self.boundary_unique_before(interface, k as int, j as int),
                        forall|k1: int, j1: int|
                            #![trigger self.boundary_of(k1)[j1]]
                            self.top_level(interface, k1) && 0 <= j1 < self.boundary_of(k1).len()
                                && Self::before(k as int, j as int, k1, j1) ==> if self.boundary_of(k1)[j1].0 {
                                seen_left@[self.boundary_of(k1)[j1].1 as int] == Some(k1 as usize)
                            } else {
                                seen_right@[self.boundary_of(k1)[j1].1 as int] == Some(k1 as usize)
                            },
                        forall|f: int|
                            0 <= f < edge_num ==> ((#[trigger] seen_left@[f]) is Some ==> exists|j1: int|
                                #[trigger] self.holds_entry(interface, seen_left@[f]->Some_0 as int, j1, true, f, k as int, j as int)),
                        forall|f: int|
                            0 <= f < edge_num ==> ((#[trigger] seen_right@[f]) is Some ==> exists|j1: int|
                                #[trigger] self.holds_entry(interface, seen_right@[f]->Some_0 as int, j1, false, f, k as int, j as int)),
                    decreases n - j,
                {
                    let (is_left, e) = self.boundary_entry(k, j);
                    let previous = if is_left {
                        seen_left[e]
                    } else {
                        seen_right[e]
                    };
                    match previous {
                        Some(first_node) => {
                            proof {
                                let j1 = choose|j1: int|
                                    #[trigger] self.holds_entry(interface, first_node as int, j1, is_left, e as int, k as int, j as int);
                                assert(!self.boundary_unique_before(interface, self.nodes_length as int, 0)) by {
                                    assert(self.boundary_of(first_node as int)[j1] == self.boundary_of(k as int)[j as int]);
                                }
                            }
                            return Err(
                                SerialSanityError::DuplicateBoundaryEdge {
                                    is_left,
                                    edge_index: self.edges[e].edge_index,
                                    first_node,
                                    second_node: k,
                                },
                            );
                        },
                        None => {},
                    }
                    let ghost old_left = seen_left@;
                    let ghost old_right = seen_right@;
                    if is_left {
                        seen_left.set(e, Some(k));
                    } else {
                        seen_right.set(e, Some(k));
                    }
                    proof {
                        assert(self.boundary_of(k as int)[j as int] == (is_left, e));
                        assert forall|k1: int, j1: int|
                            #![trigger self.boundary_of(k1)[j1]]
                            self.top_level(interface, k1) && 0 <= j1 < self.boundary_of(k1).len()
                                && Self::before(k as int, j + 1, k1, j1) implies if self.boundary_of(k1)[j1].0 {
                            seen_left@[self.boundary_of(k1)[j1].1 as int] == Some(k1 as usize)
                        } else {
                            seen_right@[self.boundary_of(k1)[j1].1 as int] == Some(k1 as usize)
                        } by {
                            assert(self.node_wf(k1));
                            let (s1, f1) = self.boundary_of(k1)[j1];
                            if !(k1 == k as int && j1 == j as int) {
                                assert(Self::before(k as int, j as int, k1, j1));
                                if s1 == is_left && f1 == e {
                                    assert(false);
                                }
                            }
                        }
                        assert forall|f: int|
                            0 <= f < edge_num implies ((#[trigger] seen_left@[f]) is Some ==> exists|j1: int|
                            #[trigger] self.holds_entry(interface, seen_left@[f]->Some_0 as int, j1, true, f, k as int, j + 1)) by {
                            if is_left && f == e as int {
                                assert(seen_left@[f] == Some(k));
                                assert(self.holds_entry(interface, k as int, j as int, true, f, k as int, j + 1));
                                assert(self.holds_entry(interface, seen_left@[f]->Some_0 as int, j as int, true, f, k as int, j + 1));
                            } else if seen_left@[f] is Some {
                                let k1 = seen_left@[f]->Some_0;
                                assert(old_left[f] == Some(k1));
                                let j1 = choose|j1: int|
                                    #[trigger] self.holds_entry(interface, k1 as int, j1, true, f, k as int, j as int);
                                assert(self.holds_entry(interface, k1 as int, j1, true, f, k as int, j + 1));
                                assert(self.holds_entry(interface, seen_left@[f]->Some_0 as int, j1, true, f, k as int, j + 1));
                            }
                        }
                        assert forall|f: int|
                            0 <= f < edge_num implies ((#[trigger] seen_right@[f]) is Some ==> exists|j1: int|
                            #[trigger] self.holds_entry(interface, seen_right@[f]->Some_0 as int, j1, false, f, k as int, j + 1)) by {
                            if !is_left && f == e as int {
                                assert(seen_right@[f] == Some(k));
                                assert(self.holds_entry(interface, k as int, j as int, false, f, k as int, j + 1));
                                assert(self.holds_entry(interface, seen_right@[f]->Some_0 as int, j as int, false, f, k as int, j + 1));
                            } else if seen_right@[f] is Some {
                                let k1 = seen_right@[f]->Some_0;
                                assert(old_right[f] == Some(k1));
                                let j1 = choose|j1: int|
                                    #[trigger] self.holds_entry(interface, k1 as int, j1, false, f, k as int, j as int);
                                assert(self.holds_entry(interface, k1 as int, j1, false, f, k as int, j + 1));
                                assert(self.holds_entry(interface, seen_right@[f]->Some_0 as int, j1, false, f, k as int, j + 1));
                            }
                        }
                        assert forall|k1: int, j1: int, k2: int, j2: int|
                            #![trigger self.boundary_of(k1)[j1], self.boundary_of(k2)[j2]]
                            self.top_level(interface, k1) && self.top_level(interface, k2) && 0 <= j1
                                < self.boundary_of(k1).len() && 0 <= j2 < self.boundary_of(k2).len()
                                && Self::before(k as int, j + 1, k1, j1) && Self::before(k as int, j + 1, k2, j2)
                                && (k1 != k2 || j1 != j2) implies self.boundary_of(k1)[j1] != self.boundary_of(
                            k2,
                        )[j2] by {
                            if k1 == k as int && j1 == j as int {
                                if self.boundary_of(k2)[j2] == (is_left, e) {
                                    assert(Self::before(k as int, j as int, k2, j2));
                                }
                            } else if k2 == k as int && j2 == j as int {
                                if self.boundary_of(k1)[j1] == (is_left, e) {
                                    assert(Self::before(k as int, j as int, k1, j1));
                                }
                            }
                        }
                    }
                    j = j + 1;
                }
            }
            proof {
                assert forall|k1: int, j1: int, k2: int, j2: int|
                    #![trigger self.boundary_of(k1)[j1], self.boundary_of(k2)[j2]]
                    self.top_level(interface, k1) && self.top_level(interface, k2) && 0 <= j1
                        < self.boundary_of(k1).len() && 0 <= j2 < self.boundary_of(k2).len()
                        && Self::before(k + 1, 0, k1, j1) && Self::before(k + 1, 0, k2, j2) && (k1 != k2
                        || j1 != j2) implies self.boundary_of(k1)[j1] != self.boundary_of(k2)[j2] by {
                    if top {
                        assert(Self::before(k as int, self.boundary_of(k as int).len() as int, k1, j1));
                        assert(Self::before(k as int, self.boundary_of(k as int).len() as int, k2, j2));
                    } else {
                        assert(k1 != k as int);
                        assert(k2 != k as int);
                    }
                }
                let jj: int = if top {
                    self.boundary_of(k as int).len() as int
                } else {
                    0
                };
                assert forall|f: int|
                    0 <= f < edge_num implies ((#[trigger] seen_left@[f]) is Some ==> exists|j1: int|
                    #[trigger] self.holds_entry(interface, seen_left@[f]->Some_0 as int, j1, true, f, k + 1, 0)) by {
                    if seen_left@[f] is Some {
                        let k1 = seen_left@[f]->Some_0;
                        let j1 = choose|j1: int|
                            #[trigger] self.holds_entry(interface, k1 as int, j1, true, f, k as int, jj);
                        assert(self.holds_entry(interface, k1 as int, j1, true, f, k + 1, 0));
                    }
                }
                assert forall|f: int|
                    0 <= f < edge_num implies ((#[trigger] seen_right@[f]) is Some ==> exists|j1: int|
                    #[trigger] self.holds_entry(interface, seen_right@[f]->Some_0 as int, j1, false, f, k + 1, 0)) by {
                    if seen_right@[f] is Some {
                        let k1 = seen_right@[f]->Some_0;
                        let j1 = choose|j1: int|
                            #[trigger] self.holds_entry(interface, k1 as int, j1, false, f, k as int, jj);
                        assert(self.holds_entry(interface, k1 as int, j1, false, f, k + 1, 0));
                    }
                }
            }
            k = k + 1;
        }
        Ok(())
    }
}


/// the mirrored vertices of a unit in the order they are laid out after the owned ones: each as
/// (vertex index, whether it is virtual, the unit that owns it)
pub open spec fn mirrored_list(
    interfaces: Seq<((usize, bool), Vec<(VertexIndex, bool)>)>,
) -> Seq<(VertexIndex, bool, (usize, bool))>
    decreases interfaces.len(),
{
    if interfaces.len() == 0 {
        Seq::empty()
    } else {
        let last = interfaces.last();
        mirrored_list(interfaces.drop_last()) + last.1@.map_values(
            |x: (VertexIndex, bool)| (x.0, x.1, last.0),
        )
    }
}

/// the local index of each mirrored vertex when the list is laid out from local index `base`;
/// a vertex listed twice keeps its last place
pub open spec fn mirror_map(list: Seq<(VertexIndex, bool, (usize, bool))>, base: int) -> Map<
    VertexIndex,
    VertexIndex,
>
    decreases list.len(),
{
    if list.len() == 0 {
        Map::empty()
    } else {
        mirror_map(list.drop_last(), base).insert(list.last().0, (base + list.len() - 1) as usize)
    }
}

/// the local index in a unit of the vertex `v`, owned or mirrored
pub open spec fn partitioned_local(init: &PartitionedSolverInitializer, v: VertexIndex) -> int {
    let start = init.owning_range.range_start;
    if start <= v < init.owning_range.range_end {
        v - start
    } else {
        mirror_map(mirrored_list(init.interfaces@), init.owning_range.range_end - start)[v] as int
    }
}

/// the vertex `v` is owned or mirrored by the unit
pub open spec fn partitioned_hosts(init: &PartitionedSolverInitializer, v: VertexIndex) -> bool {
    ||| init.owning_range.range_start <= v < init.owning_range.range_end
    ||| mirror_map(
        mirrored_list(init.interfaces@),
        init.owning_range.range_end - init.owning_range.range_start,
    ).contains_key(v)
}

proof fn lemma_mirror_map_values(list: Seq<(VertexIndex, bool, (usize, bool))>, base: int)
    requires
        0 <= base,
        base + list.len() <= usize::MAX,
    ensures
        forall|v: VertexIndex|
            #[trigger] mirror_map(list, base).contains_key(v) ==> base <= mirror_map(list, base)[v]
                < base + list.len(),
    decreases list.len(),
{
    if list.len() > 0 {
        lemma_mirror_map_values(list.drop_last(), base);
        let m = mirror_map(list, base);
        let prev = mirror_map(list.drop_last(), base);
        assert forall|v: VertexIndex| #[trigger] m.contains_key(v) implies base <= m[v] < base + list.len() by {
            if v != list.last().0 {
                assert(prev.contains_key(v));
            }
        }
    }
}

impl DualModuleSerial {
    /// the part of the decoding graph given to [`DualModuleSerial::new_partitioned`] is valid: the
    /// owned range is a range, every virtual vertex is owned, and every edge joins two distinct
    /// hosted vertices and has an even non-negative weight
    pub open spec fn partitioned_initializer_valid(init: &PartitionedSolverInitializer) -> bool {
        let start = init.owning_range.range_start;
        let end = init.owning_range.range_end;
        let mirrored = mirrored_list(init.interfaces@);
        &&& start <= end
        &&& (end - start) + mirrored.len() <= usize::MAX
        &&& forall|i: int|
            0 <= i < init.virtual_vertices@.len() ==> start <= #[trigger] init.virtual_vertices@[i]
                < end
        &&& forall|e: int|
            0 <= e < init.weighted_edges@.len() ==> {
                let (i, j, w, _) = #[trigger] init.weighted_edges@[e];
                &&& i != j
                &&& w % 2 == 0
                &&& 0 <= w <= DUAL_BOUND
                &&& partitioned_hosts(init, i)
                &&& partitioned_hosts(init, j)
            }
    }

    /// a unit of the partitioned dual module: first the owned vertices in order, then the
    /// mirrored vertices of each interface in order, and the edges as given
    pub fn new_partitioned(partitioned_initializer: &PartitionedSolverInitializer) -> (r: Self)
        requires
            Self::partitioned_initializer_valid(partitioned_initializer),
        ensures
            r.wf(),
            ({
                let init = partitioned_initializer;
                let start = init.owning_range.range_start;
                let len = init.owning_range.range_end - start;
                let mirrored = mirrored_list(init.interfaces@);
                &&& r.vertices@.len() == len + mirrored.len()
                &&& r.edges@.len() == init.weighted_edges@.len()
                &&& r.nodes@.len() == 0
                &&& r.nodes_length == 0
                &&& r.active_list@.len() == 0
                &&& r.vertex_num == init.vertex_num
                &&& r.edge_num == init.edge_num
                &&& r.owning_range == init.owning_range
                &&& r.unit_module_info matches Some(info) && {
                    &&& info.unit_index == init.unit_index
                    &&& info.mirrored_vertices@ == mirror_map(mirrored, len)
                    &&& info.owning_dual_range == (IndexRange { range_start: 0, range_end: 0 })
                    &&& info.dual_node_pointers@ == Map::<NodeIndex, usize>::empty()
                }
                &&& forall|v: int|
                    0 <= v < len ==> {
                        &&& (#[trigger] r.vertices@[v]).vertex_index == start + v
                        &&& r.vertices@[v].is_virtual == init.virtual_vertices@.contains(
                            (start + v) as usize,
                        )
                        &&& !r.vertices@[v].is_defect
                        &&& r.vertices@[v].mirror_unit == init.owning_interface
                    }
                &&& forall|f: int|
                    0 <= f < mirrored.len() ==> {
                        &&& (#[trigger] r.vertices@[len + f]).vertex_index == mirrored[f].0
                        &&& r.vertices@[len + f].is_virtual == mirrored[f].1
                        &&& !r.vertices@[len + f].is_defect
                        &&& r.vertices@[len + f].mirror_unit == Some(mirrored[f].2)
                    }
                &&& forall|e: int|
                    0 <= e < init.weighted_edges@.len() ==> {
                        let (i, j, w, edge_index) = init.weighted_edges@[e];
                        &&& (#[trigger] r.edges@[e]).weight == w
                        &&& r.edges@[e].edge_index == edge_index
                        &&& r.edges@[e].left == partitioned_local(init, if i < j { i } else { j })
                        &&& r.edges@[e].right == partitioned_local(init, if i < j { j } else { i })
                        &&& r.edges@[e].left_growth == 0
                        &&& r.edges@[e].right_growth == 0
                    }
            }),
            forall|v: int|
                0 <= v < r.vertices@.len() ==> (#[trigger] r.vertices@[v]).edges@ == incident_edges(
                    edge_ends(r.edges@),
                    v as VertexIndex,
                ),
    {
        let init = partitioned_initializer;
        let start = init.owning_range.start();
        let len = init.owning_range.range_end - start;
        let ghost mirrored = mirrored_list(init.interfaces@);
        // create vertices
        let mut vertices: Vec<Vertex> = Vec::new();
        let mut idx: usize = 0;
        while idx < len
            invariant
                idx <= len,
                start == init.owning_range.range_start,
                len == init.owning_range.range_end - start,
                vertices@.len() == idx,
                forall|v: int|
                    0 <= v < idx ==> {
                        &&& (#[trigger] vertices@[v]).vertex_index == start + v
                        &&& !vertices@[v].is_virtual
                        &&& !vertices@[v].is_defect
                        &&& vertices@[v].mirror_unit == init.owning_interface
                        &&& vertices@[v].edges@.len() == 0
                        &&& vertices@[v].propagated_dual_node is None
                        &&& vertices@[v].propagated_grandson_dual_node is None
                        &&& vertices@[v].timestamp == 0
                    },
            decreases len - idx,
        {
            vertices.push(
                Vertex {
                    vertex_index: start + idx,
                    is_virtual: false,
                    is_defect: false,
                    mirror_unit: init.owning_interface,
                    edges: Vec::new(),
                    propagated_dual_node: None,
                    propagated_grandson_dual_node: None,
                    timestamp: 0,
                },
            );
            idx = idx + 1;
        }
        // set virtual vertices
        let mut k: usize = 0;
        while k < init.virtual_vertices.len()
            invariant
                k <= init.virtual_vertices@.len(),
                Self::partitioned_initializer_valid(init),
                start == init.owning_range.range_start,
                len == init.owning_range.range_end - start,
                vertices@.len() == len,
                forall|v: int|
                    0 <= v < len ==> {
                        &&& (#[trigger] vertices@[v]).vertex_index == start + v
                        &&& vertices@[v].is_virtual == init.virtual_vertices@.subrange(
                            0,
                            k as int,
                        ).contains((start + v) as usize)
                        &&& !vertices@[v].is_defect
                        &&& vertices@[v].mirror_unit == init.owning_interface
                        &&& vertices@[v].edges@.len() == 0
                        &&& vertices@[v].propagated_dual_node is None
                        &&& vertices@[v].propagated_grandson_dual_node is None
                        &&& vertices@[v].timestamp == 0
                    },
            decreases init.virtual_vertices@.len() - k,
        {
            let virtual_vertex = init.virtual_vertices[k];
            let local = virtual_vertex - start;
            let mut vertex = vertices.remove(local);
            vertex.is_virtual = true;
            vertices.insert(local, vertex);
            proof {
                let ghost sub_next = init.virtual_vertices@.subrange(0, k + 1);
                let ghost sub = init.virtual_vertices@.subrange(0, k as int);
                assert(sub_next =~= sub.push(virtual_vertex));
                assert forall|v: int| 0 <= v < len implies vertices@[v].is_virtual
                    == sub_next.contains((start + v) as usize) by {
                    if v == local {
                        assert(sub_next[k as int] == virtual_vertex);
                    } else {
                        if sub_next.contains((start + v) as usize) {
                            let j = choose|j: int| 0 <= j < sub_next.len() && sub_next[j] == (start + v) as usize;
                            assert(sub[j] == (start + v) as usize);
                        }
                        if sub.contains((start + v) as usize) {
                            let j = choose|j: int| 0 <= j < sub.len() && sub[j] == (start + v) as usize;
                            assert(sub_next[j] == (start + v) as usize);
                        }
                    }
                }
            }
            k = k + 1;
        }
        assert(init.virtual_vertices@.subrange(0, init.virtual_vertices@.len() as int)
            =~= init.virtual_vertices@);
        // add interface vertices
        let mut mirrored_vertices: BTreeMap<VertexIndex, VertexIndex> = BTreeMap::new();
        let mut t: usize = 0;
        while t < init.interfaces.len()
            invariant
                t <= init.interfaces@.len(),
                Self::partitioned_initializer_valid(init),
                mirrored == mirrored_list(init.interfaces@),
                start == init.owning_range.range_start,
                len == init.owning_range.range_end - start,
                vertices@.len() == len + mirrored_list(init.interfaces@.take(t as int)).len(),
                mirrored_list(init.interfaces@.take(t as int)).len() <= mirrored.len(),
                mirrored_vertices@ == mirror_map(mirrored_list(init.interfaces@.take(t as int)), len as int),
                forall|v: int|
                    0 <= v < len ==> {
                        &&& (#[trigger] vertices@[v]).vertex_index == start + v
                        &&& vertices@[v].is_virtual == init.virtual_vertices@.contains((start + v) as usize)
                        &&& !vertices@[v].is_defect
                        &&& vertices@[v].mirror_unit == init.owning_interface
                        &&& vertices@[v].edges@.len() == 0
                        &&& vertices@[v].propagated_dual_node is None
                        &&& vertices@[v].propagated_grandson_dual_node is None
                        &&& vertices@[v].timestamp == 0
                    },
                forall|f: int|
                    0 <= f < mirrored_list(init.interfaces@.take(t as int)).len() ==> {
                        let item = mirrored_list(init.interfaces@.take(t as int))[f];
                        &&& (#[trigger] vertices@[len + f]).vertex_index == item.0
                        &&& vertices@[len + f].is_virtual == item.1
                        &&& !vertices@[len + f].is_defect
                        &&& vertices@[len + f].mirror_unit == Some(item.2)
                        &&& vertices@[len + f].edges@.len() == 0
                        &&& vertices@[len + f].propagated_dual_node is None
                        &&& vertices@[len + f].propagated_grandson_dual_node is None
                        &&& vertices@[len + f].timestamp == 0
                    },
            decreases init.interfaces@.len() - t,
        {
            let ghost before = mirrored_list(init.interfaces@.take(t as int));
            let mirror_unit = init.interfaces[t].0;
            let interface_vertices = &init.interfaces[t].1;
            let ghost current = interface_vertices@.map_values(
                |x: (VertexIndex, bool)| (x.0, x.1, mirror_unit),
            );
            proof {
                lemma_mirrored_list_take(init.interfaces@, t as int);
                assert(mirrored_list(init.interfaces@.take(t + 1)) == before + current);
                lemma_mirrored_list_prefix_len(init.interfaces@, t + 1);
            }
            let mut i: usize = 0;
            while i < interface_vertices.len()
                invariant
                    i <= interface_vertices@.len(),
                    interface_vertices@ == init.interfaces@[t as int].1@,
                    t < init.interfaces@.len(),
                    mirror_unit == init.interfaces@[t as int].0,
                    current == interface_vertices@.map_values(
                        |x: (VertexIndex, bool)| (x.0, x.1, mirror_unit),
                    ),
                    before == mirrored_list(init.interfaces@.take(t as int)),
                    len + before.len() + current.len() <= usize::MAX,
                    vertices@.len() == len + before.len() + i,
                    mirrored_vertices@ == mirror_map(before + current.take(i as int), len as int),
                    forall|v: int|
                        0 <= v < len ==> {
                            &&& (#[trigger] vertices@[v]).vertex_index == start + v
                            &&& vertices@[v].is_virtual == init.virtual_vertices@.contains((start + v) as usize)
                            &&& !vertices@[v].is_defect
                            &&& vertices@[v].mirror_unit == init.owning_interface
                            &&& vertices@[v].edges@.len() == 0
                            &&& vertices@[v].propagated_dual_node is None
                            &&& vertices@[v].propagated_grandson_dual_node is None
                            &&& vertices@[v].timestamp == 0
                        },
                    forall|f: int|
                        0 <= f < before.len() + i ==> {
                            let item = (before + current.take(i as int))[f];
                            &&& (#[trigger] vertices@[len + f]).vertex_index == item.0
                            &&& vertices@[len + f].is_virtual == item.1
                            &&& !vertices@[len + f].is_defect
                            &&& vertices@[len + f].mirror_unit == Some(item.2)
                            &&& vertices@[len + f].edges@.len() == 0
                            &&& vertices@[len + f].propagated_dual_node is None
                            &&& vertices@[len + f].propagated_grandson_dual_node is None
                            &&& vertices@[len + f].timestamp == 0
                        },
                decreases interface_vertices@.len() - i,
            {
                let (vertex_index, is_virtual) = interface_vertices[i];
                let ghost old_list = before + current.take(i as int);
                let local = vertices.len();
                mirrored_vertices.insert(vertex_index, local);
                vertices.push(
                    Vertex {
                        vertex_index,
                        is_virtual,
                        is_defect: false,
                        mirror_unit: Some(mirror_unit),
                        edges: Vec::new(),
                        propagated_dual_node: None,
                        propagated_grandson_dual_node: None,
                        timestamp: 0,
                    },
                );
                i = i + 1;
                proof {
                    let new_list = before + current.take(i as int);
                    assert(current[i - 1] == (vertex_index, is_virtual, mirror_unit));
                    assert(new_list =~= old_list.push((vertex_index, is_virtual, mirror_unit)));
                    assert(new_list.drop_last() =~= old_list);
                    assert forall|f: int| 0 <= f < before.len() + i implies {
                        let item = new_list[f];
                        &&& (#[trigger] vertices@[len + f]).vertex_index == item.0
                        &&& vertices@[len + f].is_virtual == item.1
                        &&& !vertices@[len + f].is_defect
                        &&& vertices@[len + f].mirror_unit == Some(item.2)
                        &&& vertices@[len + f].edges@.len() == 0
                        &&& vertices@[len + f].propagated_dual_node is None
                        &&& vertices@[len + f].propagated_grandson_dual_node is None
                        &&& vertices@[len + f].timestamp == 0
                    } by {
                        if f < before.len() + i - 1 {
                            assert(new_list[f] == old_list[f]);
                        }
                    }
                }
            }
            proof {
                assert(current.take(i as int) =~= current);
            }
            t = t + 1;
        }
        proof {
            assert(init.interfaces@.take(init.interfaces@.len() as int) =~= init.interfaces@);
            lemma_mirror_map_values(mirrored, len as int);
        }
        let ghost shape0 = vertex_shape(vertices@);
        proof {
            assert forall|v: int| 0 <= v < shape0.len() implies {
                &&& (#[trigger] shape0[v]).4 is None
                &&& shape0[v].5 is None
                &&& shape0[v].6 == 0
                &&& vertices@[v].edges@.len() == 0
            } by {
                if v >= len {
                    assert(vertices@[len + (v - len)].timestamp == 0);
                }
            }
            assert forall|v: int, j: int|
                0 <= v < vertices@.len() && 0 <= j < vertices@[v].edges@.len() implies #[trigger] vertices@[v].edges@[j]
                    < 0 by {
                assert(shape0[v].4 is None);
            }
        }
        // set edges
        let mut edges: Vec<Edge> = Vec::new();
        let mut e: usize = 0;
        proof {
            assert forall|v: int| 0 <= v < vertices@.len() implies (#[trigger] vertices@[v]).edges@ == incident_edges(
                edge_ends(edges@),
                v as VertexIndex,
            ) by {
                assert(shape0[v].4 is None);
                assert(vertices@[v].edges@ =~= Seq::<EdgeIndex>::empty());
            }
        }
        while e < init.weighted_edges.len()
            invariant
                e <= init.weighted_edges@.len(),
                Self::partitioned_initializer_valid(init),
                mirrored == mirrored_list(init.interfaces@),
                start == init.owning_range.range_start,
                len == init.owning_range.range_end - start,
                vertices@.len() == len + mirrored.len(),
                vertex_shape(vertices@) == shape0,
                mirrored_vertices@ == mirror_map(mirrored, len as int),
                forall|v: VertexIndex|
                    #[trigger] mirror_map(mirrored, len as int).contains_key(v) ==> len <= mirror_map(
                        mirrored,
                        len as int,
                    )[v] < len + mirrored.len(),
                forall|v: int, j: int|
                    0 <= v < vertices@.len() && 0 <= j < vertices@[v].edges@.len() ==> #[trigger] vertices@[v].edges@[j]
                        < e,
                forall|v: int|
                    0 <= v < vertices@.len() ==> (#[trigger] vertices@[v]).edges@ == incident_edges(
                        edge_ends(edges@),
                        v as VertexIndex,
                    ),
                edges@.len() == e,
                forall|f: int|
                    0 <= f < e ==> {
                        let (i, j, w, edge_index) = init.weighted_edges@[f];
                        &&& (#[trigger] edges@[f]).weight == w
                        &&& edges@[f].edge_index == edge_index
                        &&& edges@[f].left == partitioned_local(init, if i < j { i } else { j })
                        &&& edges@[f].right == partitioned_local(init, if i < j { j } else { i })
                        &&& edges@[f].left < vertices@.len()
                        &&& edges@[f].right < vertices@.len()
                        &&& edges@[f].left_growth == 0
                        &&& edges@[f].right_growth == 0
                        &&& edges@[f].left_dual_node is None
                        &&& edges@[f].left_grandson_dual_node is None
                        &&& edges@[f].right_dual_node is None
                        &&& edges@[f].right_grandson_dual_node is None
                        &&& edges@[f].timestamp == 0
                        &&& 0 <= edges@[f].weight <= DUAL_BOUND
                    },
            decreases init.weighted_edges@.len() - e,
        {
            let (i, j, weight, edge_index) = init.weighted_edges[e];
            assert(init.weighted_edges@[e as int] == (i, j, weight, edge_index));
            let left = if i < j {
                i
            } else {
                j
            };
            let right = if i < j {
                j
            } else {
                i
            };
            let left_index = Self::partitioned_local_exec(init, &mirrored_vertices, left);
            let right_index = Self::partitioned_local_exec(init, &mirrored_vertices, right);
            proof {
                if !(init.owning_range.range_start <= left < init.owning_range.range_end) {
                    assert(mirror_map(mirrored, len as int).contains_key(left));
                }
                if !(init.owning_range.range_start <= right < init.owning_range.range_end) {
                    assert(mirror_map(mirrored, len as int).contains_key(right));
                }
            }
            let ghost old_edges = edges@;
            edges.push(
                Edge {
                    edge_index,
                    weight,
                    left: left_index,
                    right: right_index,
                    left_growth: 0,
                    right_growth: 0,
                    left_dual_node: None,
                    left_grandson_dual_node: None,
                    right_dual_node: None,
                    right_grandson_dual_node: None,
                    timestamp: 0,
                    dedup_timestamp: (0, 0),
                },
            );
            let ghost before = vertices@;
            add_incident_edge(&mut vertices, left_index, e);
            let ghost middle = vertices@;
            add_incident_edge(&mut vertices, right_index, e);
            proof {
                let ends = edge_ends(edges@);
                assert(edges@.drop_last() =~= old_edges);
                assert(ends.drop_last() =~= edge_ends(old_edges));
                assert(ends.last() == (left_index, right_index));
                assert forall|v: int| 0 <= v < vertices@.len() implies (#[trigger] vertices@[v]).edges@ == incident_edges(
                    ends,
                    v as VertexIndex,
                ) by {
                    assert(before[v].edges@ == incident_edges(ends.drop_last(), v as VertexIndex));
                    if v != right_index as int {
                        assert(vertices@[v].edges@ == middle[v].edges@);
                    }
                    if v != left_index as int {
                        assert(middle[v].edges@ == before[v].edges@);
                    }
                }
                assert forall|v: int, j: int|
                    0 <= v < vertices@.len() && 0 <= j < vertices@[v].edges@.len() implies #[trigger] vertices@[v].edges@[j]
                        < e + 1 by {
                    if v != right_index as int {
                        assert(vertices@[v].edges@ == middle[v].edges@);
                    }
                    if v != left_index as int {
                        assert(middle[v].edges@ == before[v].edges@);
                    }
                }
            }
            e = e + 1;
        }
        let r = DualModuleSerial {
            vertices,
            nodes: Vec::new(),
            nodes_length: 0,
            edges,
            active_timestamp: 0,
            vertex_num: init.vertex_num,
            edge_num: init.edge_num,
            owning_range: init.owning_range,
            unit_module_info: Some(
                UnitModuleInfo {
                    unit_index: init.unit_index,
                    mirrored_vertices,
                    owning_dual_range: IndexRange::new(0, 0),
                    dual_node_pointers: BTreeMap::new(),
                },
            ),
            active_list: Vec::new(),
            current_cycle: 0,
            edge_modifier: EdgeWeightModifier::new(),
            edge_dedup_timestamp: 0,
            sync_requests: Vec::new(),
            updated_boundary: Vec::new(),
            propagating_vertices: Vec::new(),
        };
        proof {
            assert forall|v: int| 0 <= v < r.vertices@.len() implies #[trigger] r.vertex_wf(v) by {
                assert forall|j: int| 0 <= j < r.vertices@[v].edges@.len() implies #[trigger] r.vertices@[v].edges@[j]
                    < r.edges@.len() by {
                    assert(r.vertices@[v].edges@[j] < e);
                }
                assert(vertex_shape(r.vertices@)[v] == shape0[v]);
            }
            assert forall|f: int| 0 <= f < r.edges@.len() implies #[trigger] r.edge_wf(f) by {
                assert(r.edges@[f].timestamp == 0);
            }
            assert forall|v: int| 0 <= v < len implies {
                &&& (#[trigger] r.vertices@[v]).vertex_index == start + v
                &&& r.vertices@[v].is_virtual == init.virtual_vertices@.contains((start + v) as usize)
                &&& !r.vertices@[v].is_defect
                &&& r.vertices@[v].mirror_unit == init.owning_interface
            } by {
                assert(vertex_shape(r.vertices@)[v] == shape0[v]);
            }
            assert forall|f: int| 0 <= f < mirrored.len() implies {
                &&& (#[trigger] r.vertices@[len + f]).vertex_index == mirrored[f].0
                &&& r.vertices@[len + f].is_virtual == mirrored[f].1
                &&& !r.vertices@[len + f].is_defect
                &&& r.vertices@[len + f].mirror_unit == Some(mirrored[f].2)
            } by {
                assert(vertex_shape(r.vertices@)[len + f] == shape0[len + f]);
            }
        }
        r
    }

    /// the local index of a hosted vertex
    fn partitioned_local_exec(
        init: &PartitionedSolverInitializer,
        mirrored_vertices: &BTreeMap<VertexIndex, VertexIndex>,
        v: VertexIndex,
    ) -> (r: usize)
        requires
            init.owning_range.range_start <= init.owning_range.range_end,
            partitioned_hosts(init, v),
            mirrored_vertices@ == mirror_map(
                mirrored_list(init.interfaces@),
                init.owning_range.range_end - init.owning_range.range_start,
            ),
        ensures
            r == partitioned_local(init, v),
    {
        if init.owning_range.contains(v) {
            v - init.owning_range.start()
        } else {
            match mirrored_vertices.get(&v) {
                Some(index) => *index,
                None => 0,
            }
        }
    }
}


/// what a vertex holds besides its incident edges
spec fn vertex_shape(vs: Seq<Vertex>) -> Seq<(VertexIndex, bool, bool, Option<(usize, bool)>, Option<usize>, Option<usize>, FastClearTimestamp)> {
    vs.map_values(
        |x: Vertex|
            (
                x.vertex_index,
                x.is_virtual,
                x.is_defect,
                x.mirror_unit,
                x.propagated_dual_node,
                x.propagated_grandson_dual_node,
                x.timestamp,
            ),
    )
}

/// the two (local) vertices of each edge
pub open spec fn edge_ends(edges: Seq<Edge>) -> Seq<(VertexIndex, VertexIndex)> {
    edges.map_values(|x: Edge| (x.left, x.right))
}

/// the edges incident to vertex `v`, in increasing order: an edge is listed once for each of its
/// ends that is `v`
pub open spec fn incident_edges(ends: Seq<(VertexIndex, VertexIndex)>, v: VertexIndex) -> Seq<EdgeIndex>
    decreases ends.len(),
{
    if ends.len() == 0 {
        Seq::empty()
    } else {
        let front = incident_edges(ends.drop_last(), v);
        let n = (ends.len() - 1) as EdgeIndex;
        let with_left = if ends.last().0 == v {
            front.push(n)
        } else {
            front
        };
        if ends.last().1 == v {
            with_left.push(n)
        } else {
            with_left
        }
    }
}

/// make edge `e` incident to vertex `v`
fn add_incident_edge(vertices: &mut Vec<Vertex>, v: usize, e: EdgeIndex)
    requires
        v < old(vertices)@.len(),
    ensures
        final(vertices)@.len() == old(vertices)@.len(),
        vertex_shape(final(vertices)@) == vertex_shape(old(vertices)@),
        forall|u: int|
            0 <= u < old(vertices)@.len() && u != v ==> final(vertices)@[u].edges@ == old(vertices)@[u].edges@,
        final(vertices)@[v as int].edges@ == old(vertices)@[v as int].edges@.push(e),
{
    let mut vertex = vertices.remove(v);
    vertex.edges.push(e);
    vertices.insert(v, vertex);
    assert(vertex_shape(vertices@) =~= vertex_shape(old(vertices)@));
}

proof fn lemma_mirrored_list_take(interfaces: Seq<((usize, bool), Vec<(VertexIndex, bool)>)>, t: int)
    requires
        0 <= t < interfaces.len(),
    ensures
        mirrored_list(interfaces.take(t + 1)) == mirrored_list(interfaces.take(t)) + interfaces[t].1@.map_values(
            |x: (VertexIndex, bool)| (x.0, x.1, interfaces[t].0),
        ),
{
    assert(interfaces.take(t + 1).drop_last() =~= interfaces.take(t));
    assert(interfaces.take(t + 1).last() == interfaces[t]);
}

proof fn lemma_mirrored_list_prefix_len(interfaces: Seq<((usize, bool), Vec<(VertexIndex, bool)>)>, t: int)
    requires
        0 <= t <= interfaces.len(),
    ensures
        mirrored_list(interfaces.take(t)).len() <= mirrored_list(interfaces).len(),
    decreases interfaces.len() - t,
{
    if t < interfaces.len() {
        lemma_mirrored_list_take(interfaces, t);
        lemma_mirrored_list_prefix_len(interfaces, t + 1);
    } else {
        assert(interfaces.take(t) =~= interfaces);
    }
}


impl DualModuleSerial {
    /// the propagated node of vertex `v` as seen at the active timestamp
    pub open spec fn vertex_node(&self, v: int) -> Option<usize> {
        if self.vertices@[v].timestamp == self.active_timestamp {
            self.vertices@[v].propagated_dual_node
        } else {
            None
        }
    }

    /// the incident edges of vertex `v`, each with the side of `v`
    pub open spec fn incident_sides(&self, v: int) -> Seq<(bool, EdgeIndex)> {
        let inc = self.vertices@[v].edges@;
        Seq::new(inc.len(), |t: int| (self.edges@[inc[t] as int].left == v, inc[t]))
    }

    /// the local index of a vertex of the graph, if this module hosts it
    pub open spec fn spec_vertex_index(&self, vertex_index: VertexIndex) -> Option<usize> {
        if self.owning_range.range_start <= vertex_index < self.owning_range.range_end {
            Some((vertex_index - self.owning_range.range_start) as usize)
        } else {
            match self.unit_module_info {
                Some(info) => if info.mirrored_vertices@.contains_key(vertex_index) {
                    Some(info.mirrored_vertices@[vertex_index])
                } else {
                    None
                },
                None => None,
            }
        }
    }

    /// vertex `v` leaves its propagated node `k`: the side of `v` of every incident edge and of
    /// every boundary entry of `k` is emptied, and the boundary of `k` is rebuilt without the
    /// entries at `v` and with the far side of the incident edges that `k` held
    fn vacate_for_sync(&mut self, v: usize, k: usize)
        requires
            old(self).wf(),
            v < old(self).vertices@.len(),
            k < old(self).nodes@.len(),
            old(self).nodes@[k as int] is Some,
        ensures
            final(self).wf(),
            final(self).stable(old(self)),
            final(self).sync_requests@ == old(self).sync_requests@,
            final(self).vertices@[v as int].propagated_dual_node is None,
            final(self).vertices@[v as int].propagated_grandson_dual_node is None,
            final(self).vertices@[v as int].timestamp == old(self).vertices@[v as int].timestamp,
            forall|u: int|
                0 <= u < final(self).vertices@.len() && u != v ==> final(self).vertices@[u] == old(self).vertices@[u],
            forall|t: int|
                0 <= t < old(self).incident_sides(v as int).len() ==> final(self).edge_node(
                    (#[trigger] old(self).incident_sides(v as int)[t]).1 as int,
                    old(self).incident_sides(v as int)[t].0,
                ) is None,
    {
        let ghost start = *self;
        let ghost inc = start.incident_sides(v as int);
        self.set_vertex_propagation(v, None, None);
        let ghost s0 = *self;
        self.clear_temporaries();
        proof {
            Self::lemma_stable_trans(&start, &s0, self);
        }
        let n = self.boundary_len(k);
        let mut j: usize = 0;
        while j < n
            invariant
                self.wf(),
                self.stable(&start),
                self.sync_requests@ == start.sync_requests@,
                k < self.nodes@.len(),
                self.nodes@[k as int] is Some,
                n == self.boundary_of(k as int).len(),
                j <= n,
                v < self.vertices@.len(),
                self.vertices@[v as int].propagated_dual_node is None,
                self.vertices@[v as int].propagated_grandson_dual_node is None,
                self.vertices@[v as int].timestamp == start.vertices@[v as int].timestamp,
                forall|u: int|
                    0 <= u < self.vertices@.len() && u != v ==> self.vertices@[u] == start.vertices@[u],
            decreases n - j,
        {
            let (is_left, e) = self.boundary_entry(k, j);
            proof {
                assert(self.edge_wf(e as int));
            }
            let this_vertex = if is_left {
                self.edges[e].left
            } else {
                self.edges[e].right
            };
            let ghost s1 = *self;
            if this_vertex == v {
                let occupied = if is_left {
                    self.edges[e].left_dual_node.is_some()
                } else {
                    self.edges[e].right_dual_node.is_some()
                };
                if occupied {
                    self.set_edge_side(e, is_left, None, None);
                }
            } else {
                self.push_updated_boundary(is_left, e);
            }
            proof {
                Self::lemma_stable_trans(&start, &s1, self);
            }
            j = j + 1;
        }
        assert(self.vertex_wf(v as int));
        let m = self.vertices[v].edges.len();
        let mut t: usize = 0;
        while t < m
            invariant
                self.wf(),
                self.stable(&start),
                self.sync_requests@ == start.sync_requests@,
                k < self.nodes@.len(),
                self.nodes@[k as int] is Some,
                v < self.vertices@.len(),
                t <= m,
                m == inc.len(),
                inc == start.incident_sides(v as int),
                self.vertices@[v as int].edges == start.vertices@[v as int].edges,
                self.vertices@[v as int].propagated_dual_node is None,
                self.vertices@[v as int].propagated_grandson_dual_node is None,
                self.vertices@[v as int].timestamp == start.vertices@[v as int].timestamp,
                forall|u: int|
                    0 <= u < self.vertices@.len() && u != v ==> self.vertices@[u] == start.vertices@[u],
                forall|i: int|
                    0 <= i < t ==> self.edge_node((#[trigger] inc[i]).1 as int, inc[i].0) is None,
            decreases m - t,
        {
            proof {
                assert(self.vertex_wf(v as int));
            }
            let e = self.vertices[v].edges[t];
            proof {
                assert(inc[t as int] == (start.edges@[e as int].left == v, e));
            }
            let ghost s1 = *self;
            self.dynamic_clear_edge(e);
            proof {
                Self::lemma_stable_trans(&start, &s1, self);
                assert(self.edge_wf(e as int));
            }
            let is_left = self.edges[e].left == v;
            let occupied = if is_left {
                self.edges[e].left_dual_node.is_some()
            } else {
                self.edges[e].right_dual_node.is_some()
            };
            if occupied {
                let ghost s2 = *self;
                self.set_edge_side(e, is_left, None, None);
                proof {
                    Self::lemma_stable_trans(&start, &s2, self);
                }
                let ghost s3 = *self;
                self.push_updated_boundary(!is_left, e);
                proof {
                    Self::lemma_stable_trans(&start, &s3, self);
                }
            }
            proof {
                assert forall|i: int| 0 <= i < t + 1 implies self.edge_node((#[trigger] inc[i]).1 as int, inc[i].0) is None by {
                    if inc[i].1 != e {
                        assert(self.edges@[inc[i].1 as int] == s1.edges@[inc[i].1 as int]);
                    }
                }
            }
            t = t + 1;
        }
        let ghost s4 = *self;
        self.install_boundary(k);
        proof {
            Self::lemma_stable_trans(&start, &s4, self);
            assert forall|i: int| 0 <= i < inc.len() implies self.edge_node((#[trigger] inc[i]).1 as int, inc[i].0) is None by {
                assert(self.edges@ == s4.edges@);
            }
        }
    }

    /// vertex `v` joins node `k` with grandson `g`: the side of `v` of every incident edge gets
    /// them, these sides join the boundary of `k`, and `k` becomes active
    fn occupy_for_sync(&mut self, v: usize, k: usize, g: usize)
        requires
            old(self).wf(),
            v < old(self).vertices@.len(),
            k < old(self).nodes@.len(),
            g < old(self).nodes@.len(),
            old(self).nodes@[k as int] is Some,
        ensures
            final(self).wf(),
            final(self).same_shape(old(self)),
            final(self).active_list@ == old(self).active_list@.push(k),
            final(self).sync_requests@ == old(self).sync_requests@,
            final(self).vertices@[v as int].propagated_dual_node == Some(k),
            final(self).vertices@[v as int].propagated_grandson_dual_node == Some(g),
            final(self).vertices@[v as int].timestamp == old(self).vertices@[v as int].timestamp,
            forall|u: int|
                0 <= u < final(self).vertices@.len() && u != v ==> final(self).vertices@[u] == old(self).vertices@[u],
            forall|t: int|
                0 <= t < old(self).incident_sides(v as int).len() ==> {
                    let (is_left, e) = #[trigger] old(self).incident_sides(v as int)[t];
                    &&& final(self).edge_node(e as int, is_left) == Some(k)
                    &&& final(self).edge_grandson(e as int, is_left) == Some(g)
                },
            final(self).boundary_of(k as int) == old(self).boundary_of(k as int) + old(self).incident_sides(v as int),
            forall|j: int|
                0 <= j < final(self).nodes@.len() && j != k ==> final(self).nodes@[j] == old(self).nodes@[j],
    {
        let ghost start = *self;
        let ghost inc = start.incident_sides(v as int);
        self.set_vertex_propagation(v, Some(k), Some(g));
        assert(self.vertex_wf(v as int));
        let m = self.vertices[v].edges.len();
        let mut t: usize = 0;
        while t < m
            invariant
                self.wf(),
                self.stable(&start),
                self.sync_requests@ == start.sync_requests@,
                k < self.nodes@.len(),
                g < self.nodes@.len(),
                self.nodes@[k as int] is Some,
                v < self.vertices@.len(),
                t <= m,
                m == inc.len(),
                inc == start.incident_sides(v as int),
                self.vertices@[v as int].edges == start.vertices@[v as int].edges,
                self.vertices@[v as int].propagated_dual_node == Some(k),
                self.vertices@[v as int].propagated_grandson_dual_node == Some(g),
                self.vertices@[v as int].timestamp == start.vertices@[v as int].timestamp,
                forall|u: int|
                    0 <= u < self.vertices@.len() && u != v ==> self.vertices@[u] == start.vertices@[u],
                forall|i: int|
                    0 <= i < t ==> self.edge_node((#[trigger] inc[i]).1 as int, inc[i].0) == Some(k)
                        && self.edge_grandson(inc[i].1 as int, inc[i].0) == Some(g),
                self.boundary_of(k as int) == start.boundary_of(k as int) + inc.take(t as int),
                forall|j: int|
                    0 <= j < self.nodes@.len() && j != k ==> self.nodes@[j] == start.nodes@[j],
            decreases m - t,
        {
            proof {
                assert(self.vertex_wf(v as int));
            }
            let e = self.vertices[v].edges[t];
            proof {
                assert(inc[t as int] == (start.edges@[e as int].left == v, e));
            }
            let ghost s1 = *self;
            self.dynamic_clear_edge(e);
            proof {
                Self::lemma_stable_trans(&start, &s1, self);
                assert(self.edge_wf(e as int));
            }
            let is_left = self.edges[e].left == v;
            let ghost s2 = *self;
            self.set_edge_side(e, is_left, Some(k), Some(g));
            proof {
                Self::lemma_stable_trans(&start, &s2, self);
            }
            let ghost s3 = *self;
            self.push_node_boundary(k, is_left, e);
            proof {
                Self::lemma_stable_trans(&start, &s3, self);
                assert(inc.take(t + 1) =~= inc.take(t as int).push((is_left, e)));
                assert forall|i: int| 0 <= i < t + 1 implies self.edge_node((#[trigger] inc[i]).1 as int, inc[i].0) == Some(k)
                    && self.edge_grandson(inc[i].1 as int, inc[i].0) == Some(g) by {
                    if inc[i].1 != e {
                        assert(self.edges@[inc[i].1 as int] == s1.edges@[inc[i].1 as int]);
                    }
                }
            }
            t = t + 1;
        }
        proof {
            assert(inc.take(m as int) =~= inc);
        }
        let ghost s4 = *self;
        self.push_active(k);
        proof {
            assert(self.same_shape(&s4));
            Self::lemma_same_shape_trans(&start, &s4, self);
        }
    }
}


impl DualModuleSerial {
    /// shift the owned range of dual nodes of this unit by `bias`
    pub fn bias_dual_node_index(&mut self, bias: NodeIndex)
        requires
            old(self).unit_module_info is Some,
            old(self).unit_module_info->Some_0.owning_dual_range.wf(),
            old(self).unit_module_info->Some_0.owning_dual_range.range_end + bias <= usize::MAX,
        ensures
            final(self).unit_module_info is Some,
            final(self).unit_module_info->Some_0.owning_dual_range == (IndexRange {
                range_start: (old(self).unit_module_info->Some_0.owning_dual_range.range_start + bias) as usize,
                range_end: (old(self).unit_module_info->Some_0.owning_dual_range.range_end + bias) as usize,
            }),
            final(self).unit_module_info->Some_0.unit_index == old(self).unit_module_info->Some_0.unit_index,
            final(self).unit_module_info->Some_0.mirrored_vertices == old(self).unit_module_info->Some_0.mirrored_vertices,
            final(self).unit_module_info->Some_0.dual_node_pointers == old(self).unit_module_info->Some_0.dual_node_pointers,
            final(self).vertices == old(self).vertices,
            final(self).edges == old(self).edges,
            final(self).nodes == old(self).nodes,
            final(self).nodes_length == old(self).nodes_length,
            final(self).active_timestamp == old(self).active_timestamp,
            final(self).active_list == old(self).active_list,
            final(self).sync_requests == old(self).sync_requests,
            final(self).frame_unchanged(old(self)),
    {
        match &mut self.unit_module_info {
            Some(unit_module_info) => unit_module_info.owning_dual_range.bias_by(bias),
            None => {},
        }
    }

    /// the internal node, in the module after the call, that an entry of a synchronize request
    /// names
    pub open spec fn sync_target(&self, entry: Option<(DualNodePtr, Weight, VertexIndex)>) -> Option<usize> {
        match entry {
            Some((ptr, _, _)) => self.spec_dual_node_index(ptr),
            None => None,
        }
    }

    /// an entry of a synchronize request can be taken in: a node this module holds is in its
    /// arena, and the dual variable of a node it does not hold yet is within the bound
    pub open spec fn sync_entry_valid(&self, entry: Option<(DualNodePtr, Weight, VertexIndex)>) -> bool {
        match entry {
            Some((ptr, dual_variable, _)) => {
                &&& -DUAL_BOUND <= dual_variable <= DUAL_BOUND
                &&& self.spec_dual_node_index(ptr) matches Some(i) ==> i < self.nodes@.len()
                    && self.nodes@[i as int] is Some
            },
            None => true,
        }
    }

    /// the internal node for an entry of a synchronize request, added when missing
    fn take_sync_entry(&mut self, entry: &Option<(DualNodePtr, Weight, VertexIndex)>) -> (r: Option<usize>)
        requires
            old(self).wf(),
            old(self).nodes_length < usize::MAX,
            old(self).sync_entry_valid(*entry),
        ensures
            final(self).wf(),
            r == final(self).sync_target(*entry),
            r matches Some(i) ==> i < final(self).nodes@.len() && final(self).nodes@[i as int] is Some,
            *entry matches Some((ptr, dual_variable, _)) ==> (old(self).spec_dual_node_index(ptr) is None
                ==> final(self).nodes@[r->Some_0 as int]->Some_0.origin == ptr
                && final(self).nodes@[r->Some_0 as int]->Some_0.dual_variable == dual_variable),
            *entry is None ==> *final(self) == *old(self),
            *entry matches Some((ptr, _, _)) ==> (old(self).spec_dual_node_index(ptr) is Some ==> *final(self)
                == *old(self)),
            *entry matches Some((ptr, _, _)) ==> (old(self).spec_dual_node_index(ptr) is None ==> r == Some(
                old(self).nodes_length,
            ) && final(self).nodes_length == old(self).nodes_length + 1),
            forall|p: DualNodePtr|
                (*entry matches Some((ptr, _, _)) ==> p.index != ptr.index) ==> #[trigger] final(self).spec_dual_node_index(p) == old(self).spec_dual_node_index(p),
            final(self).vertices@ == old(self).vertices@,
            final(self).edges@ == old(self).edges@,
            final(self).active_timestamp == old(self).active_timestamp,
            final(self).owning_range == old(self).owning_range,
            final(self).frame_unchanged(old(self)),
            final(self).nodes_length >= old(self).nodes_length,
            final(self).nodes_length <= old(self).nodes_length + 1,
            final(self).nodes@.len() >= old(self).nodes@.len(),
            forall|j: int|
                0 <= j < old(self).nodes_length && j < old(self).nodes@.len() ==> final(self).nodes@[j]
                    == old(self).nodes@[j],
            forall|j: int|
                0 <= j < old(self).nodes@.len() && old(self).nodes@[j] is Some ==> #[trigger] final(self).nodes@[j] is Some,
            final(self).sync_requests@ == old(self).sync_requests@,
            final(self).active_list@.len() >= old(self).active_list@.len(),
            final(self).active_list@.subrange(0, old(self).active_list@.len() as int) == old(self).active_list@,
            final(self).unit_module_info is Some <==> old(self).unit_module_info is Some,
    {
        match entry {
            Some((dual_node_ptr, dual_variable, _)) => Some(self.get_otherwise_add_dual_node(dual_node_ptr, *dual_variable)),
            None => None,
        }
    }

    /// take in a synchronize request of another unit: the vertex gets the propagated node and
    /// grandson of the request, adding them as internal nodes when missing; when its node changes,
    /// it first leaves the old one and then grows the new one over its edges
    pub fn execute_sync_event(&mut self, sync_event: &SyncRequest)
        requires
            old(self).wf(),
            old(self).nodes_length + 1 < usize::MAX,
            old(self).spec_vertex_index(sync_event.vertex_index) matches Some(l) && l < old(
                self,
            ).vertices@.len(),
            old(self).sync_entry_valid(sync_event.propagated_dual_node),
            old(self).sync_entry_valid(sync_event.propagated_grandson_dual_node),
            sync_event.propagated_dual_node is Some ==> sync_event.propagated_grandson_dual_node is Some,
            old(self).vertex_node(old(self).spec_vertex_index(sync_event.vertex_index)->Some_0 as int) matches Some(
                k,
            ) ==> old(self).nodes@[k as int] is Some,
        ensures
            final(self).edge_modifier == old(self).edge_modifier,
            final(self).wf(),
            ({
                let l = old(self).spec_vertex_index(sync_event.vertex_index)->Some_0 as int;
                let p = final(self).sync_target(sync_event.propagated_dual_node);
                let g = final(self).sync_target(sync_event.propagated_grandson_dual_node);
                let switched = old(self).vertex_node(l) != p;
                &&& final(self).vertices@.len() == old(self).vertices@.len()
                &&& final(self).edges@.len() == old(self).edges@.len()
                &&& forall|u: int|
                    0 <= u < final(self).vertices@.len() && u != l ==> final(self).vertices@[u]
                        == old(self).vertices@[u]
                &&& final(self).vertices@[l].timestamp == final(self).active_timestamp
                &&& final(self).vertices@[l].propagated_dual_node == p
                &&& final(self).vertices@[l].propagated_grandson_dual_node == (if switched && p is None {
                    None
                } else {
                    g
                })
                &&& !switched ==> final(self).edges@ == old(self).edges@
                &&& switched ==> forall|t: int|
                    0 <= t < old(self).incident_sides(l).len() ==> {
                        let (is_left, e) = #[trigger] old(self).incident_sides(l)[t];
                        &&& final(self).edge_node(e as int, is_left) == p
                        &&& p is Some ==> final(self).edge_grandson(e as int, is_left) == g
                    }
                &&& forall|e: int|
                    0 <= e < final(self).edges@.len() ==> {
                        &&& (#[trigger] final(self).edges@[e]).weight == old(self).edges@[e].weight
                        &&& final(self).edges@[e].left == old(self).edges@[e].left
                        &&& final(self).edges@[e].right == old(self).edges@[e].right
                        &&& final(self).growth_of(e, true) == old(self).growth_of(e, true)
                        &&& final(self).growth_of(e, false) == old(self).growth_of(e, false)
                    }
                &&& forall|j: int|
                    0 <= j < old(self).nodes_length && j < old(self).nodes@.len() && old(self).nodes@[j] is Some
                        ==> {
                        &&& final(self).nodes@[j] is Some
                        &&& final(self).nodes@[j]->Some_0.origin == old(self).nodes@[j]->Some_0.origin
                        &&& final(self).nodes@[j]->Some_0.dual_variable == old(self).nodes@[j]->Some_0.dual_variable
                    }
            }),
            final(self).sync_target(sync_event.propagated_dual_node) matches Some(k) ==> final(self).nodes@.len() > k
                && final(self).nodes@[k as int] is Some,
            final(self).sync_target(sync_event.propagated_dual_node) matches Some(k) ==> (
            sync_event.propagated_dual_node matches Some((ptr, dual_variable, _)) ==> (old(self).spec_dual_node_index(ptr) is None
                ==> final(self).nodes@[k as int]->Some_0.origin == ptr && final(self).nodes@[k as int]->Some_0.dual_variable
                == dual_variable)),
    {
        let ghost start = *self;
        let local_vertex_index = match self.get_vertex_index(sync_event.vertex_index) {
            Some(index) => index,
            None => 0,
        };
        proof {
            assert(local_vertex_index == start.spec_vertex_index(sync_event.vertex_index)->Some_0) by {
                if !(start.owning_range.range_start <= sync_event.vertex_index < start.owning_range.range_end) {
                    assert(start.unit_module_info is Some);
                }
            }
        }
        let propagated = self.take_sync_entry(&sync_event.propagated_dual_node);
        let ghost s1 = *self;
        proof {
            match sync_event.propagated_grandson_dual_node {
                Some((gptr, _, _)) => {
                    match sync_event.propagated_dual_node {
                        Some((pptr, _, _)) => {
                            if gptr.index == pptr.index {
                                assert(gptr == pptr);
                            }
                        },
                        None => {},
                    }
                },
                None => {},
            }
        }
        let grandson = self.take_sync_entry(&sync_event.propagated_grandson_dual_node);
        let ghost s2 = *self;
        proof {
            match sync_event.propagated_dual_node {
                Some((pptr, _, _)) => {
                    match sync_event.propagated_grandson_dual_node {
                        Some((gptr, _, _)) => {
                            if gptr.index == pptr.index {
                                assert(s1.spec_dual_node_index(gptr) == s1.spec_dual_node_index(pptr));
                                assert(s2 == s1);
                            } else {
                                assert(s2.spec_dual_node_index(pptr) == s1.spec_dual_node_index(pptr));
                            }
                        },
                        None => {
                            assert(s2 == s1);
                        },
                    }
                },
                None => {},
            }
            assert(propagated == s2.sync_target(sync_event.propagated_dual_node));
        }
        self.dynamic_clear_vertex(local_vertex_index);
        let ghost s3 = *self;
        if self.vertices[local_vertex_index].propagated_dual_node == propagated {
            self.set_vertex_propagation(local_vertex_index, propagated, grandson);
            proof {
                Self::lemma_stable_trans(&s2, &s3, self);
            }
        } else {
            proof {
                assert(s3.incident_sides(local_vertex_index as int) =~= start.incident_sides(local_vertex_index as int));
            }
            match self.vertices[local_vertex_index].propagated_dual_node {
                Some(old_node) => {
                    proof {
                        assert(self.vertex_wf(local_vertex_index as int));
                        assert(start.vertex_node(local_vertex_index as int) == Some(old_node));
                        assert(start.vertex_wf(local_vertex_index as int));
                        assert(start.nodes@[old_node as int] is Some);
                        assert(s1.nodes@[old_node as int] is Some);
                        assert(self.nodes@[old_node as int] is Some);
                    }
                    if old_node < self.nodes.len() && self.nodes[old_node].is_some() {
                        self.vacate_for_sync(local_vertex_index, old_node);
                    } else {
                        self.set_vertex_propagation(local_vertex_index, None, None);
                    }
                },
                None => {},
            }
            proof {
                Self::lemma_stable_trans(&s2, &s3, self);
            }
            let ghost s4 = *self;
            proof {
                assert(s4.incident_sides(local_vertex_index as int) =~= start.incident_sides(local_vertex_index as int));
            }
            match propagated {
                Some(k) => {
                    let g = match grandson {
                        Some(g) => g,
                        None => k,
                    };
                    self.occupy_for_sync(local_vertex_index, k, g);
                },
                None => {},
            }
            proof {
                Self::lemma_same_shape_trans(&s2, &s4, self);
            }
        }
    }
}


impl DualModuleSerial {
    /// the coupling with the interface depends only on the internal nodes, the active list and
    /// where the module sits, so a change of edge weights keeps it
    pub proof fn lemma_synced_frame(pre: &Self, post: &Self, interface: &DualModuleInterface)
        requires
            pre.synced(interface),
            post.nodes@ == pre.nodes@,
            post.nodes_length == pre.nodes_length,
            post.active_list@ == pre.active_list@,
            post.unit_module_info == pre.unit_module_info,
            post.owning_range == pre.owning_range,
            post.vertices@.len() == pre.vertices@.len(),
        ensures
            post.synced(interface),
    {
        assert forall|k: int| #[trigger] post.is_moving(interface, k) implies post.active_list@.contains(k as usize) by {
            assert(pre.is_moving(interface, k));
        }
        assert forall|k: int| #[trigger] interface.is_live(k) implies post.dual_of(k) == interface.dual_variable_of(k) by {
            assert(pre.dual_of(k) == interface.dual_variable_of(k));
        }
    }
}

} // verus!
